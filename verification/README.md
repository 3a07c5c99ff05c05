# sonar_flows

Flow-matrix logic of the Sonar network survey tool, verified with Verus.

A survey turns captured packets into a flow matrix: one row per flow
(link, network, transport and application identity), its packets split
by the tunnel that carried them, labels resolved for its two ends, and the
files it was read from. The matrix is exported as CSV, re-imported, merged
with other surveys of the same network, and drawn as a relation graph.

## Layout

- `src/` — the verified library. Every public function states in its
  contract what it returns; the laws that relate several functions are
  public proof functions (`lemma_*`).
  - `flow_matrix.rs`, `rows.rs`, `endpoints.rs`: the matrix, its export
    rows and the endpoints and labels it observes.
  - `import.rs`, `batch.rs`: validation and merge of exported rows and
    files (`sfms.rs`: the link type named by a file's `#SFMS` preamble);
    `roundtrip.rs`: what a re-import reads back of an export (the
    flows with their packets, bytes and tunnel split, the files of origin,
    the labels of both ends).
  - `decode.rs`: a captured frame, decoded by `packet_parser` into its
    encapsulation levels, classified in the file's report and counted in
    the matrix, one row per level.
  - `balance.rs`: the tunnel accounts stay balanced between the outer and
    the inner rows of tunneled packets.
  - `link.rs`, `packets.rs`, `matrix.rs`: the link-layer text form and its
    inverse, the matrix identity of a link (observation details of a Linux
    cooked capture never split a row), tunnel identifiers, and the CSV
    column formats.
  - `labels.rs`: label files (format and conflict checks, "first wins"
    deduplication), labels written into the matrix and the arbitration of
    conflicts.
  - `survey.rs`, `project.rs`, `report.rs`, errors, graph builders and
    the DOT text of the relation graph (`graphviz.rs`).
- `tests/` — tests of the library on concrete values.
- `app/` — the command line: reading capture files (their packets are
  handed to the library as bytes) and matrix files, writing CSV.
