//! What the export of a matrix gives back once re-imported: the same
//! flows, each with the same packets, the same byte total and the same
//! per-tunnel split.

use vstd::prelude::*;

use crate::endpoints::{destination_ip_text, source_ip_text};
use crate::link::lemma_split_joined_texts;
use crate::order::name_set;
use crate::rows::{join_texts, texts_of};
use crate::text::{
    lemma_nonempty_trimmed_noop, lemma_split_no_sep, nonempty_trimmed, split_on, starts_with_formula_char, trim, trim_end,
    trim_start,
};
use crate::flow_matrix::{FlowKeySpec, FlowMatrix, entry_ids_distinct, entry_index, keyed_lookup, lemma_keyed_lookup_at, resolve_label};
use crate::import::{
    entries_in, ip_of_text, ip_type_text, labels_after, merge_all, origin_names, origins_added, row_flow, row_last_seen,
    rows_merged,
};
use crate::link::{LinkLayer, LinkViewSpec, exported_link, lemma_exported_link_reads_back, link_view_of, matrix_link_view};
use crate::matrix::{
    TunnelEntry, encap_entries, encap_in_tunnels, encap_text, entries_bytes, entries_count, escaped_cell,
    lemma_encap_reads_back, lemma_formula_cell_roundtrip, list_items_of, unescaped_cell,
};
use crate::rows::{FlowMatrixRowSpec, flow_row, saturated_bytes};

verus! {

// ---------------------------------------------------------------------------
// Flows that an export writes and a re-import reads back
// ---------------------------------------------------------------------------

/// An address and its class as a flow holds them, such that the export
/// writes them and the re-import reads them back: a present address is in
/// the canonical form of its parse and carries the class of that address;
/// an absent one has no class.
pub open spec fn ip_reads_back(ip: Option<Seq<char>>, class: Option<Seq<char>>) -> bool {
    match ip {
        Some(t) => ip_of_text(t) == Some(t) && class == Some(ip_type_text(t)),
        None => class is None,
    }
}

/// A flow identity that the export writes and the re-import reads back as
/// itself, in a survey of link type `lt`: its link is the view of a link
/// such a survey holds; a network layer has at least one address, both
/// addresses read back, and the network protocol is the link protocol (the
/// only protocol a row records); a transport or application protocol is
/// not empty (an empty one reads back as no such layer).
pub open spec fn key_reads_back(k: FlowKeySpec, lt: u32) -> bool {
    &&& exists|l: LinkLayer| exported_link(l, lt) && #[trigger] link_view_of(l) == k.link
    &&& match k.internet {
        Some(i) => (i.source_ip is Some || i.destination_ip is Some) && ip_reads_back(i.source_ip, i.ip_source_type)
            && ip_reads_back(i.destination_ip, i.ip_destination_type) && i.protocol == k.link.protocol,
        None => true,
    }
    &&& match k.transport {
        Some(t) => t.protocol.len() > 0,
        None => true,
    }
    &&& match k.application {
        Some(a) => a.len() > 0,
        None => true,
    }
}

/// Every entry outside a tunnel carries at least one packet (as every
/// entry built from captured packets does).
pub open spec fn untunneled_entries_counted(es: Seq<TunnelEntry>) -> bool {
    forall|i: int| 0 <= i < es.len() && (#[trigger] es[i]).0 is None ==> es[i].1.count > 0
}

/// What the re-import reads of the exported row of flow `k`: the flow
/// itself, with its packets split again by the row's `encap_id`.
proof fn lemma_flow_row_reads_back(
    k: FlowKeySpec,
    es: Seq<TunnelEntry>,
    origin: Seq<char>,
    labels: Map<(Seq<char>, Seq<char>), Seq<char>>,
    lt: u32,
)
    requires
        key_reads_back(k, lt),
    ensures
        ({
            let r = flow_row(k, es, origin, labels);
            row_flow(r, lt) == Ok::<(FlowKeySpec, Seq<TunnelEntry>), Seq<char>>(
                (k, encap_entries(r.encap_id, r.count, r.total_bytes, row_last_seen(r))),
            )
        }),
{
    let r = flow_row(k, es, origin, labels);
    let l = choose|l: LinkLayer| exported_link(l, lt) && #[trigger] link_view_of(l) == k.link;
    lemma_exported_link_reads_back(l, lt);
    assert(matrix_link_view(lt, r.mac_source, r.mac_destination, r.protocol_data_link, r.vlan_id) == Ok::<
        LinkViewSpec,
        Seq<char>,
    >(k.link));
    assert(ip_of_text(Seq::<char>::empty()) is None);
    match k.internet {
        Some(i) => {
            assert(r.ip_source == source_ip_text(k));
            assert(r.ip_destination == destination_ip_text(k));
            assert(ip_of_text(r.ip_source) == i.source_ip);
            assert(ip_of_text(r.ip_destination) == i.destination_ip);
        },
        None => {
            assert(r.ip_source == Seq::<char>::empty());
            assert(r.ip_destination == Seq::<char>::empty());
        },
    }
}

// ---------------------------------------------------------------------------
// Merging rows of distinct flows
// ---------------------------------------------------------------------------

/// Merging entries for distinct tunnels into a flow the map does not hold
/// adds that flow with exactly those entries.
proof fn lemma_merge_all_fresh(f: Map<FlowKeySpec, Seq<TunnelEntry>>, k: FlowKeySpec, es: Seq<TunnelEntry>)
    requires
        !f.contains_key(k),
        es.len() >= 1,
        entry_ids_distinct(es),
    ensures
        merge_all(f, k, es) == Some(f.insert(k, es)),
    decreases es.len(),
{
    let init = es.drop_last();
    let e = es.last();
    let cur = if init.len() == 0 {
        assert(merge_all(f, k, init) == Some(f));
        assert(entries_in(f, k) == Seq::<TunnelEntry>::empty());
        Seq::<TunnelEntry>::empty()
    } else {
        assert(entry_ids_distinct(init)) by {
            assert forall|i: int, j: int| 0 <= i < j < init.len() implies (#[trigger] init[i].0) != (#[trigger] init[j].0) by {
                assert(init[i] == es[i] && init[j] == es[j]);
            }
        }
        lemma_merge_all_fresh(f, k, init);
        assert(entries_in(f.insert(k, init), k) == init);
        init
    };
    assert(cur == init);
    assert(entry_index(cur, e.0) is None) by {
        if exists|j: int| 0 <= j < cur.len() && (#[trigger] cur[j]).0 == e.0 {
            let j = choose|j: int| 0 <= j < cur.len() && (#[trigger] cur[j]).0 == e.0;
            assert(es[j] == cur[j]);
            assert(es[es.len() - 1] == e);
        }
    }
    assert(init.push(e) =~= es);
    if init.len() > 0 {
        assert(f.insert(k, init).insert(k, es) =~= f.insert(k, es));
    }
}

/// The flow a row rebuilds, for link type `lt`.
pub open spec fn row_key(r: FlowMatrixRowSpec, lt: u32) -> FlowKeySpec {
    row_flow(r, lt)->Ok_0.0
}

/// The per-tunnel entries a row rebuilds, for link type `lt`.
pub open spec fn row_entries(r: FlowMatrixRowSpec, lt: u32) -> Seq<TunnelEntry> {
    row_flow(r, lt)->Ok_0.1
}

/// A row that a re-import rebuilds without error, into entries for
/// distinct tunnels.
pub open spec fn row_rebuilds(r: FlowMatrixRowSpec, lt: u32) -> bool {
    &&& encap_in_tunnels(r.encap_id, r.count) <= u64::MAX
    &&& row_flow(r, lt) is Ok
    &&& row_entries(r, lt).len() >= 1
    &&& entry_ids_distinct(row_entries(r, lt))
}

/// Merging rows of pairwise distinct flows, each rebuilt without error,
/// gives exactly their flows, each with the entries of its row.
proof fn lemma_rows_merged_fresh(rows: Seq<FlowMatrixRowSpec>, lt: u32)
    requires
        forall|a: int| 0 <= a < rows.len() ==> row_rebuilds(#[trigger] rows[a], lt),
        forall|a: int, b: int| 0 <= a < b < rows.len() ==> row_key(#[trigger] rows[a], lt) != row_key(#[trigger] rows[b], lt),
    ensures
        rows_merged(Map::empty(), Map::empty(), rows, lt) is Ok,
        forall|k: FlowKeySpec| #[trigger] rows_merged(Map::empty(), Map::empty(), rows, lt)->Ok_0.0.contains_key(k)
            <==> exists|a: int| 0 <= a < rows.len() && row_key(#[trigger] rows[a], lt) == k,
        forall|a: int| 0 <= a < rows.len() ==> rows_merged(Map::empty(), Map::empty(), rows, lt)->Ok_0.0[row_key(#[trigger] rows[a], lt)]
            == row_entries(rows[a], lt),
        forall|k: FlowKeySpec| #[trigger] rows_merged(Map::empty(), Map::empty(), rows, lt)->Ok_0.1.contains_key(k)
            ==> exists|a: int| 0 <= a < rows.len() && row_key(#[trigger] rows[a], lt) == k,
        forall|a: int| 0 <= a < rows.len() ==> origins_read(rows_merged(Map::empty(), Map::empty(), rows, lt)->Ok_0.1, row_key(#[trigger] rows[a], lt))
            == origin_names(rows[a].origin),
    decreases rows.len(),
{
    if rows.len() > 0 {
        let init = rows.drop_last();
        assert forall|a: int| 0 <= a < init.len() implies row_rebuilds(#[trigger] init[a], lt) by {
            assert(init[a] == rows[a]);
        }
        assert forall|a: int, b: int| 0 <= a < b < init.len() implies row_key(#[trigger] init[a], lt) != row_key(#[trigger] init[b], lt) by {
            assert(init[a] == rows[a] && init[b] == rows[b]);
        }
        lemma_rows_merged_fresh(init, lt);
        let (f, o) = rows_merged(Map::empty(), Map::empty(), init, lt)->Ok_0;
        let r = rows.last();
        assert(row_rebuilds(rows[rows.len() - 1], lt));
        let k = row_key(r, lt);
        let es = row_entries(r, lt);
        assert(!f.contains_key(k)) by {
            if f.contains_key(k) {
                let a = choose|a: int| 0 <= a < init.len() && row_key(#[trigger] init[a], lt) == k;
                assert(init[a] == rows[a]);
                assert(row_key(rows[a], lt) != row_key(rows[rows.len() - 1], lt));
            }
        }
        lemma_merge_all_fresh(f, k, es);
        let g = rows_merged(Map::empty(), Map::empty(), rows, lt)->Ok_0.0;
        assert(g == f.insert(k, es));
        assert forall|q: FlowKeySpec| #[trigger] g.contains_key(q) <==> exists|a: int| 0 <= a < rows.len() && row_key(#[trigger] rows[a], lt) == q by {
            if g.contains_key(q) {
                if q == k {
                    assert(row_key(rows[rows.len() - 1], lt) == q);
                } else {
                    assert(f.contains_key(q));
                    let a = choose|a: int| 0 <= a < init.len() && row_key(#[trigger] init[a], lt) == q;
                    assert(init[a] == rows[a]);
                }
            }
            if exists|a: int| 0 <= a < rows.len() && row_key(#[trigger] rows[a], lt) == q {
                let a = choose|a: int| 0 <= a < rows.len() && row_key(#[trigger] rows[a], lt) == q;
                if a < init.len() {
                    assert(init[a] == rows[a]);
                    assert(f.contains_key(row_key(init[a], lt)));
                }
            }
        }
        assert forall|a: int| 0 <= a < rows.len() implies g[row_key(#[trigger] rows[a], lt)] == row_entries(rows[a], lt) by {
            if a < init.len() {
                assert(init[a] == rows[a]);
                assert(row_key(rows[a], lt) != row_key(rows[rows.len() - 1], lt));
                assert(f[row_key(init[a], lt)] == row_entries(init[a], lt));
            }
        }
        let names = origin_names(r.origin);
        let og = rows_merged(Map::empty(), Map::empty(), rows, lt)->Ok_0.1;
        assert(og == origins_added(o, k, names));
        assert(!o.contains_key(k)) by {
            if o.contains_key(k) {
                let a = choose|a: int| 0 <= a < init.len() && row_key(#[trigger] init[a], lt) == k;
                assert(init[a] == rows[a]);
                assert(row_key(rows[a], lt) != row_key(rows[rows.len() - 1], lt));
            }
        }
        assert forall|q: FlowKeySpec| #[trigger] og.contains_key(q) implies exists|a: int| 0 <= a < rows.len() && row_key(#[trigger] rows[a], lt) == q by {
            if q == k {
                assert(row_key(rows[rows.len() - 1], lt) == q);
            } else {
                assert(o.contains_key(q));
                let a = choose|a: int| 0 <= a < init.len() && row_key(#[trigger] init[a], lt) == q;
                assert(init[a] == rows[a]);
            }
        }
        assert forall|a: int| 0 <= a < rows.len() implies origins_read(og, row_key(#[trigger] rows[a], lt)) == origin_names(rows[a].origin) by {
            if a < init.len() {
                assert(init[a] == rows[a]);
                assert(row_key(rows[a], lt) != row_key(rows[rows.len() - 1], lt));
                assert(origins_read(o, row_key(init[a], lt)) == origin_names(init[a].origin));
            } else {
                assert(rows[a] == r);
                if !names.is_empty() {
                    assert(Set::<Seq<char>>::empty().union(names) =~= names);
                }
            }
        }
    }
}

// ---------------------------------------------------------------------------
// The export read back
// ---------------------------------------------------------------------------

/// The conditions under which the rows of an export read back: a
/// well-formed matrix whose packet counts fit, whose flows are written and
/// read back (see [`key_reads_back`]) and whose entries outside a tunnel
/// carry packets; `rows` are the exported rows, in whatever order
/// [`FlowMatrix::to_flat_vec`] gives them.
pub open spec fn export_reads_back(m: FlowMatrix, rows: Seq<FlowMatrixRowSpec>, lt: u32) -> bool {
    &&& m.wf()
    &&& m.counts_fit()
    &&& rows.to_multiset() == m.flow_rows().to_multiset()
    &&& forall|i: int| 0 <= i < m.matrix@.len() ==> key_reads_back(#[trigger] m.matrix@[i].0@, lt)
    &&& forall|i: int| 0 <= i < m.matrix@.len() ==> untunneled_entries_counted(#[trigger] m.matrix@[i].1@)
}

/// The exported row of flow `i` rebuilds that flow, with the entries its
/// `encap_id` reads as.
proof fn lemma_exported_row_rebuilds(m: FlowMatrix, i: int, lt: u32)
    requires
        m.wf(),
        m.counts_fit(),
        0 <= i < m.matrix@.len(),
        key_reads_back(m.matrix@[i].0@, lt),
        untunneled_entries_counted(m.matrix@[i].1@),
    ensures
        row_rebuilds(m.flow_rows()[i], lt),
        row_key(m.flow_rows()[i], lt) == m.matrix@[i].0@,
        row_entries(m.flow_rows()[i], lt) == encap_entries(
            encap_text(m.matrix@[i].1@),
            entries_count(m.matrix@[i].1@) as u64,
            saturated_bytes(m.matrix@[i].1@),
            row_last_seen(m.flow_rows()[i]),
        ),
{
    let k = m.matrix@[i].0@;
    let es = m.matrix@[i].1@;
    let r = m.flow_rows()[i];
    assert(r == flow_row(k, es, m.origin_text(k), m.labels()));
    assert(entries_count(es) <= u64::MAX);
    lemma_flow_row_reads_back(k, es, m.origin_text(k), m.labels(), lt);
    lemma_encap_reads_back(es, saturated_bytes(es), row_last_seen(r));
    assert(entry_ids_distinct(es));
}

/// A sequence with the same multiset as one whose items have pairwise
/// distinct keys is that sequence reordered: each item of one is an item of
/// the other, and its items have pairwise distinct keys too.
proof fn lemma_permuted_keys<A, K>(fr: Seq<A>, rows: Seq<A>, key: spec_fn(A) -> K)
    requires
        rows.to_multiset() == fr.to_multiset(),
        forall|i: int, j: int| 0 <= i < j < fr.len() ==> key(#[trigger] fr[i]) != key(#[trigger] fr[j]),
    ensures
        forall|a: int| 0 <= a < rows.len() ==> fr.contains(#[trigger] rows[a]),
        forall|i: int| 0 <= i < fr.len() ==> rows.contains(#[trigger] fr[i]),
        forall|a: int, b: int| 0 <= a < b < rows.len() ==> key(#[trigger] rows[a]) != key(#[trigger] rows[b]),
{
    assert(fr.no_duplicates()) by {
        assert forall|i: int, j: int| 0 <= i < fr.len() && 0 <= j < fr.len() && i != j implies fr[i] != fr[j] by {
            if i < j {
                assert(key(fr[i]) != key(fr[j]));
            } else {
                assert(key(fr[j]) != key(fr[i]));
            }
        }
    }
    fr.lemma_multiset_has_no_duplicates();
    rows.lemma_multiset_has_no_duplicates_conv();
    assert forall|a: int| 0 <= a < rows.len() implies fr.contains(#[trigger] rows[a]) by {
        assert(rows.contains(rows[a]));
        assert(fr.contains(rows[a])) by {
            vstd::seq_lib::to_multiset_contains(rows, rows[a]);
            vstd::seq_lib::to_multiset_contains(fr, rows[a]);
        }
    }
    assert forall|i: int| 0 <= i < fr.len() implies rows.contains(#[trigger] fr[i]) by {
        assert(fr.contains(fr[i]));
        assert(rows.contains(fr[i])) by {
            vstd::seq_lib::to_multiset_contains(rows, fr[i]);
            vstd::seq_lib::to_multiset_contains(fr, fr[i]);
        }
    }
    assert forall|a: int, b: int| 0 <= a < b < rows.len() implies key(#[trigger] rows[a]) != key(#[trigger] rows[b]) by {
        assert(fr.contains(rows[a]) && fr.contains(rows[b]));
        let i = choose|i: int| 0 <= i < fr.len() && fr[i] == rows[a];
        let j = choose|j: int| 0 <= j < fr.len() && fr[j] == rows[b];
        assert(rows[a] != rows[b]);
        assert(i != j);
        if i < j {
            assert(key(fr[i]) != key(fr[j]));
        } else {
            assert(key(fr[j]) != key(fr[i]));
        }
    }
}

/// Rows with the same multiset as the exported rows of a matrix whose
/// flows read back are those rows reordered; they rebuild pairwise
/// distinct flows.
proof fn lemma_permuted_rows(m: FlowMatrix, rows: Seq<FlowMatrixRowSpec>, lt: u32)
    requires
        export_reads_back(m, rows, lt),
    ensures
        m.flow_rows().len() == m.matrix@.len(),
        forall|a: int| 0 <= a < rows.len() ==> m.flow_rows().contains(#[trigger] rows[a]),
        forall|i: int| 0 <= i < m.matrix@.len() ==> rows.contains(#[trigger] m.flow_rows()[i]),
        forall|a: int| 0 <= a < rows.len() ==> row_rebuilds(#[trigger] rows[a], lt),
        forall|a: int, b: int| 0 <= a < b < rows.len() ==> row_key(#[trigger] rows[a], lt) != row_key(#[trigger] rows[b], lt),
{
    lemma_exported_rows_rebuild(m, lt);
    let key = |r: FlowMatrixRowSpec| row_key(r, lt);
    assert forall|i: int, j: int| 0 <= i < j < m.flow_rows().len() implies key(#[trigger] m.flow_rows()[i]) != key(#[trigger] m.flow_rows()[j]) by {
        assert(row_key(m.flow_rows()[i], lt) != row_key(m.flow_rows()[j], lt));
    }
    lemma_permuted_keys(m.flow_rows(), rows, key);
    assert forall|a: int| 0 <= a < rows.len() implies row_rebuilds(#[trigger] rows[a], lt) by {
        assert(m.flow_rows().contains(rows[a]));
        let i = choose|i: int| 0 <= i < m.flow_rows().len() && m.flow_rows()[i] == rows[a];
        assert(row_rebuilds(m.flow_rows()[i], lt));
    }
    assert forall|a: int, b: int| 0 <= a < b < rows.len() implies row_key(#[trigger] rows[a], lt) != row_key(#[trigger] rows[b], lt) by {
        assert(key(rows[a]) != key(rows[b]));
    }
}

/// The exported rows of such a matrix rebuild its flows, pairwise distinct.
proof fn lemma_exported_rows_rebuild(m: FlowMatrix, lt: u32)
    requires
        m.wf(),
        m.counts_fit(),
        forall|i: int| 0 <= i < m.matrix@.len() ==> key_reads_back(#[trigger] m.matrix@[i].0@, lt),
        forall|i: int| 0 <= i < m.matrix@.len() ==> untunneled_entries_counted(#[trigger] m.matrix@[i].1@),
    ensures
        m.flow_rows().len() == m.matrix@.len(),
        forall|i: int| 0 <= i < m.matrix@.len() ==> row_rebuilds(#[trigger] m.flow_rows()[i], lt),
        forall|i: int| 0 <= i < m.matrix@.len() ==> row_key(#[trigger] m.flow_rows()[i], lt) == m.matrix@[i].0@,
        forall|i: int, j: int| 0 <= i < j < m.flow_rows().len() ==> row_key(#[trigger] m.flow_rows()[i], lt) != row_key(
            #[trigger] m.flow_rows()[j],
            lt,
        ),
{
    assert forall|i: int| 0 <= i < m.matrix@.len() implies row_rebuilds(#[trigger] m.flow_rows()[i], lt) && row_key(
        m.flow_rows()[i],
        lt,
    ) == m.matrix@[i].0@ by {
        lemma_exported_row_rebuilds(m, i, lt);
    }
    assert forall|i: int, j: int| 0 <= i < j < m.flow_rows().len() implies row_key(#[trigger] m.flow_rows()[i], lt) != row_key(
        #[trigger] m.flow_rows()[j],
        lt,
    ) by {
        assert(m.matrix@[i].0@ != m.matrix@[j].0@);
    }
}

/// Re-importing the rows of an export (in whatever order
/// [`FlowMatrix::to_flat_vec`] gives them) rebuilds exactly the flows of
/// the matrix, each with its packets, its byte total and its `encap_id`
/// split, whenever the export reads back (see [`export_reads_back`]).
pub proof fn lemma_export_reimport_keeps_flows(m: FlowMatrix, rows: Seq<FlowMatrixRowSpec>, lt: u32)
    requires
        export_reads_back(m, rows, lt),
    ensures
        rows_merged(Map::empty(), Map::empty(), rows, lt) is Ok,
        ({
            let f = rows_merged(Map::empty(), Map::empty(), rows, lt)->Ok_0.0;
            &&& f.dom() == m.flows().dom()
            &&& forall|k: FlowKeySpec| #[trigger] f.contains_key(k) ==> {
                &&& entries_count(f[k]) == entries_count(m.flows()[k])
                &&& encap_text(f[k]) == encap_text(m.flows()[k])
                &&& entries_bytes(f[k]) == saturated_bytes(m.flows()[k])
            }
        }),
{
    let fr = m.flow_rows();
    let n = m.matrix@.len();
    lemma_exported_rows_rebuild(m, lt);
    lemma_permuted_rows(m, rows, lt);
    lemma_rows_merged_fresh(rows, lt);
    let f = rows_merged(Map::empty(), Map::empty(), rows, lt)->Ok_0.0;
    let flows = m.flows();
    assert forall|k: FlowKeySpec| f.contains_key(k) <==> flows.contains_key(k) by {
        if f.contains_key(k) {
            let a = choose|a: int| 0 <= a < rows.len() && row_key(#[trigger] rows[a], lt) == k;
            assert(fr.contains(rows[a]));
            let i = choose|i: int| 0 <= i < fr.len() && fr[i] == rows[a];
            lemma_keyed_lookup_at(m.matrix@, i);
        }
        if flows.contains_key(k) {
            let i = choose|i: int| 0 <= i < n && (#[trigger] m.matrix@[i].0@) == k;
            assert(rows.contains(fr[i]));
            let a = choose|a: int| 0 <= a < rows.len() && rows[a] == fr[i];
            assert(row_key(rows[a], lt) == k);
        }
    }
    assert(f.dom() =~= flows.dom());
    assert forall|k: FlowKeySpec| #[trigger] f.contains_key(k) implies {
        &&& entries_count(f[k]) == entries_count(flows[k])
        &&& encap_text(f[k]) == encap_text(flows[k])
        &&& entries_bytes(f[k]) == saturated_bytes(flows[k])
    } by {
        let a = choose|a: int| 0 <= a < rows.len() && row_key(#[trigger] rows[a], lt) == k;
        assert(fr.contains(rows[a]));
        let i = choose|i: int| 0 <= i < fr.len() && fr[i] == rows[a];
        let es = m.matrix@[i].1@;
        lemma_keyed_lookup_at(m.matrix@, i);
        assert(flows[k] == es);
        assert(f[k] == row_entries(rows[a], lt));
        lemma_exported_row_rebuilds(m, i, lt);
        assert(untunneled_entries_counted(es));
        lemma_encap_reads_back(es, saturated_bytes(es), row_last_seen(fr[i]));
    }
}

// ---------------------------------------------------------------------------
// Files of origin read back
// ---------------------------------------------------------------------------

/// File names that the `origin` column writes and reads back: each trimmed,
/// not empty and without `|`.
pub open spec fn origin_names_read_back(names: Seq<String>) -> bool {
    forall|i: int| 0 <= i < names.len() ==> {
        &&& trim(#[trigger] names[i]@) == names[i]@
        &&& names[i]@.len() > 0
        &&& !names[i]@.contains('|')
    }
}

/// The files of origin recorded for flow `k` (none when there is no entry).
pub open spec fn origins_read(o: Map<FlowKeySpec, Set<Seq<char>>>, k: FlowKeySpec) -> Set<Seq<char>> {
    if o.contains_key(k) {
        o[k]
    } else {
        Set::empty()
    }
}

/// An `origin` column written from names that read back reads as those
/// names.
proof fn lemma_origin_text_reads_back(names: Seq<String>)
    requires
        origin_names_read_back(names),
    ensures
        origin_names(join_texts(texts_of(names), '|')) == name_set(names),
{
    let texts = texts_of(names);
    let joined = join_texts(texts, '|');
    if names.len() == 0 {
        let e = Seq::<char>::empty();
        assert(joined == e);
        lemma_split_no_sep(e, '|');
        assert(trim_start(e) == e);
        assert(trim_end(e) == e);
        assert(trim(e) == e);
        assert(split_on(joined, '|') =~= seq![e]);
        assert(seq![e].drop_last() =~= Seq::<Seq<char>>::empty());
        assert(seq![e].last() == e);
        assert(nonempty_trimmed(Seq::<Seq<char>>::empty()) =~= Seq::<Seq<char>>::empty());
        assert(nonempty_trimmed(seq![e]) =~= Seq::<Seq<char>>::empty());
        assert(list_items_of(joined) =~= Seq::<Seq<char>>::empty());
        assert(origin_names(joined) =~= name_set(names));
    } else {
        assert forall|i: int| 0 <= i < texts.len() implies !(#[trigger] texts[i]).contains('|') by {
            assert(texts[i] == names[i]@);
        }
        lemma_split_joined_texts(texts, '|');
        assert forall|i: int| 0 <= i < texts.len() implies #[trigger] trim(texts[i]) == texts[i] && texts[i].len() > 0 by {
            assert(texts[i] == names[i]@);
        }
        lemma_nonempty_trimmed_noop(texts);
        assert(list_items_of(joined) == texts);
        assert forall|t: Seq<char>| origin_names(joined).contains(t) <==> name_set(names).contains(t) by {
            if origin_names(joined).contains(t) {
                let i = choose|i: int| 0 <= i < list_items_of(joined).len() && list_items_of(joined)[i] == t && trim(t).len() > 0;
                assert(names[i]@ == t);
            }
            if name_set(names).contains(t) {
                let i = choose|i: int| 0 <= i < names.len() && (#[trigger] names[i])@ == t;
                assert(texts[i] == t);
                assert(trim(texts[i]) == texts[i] && texts[i].len() > 0);
            }
        }
        assert(origin_names(joined) =~= name_set(names));
    }
}

/// Re-importing the rows of an export gives each flow of the matrix its
/// files of origin, whenever the export reads back and every recorded file
/// name is trimmed, not empty and without `|`.
pub proof fn lemma_export_reimport_keeps_origins(m: FlowMatrix, rows: Seq<FlowMatrixRowSpec>, lt: u32)
    requires
        export_reads_back(m, rows, lt),
        forall|j: int| 0 <= j < m.origins@.len() ==> origin_names_read_back(#[trigger] m.origins@[j].1@),
    ensures
        rows_merged(Map::empty(), Map::empty(), rows, lt) is Ok,
        forall|k: FlowKeySpec| #[trigger] m.flows().contains_key(k) ==> origins_read(
            rows_merged(Map::empty(), Map::empty(), rows, lt)->Ok_0.1,
            k,
        ) == m.origins_of(k),
{
    let fr = m.flow_rows();
    let n = m.matrix@.len();
    lemma_exported_rows_rebuild(m, lt);
    lemma_permuted_rows(m, rows, lt);
    lemma_rows_merged_fresh(rows, lt);
    let o = rows_merged(Map::empty(), Map::empty(), rows, lt)->Ok_0.1;
    assert forall|k: FlowKeySpec| #[trigger] m.flows().contains_key(k) implies origins_read(o, k) == m.origins_of(k) by {
        let i = choose|i: int| 0 <= i < n && (#[trigger] m.matrix@[i].0@) == k;
        assert(rows.contains(fr[i]));
        let a = choose|a: int| 0 <= a < rows.len() && rows[a] == fr[i];
        assert(row_key(rows[a], lt) == k);
        assert(origins_read(o, k) == origin_names(rows[a].origin));
        assert(fr[i] == flow_row(k, m.matrix@[i].1@, m.origin_text(k), m.labels()));
        match keyed_lookup(m.origins@, k) {
            Some(names) => {
                let j = choose|j: int| 0 <= j < m.origins@.len() && (#[trigger] m.origins@[j].0@) == k;
                assert(names == m.origins@[j].1);
                lemma_origin_text_reads_back(names@);
            },
            None => {
                lemma_origin_text_reads_back(Seq::<String>::empty());
                assert(texts_of(Seq::<String>::empty()) =~= Seq::<Seq<char>>::empty());
                assert(name_set(Seq::<String>::empty()) =~= Set::<Seq<char>>::empty());
            },
        }
    }
}

// ---------------------------------------------------------------------------
// Labels read back
// ---------------------------------------------------------------------------

/// Row `r` writes no label to `key` but `v`: each end of the row at `key`
/// that carries a non-empty label carries one that reads back as `v`.
pub open spec fn writes_only(r: FlowMatrixRowSpec, key: (Seq<char>, Seq<char>), v: Seq<char>) -> bool {
    &&& match r.label_source {
        Some(l) => l.len() > 0 && (r.mac_source, r.ip_source) == key ==> unescaped_cell(l) == v,
        None => true,
    }
    &&& match r.label_destination {
        Some(l) => l.len() > 0 && (r.mac_destination, r.ip_destination) == key ==> unescaped_cell(l) == v,
        None => true,
    }
}

/// Row `r` writes a label to `key`.
pub open spec fn writes_key(r: FlowMatrixRowSpec, key: (Seq<char>, Seq<char>)) -> bool {
    ||| (match r.label_source {
        Some(l) => l.len() > 0 && (r.mac_source, r.ip_source) == key,
        None => false,
    })
    ||| (match r.label_destination {
        Some(l) => l.len() > 0 && (r.mac_destination, r.ip_destination) == key,
        None => false,
    })
}

/// When every row that writes `key` writes `v`, and one does, the labels
/// applied from the rows give `key` the label `v`.
proof fn lemma_rows_write_one_label(
    labels: Map<(Seq<char>, Seq<char>), Seq<char>>,
    rows: Seq<FlowMatrixRowSpec>,
    key: (Seq<char>, Seq<char>),
    v: Seq<char>,
)
    requires
        forall|a: int| 0 <= a < rows.len() ==> writes_only(#[trigger] rows[a], key, v),
        exists|a: int| 0 <= a < rows.len() && writes_key(#[trigger] rows[a], key),
    ensures
        labels_after(labels, rows).contains_key(key),
        labels_after(labels, rows)[key] == v,
    decreases rows.len(),
{
    let init = rows.drop_last();
    let r = rows.last();
    assert(writes_only(rows[rows.len() - 1], key, v));
    let prev = labels_after(labels, init);
    if exists|a: int| 0 <= a < init.len() && writes_key(#[trigger] init[a], key) {
        assert forall|a: int| 0 <= a < init.len() implies writes_only(#[trigger] init[a], key, v) by {
            assert(init[a] == rows[a]);
        }
        lemma_rows_write_one_label(labels, init, key, v);
    } else {
        let a = choose|a: int| 0 <= a < rows.len() && writes_key(#[trigger] rows[a], key);
        if a < init.len() {
            assert(init[a] == rows[a]);
        }
        assert(writes_key(r, key));
    }
}

/// The labels a matrix export writes are read back: re-importing the rows
/// of an export (in whatever order) gives each end of each flow the label
/// the export resolved for it, whenever that label is not empty and does
/// not itself start with `'` followed by a formula character.
pub proof fn lemma_export_reimport_keeps_labels(m: FlowMatrix, rows: Seq<FlowMatrixRowSpec>, i: int)
    requires
        m.wf(),
        m.counts_fit(),
        rows.to_multiset() == m.flow_rows().to_multiset(),
        0 <= i < m.matrix@.len(),
    ensures
        ({
            let k = m.matrix@[i].0@;
            let source = (k.link.source_mac, source_ip_text(k));
            let destination = (k.link.destination_mac, destination_ip_text(k));
            &&& label_kept(m.labels(), labels_after(Map::empty(), rows), source)
            &&& label_kept(m.labels(), labels_after(Map::empty(), rows), destination)
        }),
{
    broadcast use vstd::seq_lib::group_to_multiset_ensures;

    let fr = m.flow_rows();
    let n = m.matrix@.len();
    let labels = m.labels();
    // Every row given is an exported row; the row of flow `i` is given.
    assert forall|a: int| #![trigger rows[a]] 0 <= a < rows.len() implies exists|j: int| 0 <= j < n && #[trigger] fr[j] == rows[a] by {
        assert(rows.contains(rows[a]));
        assert(rows.to_multiset().count(rows[a]) > 0);
        assert(fr.contains(rows[a]));
    }
    assert(fr.contains(fr[i]));
    assert(fr.to_multiset().count(fr[i]) > 0);
    assert(rows.contains(fr[i]));
    let given = choose|a: int| 0 <= a < rows.len() && rows[a] == fr[i];
    // An exported row writes to a key only the label resolved for that key.
    assert forall|key: (Seq<char>, Seq<char>), a: int|
        0 <= a < rows.len() && resolve_label(labels, key.0, key.1) is Some && label_reads_back(resolve_label(labels, key.0, key.1)->0)
        implies #[trigger] writes_only(rows[a], key, resolve_label(labels, key.0, key.1)->0) by {
        let j = choose|j: int| 0 <= j < n && #[trigger] fr[j] == rows[a];
        let kj = m.matrix@[j].0@;
        assert(fr[j] == flow_row(kj, m.matrix@[j].1@, m.origin_text(kj), labels));
        let l = resolve_label(labels, key.0, key.1)->0;
        lemma_formula_cell_roundtrip(l);
    }
    let k = m.matrix@[i].0@;
    assert(fr[i] == flow_row(k, m.matrix@[i].1@, m.origin_text(k), labels));
    let source = (k.link.source_mac, source_ip_text(k));
    let destination = (k.link.destination_mac, destination_ip_text(k));
    if resolve_label(labels, source.0, source.1) is Some && label_reads_back(resolve_label(labels, source.0, source.1)->0) {
        let l = resolve_label(labels, source.0, source.1)->0;
        assert(escaped_cell(l).len() > 0);
        assert(writes_key(rows[given], source));
        assert forall|a: int| 0 <= a < rows.len() implies writes_only(#[trigger] rows[a], source, l) by {
            assert(writes_only(rows[a], source, resolve_label(labels, source.0, source.1)->0));
        }
        lemma_rows_write_one_label(Map::empty(), rows, source, l);
    }
    if resolve_label(labels, destination.0, destination.1) is Some && label_reads_back(resolve_label(labels, destination.0, destination.1)->0) {
        let l = resolve_label(labels, destination.0, destination.1)->0;
        assert(escaped_cell(l).len() > 0);
        assert(writes_key(rows[given], destination));
        assert forall|a: int| 0 <= a < rows.len() implies writes_only(#[trigger] rows[a], destination, l) by {
            assert(writes_only(rows[a], destination, resolve_label(labels, destination.0, destination.1)->0));
        }
        lemma_rows_write_one_label(Map::empty(), rows, destination, l);
    }
}

/// The end `key` resolves in `after` to the label it resolved to in
/// `before`, when that label reads back.
pub open spec fn label_kept(
    before: Map<(Seq<char>, Seq<char>), Seq<char>>,
    after: Map<(Seq<char>, Seq<char>), Seq<char>>,
    key: (Seq<char>, Seq<char>),
) -> bool {
    match resolve_label(before, key.0, key.1) {
        Some(l) => label_reads_back(l) ==> resolve_label(after, key.0, key.1) == Some(l),
        None => true,
    }
}

/// A label that the export writes and the re-import reads back as itself:
/// not empty, and not starting with `'` followed by a formula character.
pub open spec fn label_reads_back(l: Seq<char>) -> bool {
    l.len() > 0 && !(l[0] == '\'' && starts_with_formula_char(l.drop_first()))
}

} // verus!
