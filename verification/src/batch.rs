//! Batches of matrix files: file names and extensions, default origins,
//! line-numbered validation, and the merge of several files of one link
//! type into one matrix.

use vstd::prelude::*;

use crate::error::SonarCoreError;
use crate::flow_matrix::FlowMatrix;
use crate::import::{
    entries_in, flow_total, labels_after, lemma_merging_twice_doubles_counts, lemma_rows_concat, lemma_rows_merged_admissible,
    lemma_rows_merged_ok, lemma_rows_merged_origins, lemma_rows_merged_totals, lemma_rows_origins_concat, lemma_rows_same_flows,
    matrix_from_rows, origin_names, row_admissible, row_flow, row_keys, row_problem, rows_merged, rows_origins_for,
    rows_packets_for,
};
use crate::matrix::{TunnelEntry, list_items_of};
use crate::roundtrip::origins_read;
use crate::text::{lemma_nonempty_trimmed_noop, lemma_split_no_sep};
use crate::flow_matrix::{FlowKeySpec, opt_text};
use crate::rows::{FlowMatrixRow, FlowMatrixRowSpec, row_views};
use crate::text::{chars_of, concat2, concat3, dec_digits, eq_ignore_ascii_case, equal_ignore_ascii_case, is_blank, string_of_range, trim};

verus! {

// ---------------------------------------------------------------------------
// File names
// ---------------------------------------------------------------------------

/// Index of the last `/` of a path.
pub open spec fn last_slash(p: Seq<char>) -> Option<int> {
    if exists|i: int| 0 <= i < p.len() && p[i] == '/' {
        Some(choose|i: int| 0 <= i < p.len() && p[i] == '/' && forall|j: int| i < j < p.len() ==> p[j] != '/')
    } else {
        None
    }
}

/// The text after the last `/` of a path (the whole path without `/`).
pub open spec fn last_segment(p: Seq<char>) -> Seq<char> {
    match last_slash(p) {
        Some(i) => p.skip(i + 1),
        None => p,
    }
}

/// A path whose file name every platform reads the same way: no backslash
/// and no `:` (no Windows prefix nor other separator), and a last segment that
/// is a plain name, neither empty nor `.` nor `..`.
pub open spec fn plain_tail(p: Seq<char>) -> bool {
    &&& !p.contains('\\')
    &&& !p.contains(':')
    &&& last_segment(p).len() > 0
    &&& last_segment(p) != "."@
    &&& last_segment(p) != ".."@
}

/// `n` can be a component of path `p`: a non-empty piece of its text,
/// without `/`, neither `.` nor `..`.
pub open spec fn path_component(p: Seq<char>, n: Seq<char>) -> bool {
    &&& n.len() > 0
    &&& !n.contains('/')
    &&& n != "."@
    &&& n != ".."@
    &&& exists|i: int| 0 <= i && i + n.len() <= p.len() && #[trigger] p.subrange(i, i + n.len()) == n
}

/// The final component of a path (`Path::file_name`, read lossily, which
/// is exact on the text of a `&str`). Claimed: a name returned is a normal
/// component of the path, a non-empty piece of its text without `/`
/// (a separator on every platform), neither `.` nor `..`; and a path
/// without backslash nor `:` whose text after its last `/` is a plain name
/// has that name as file name (`tmp/foo.txt` gives `foo.txt`). Left unsaid:
/// paths with a backslash or `:`, or ending in `/`, `.` or `..`, which the
/// platforms split differently.
#[verifier::external_body]
fn file_name_of(path: &str) -> (r: Option<String>)
    ensures
        match r {
            Some(n) => path_component(path@, n@),
            None => true,
        },
        plain_tail(path@) ==> opt_text(r) == Some(last_segment(path@)),
{
    match std::path::Path::new(path).file_name() {
        Some(name) => Some(name.to_string_lossy().into_owned()),
        None => None,
    }
}

/// The name of a file used as the default origin of the rows read from it;
/// the whole path when no file name can be extracted.
pub fn origin_name_from_path(path: &str) -> (r: String)
    ensures
        plain_tail(path@) ==> r@ == last_segment(path@),
        r@ == path@ || path_component(path@, r@),
{
    match file_name_of(path) {
        Some(name) => name,
        None => path.to_owned(),
    }
}

/// Index of the last `.` of a file name.
pub open spec fn last_dot(n: Seq<char>) -> Option<int> {
    if exists|i: int| 0 <= i < n.len() && n[i] == '.' {
        Some(choose|i: int| 0 <= i < n.len() && n[i] == '.' && forall|j: int| i < j < n.len() ==> n[j] != '.')
    } else {
        None
    }
}

/// The extension of a file name (`Path::extension`): the text after the
/// last `.`, none without a `.` or when the only `.` starts the name.
pub open spec fn file_extension(n: Seq<char>) -> Option<Seq<char>> {
    match last_dot(n) {
        Some(i) => if i == 0 {
            None
        } else {
            Some(n.skip(i + 1))
        },
        None => None,
    }
}

/// A file name whose extension is `xlsx`, ignoring ASCII case.
pub open spec fn xlsx_name(n: Seq<char>) -> bool {
    match file_extension(n) {
        Some(e) => eq_ignore_ascii_case(e, "xlsx"@),
        None => false,
    }
}

/// Whether a file name has the extension `.xlsx` (ignoring case).
pub fn is_xlsx_file_name(name: &str) -> (r: bool)
    ensures
        r == xlsx_name(name@),
{
    let v = chars_of(name);
    let mut i = v.len();
    while i > 0 && v[i - 1] != '.'
        invariant
            i <= v@.len(),
            v@ == name@,
            forall|j: int| i <= j < v@.len() ==> v@[j] != '.',
        decreases i,
    {
        i = i - 1;
    }
    if i == 0 {
        assert(!exists|k: int| 0 <= k < name@.len() && name@[k] == '.');
        return false;
    }
    let d = i - 1;
    proof {
        assert(v@[d as int] == '.');
        let c = choose|k: int| 0 <= k < name@.len() && name@[k] == '.' && forall|j: int| k < j < name@.len() ==> name@[j] != '.';
        assert(c == d) by {
            if c < d {
                assert(name@[d as int] != '.');
            } else if c > d {
                assert(name@[c] != '.');
            }
        }
    }
    if d == 0 {
        return false;
    }
    let ext = string_of_range(&v, d + 1, v.len());
    assert(ext@ =~= name@.skip(d + 1));
    equal_ignore_ascii_case(ext.as_str(), "xlsx")
}

/// Whether the path names a `.xlsx` file (ignoring case), its file name
/// taken as the platform splits the path.
pub fn is_xlsx(path: &str) -> (r: bool)
    ensures
        plain_tail(path@) ==> r == xlsx_name(last_segment(path@)),
        r ==> exists|n: Seq<char>| path_component(path@, n) && #[trigger] xlsx_name(n),
{
    match file_name_of(path) {
        Some(name) => is_xlsx_file_name(name.as_str()),
        None => false,
    }
}

// ---------------------------------------------------------------------------
// Rows of a file
// ---------------------------------------------------------------------------

impl FlowMatrixRow {
    /// A copy of the row.
    pub fn duplicate(&self) -> (r: FlowMatrixRow)
        ensures
            r@ == self@,
    {
        FlowMatrixRow {
            mac_source: self.mac_source.clone(),
            mac_destination: self.mac_destination.clone(),
            vlan_id: self.vlan_id,
            protocol_data_link: self.protocol_data_link.clone(),
            ip_source: self.ip_source.clone(),
            ip_source_type: self.ip_source_type.clone(),
            label_source: crate::flow_matrix::copy_opt_text(&self.label_source),
            ip_destination: self.ip_destination.clone(),
            ip_destination_type: self.ip_destination_type.clone(),
            label_destination: crate::flow_matrix::copy_opt_text(&self.label_destination),
            port_source: self.port_source,
            port_destination: self.port_destination,
            protocol_transport: crate::flow_matrix::copy_opt_text(&self.protocol_transport),
            application_protocol: crate::flow_matrix::copy_opt_text(&self.application_protocol),
            count: self.count,
            total_bytes: self.total_bytes,
            last_seen: self.last_seen.clone(),
            encap_id: self.encap_id.clone(),
            origin: self.origin.clone(),
        }
    }
}

/// A row with the default origin `origin` when it carries none.
pub open spec fn with_origin(r: FlowMatrixRowSpec, origin: Seq<char>) -> FlowMatrixRowSpec {
    if trim(r.origin).len() == 0 {
        FlowMatrixRowSpec { origin, ..r }
    } else {
        r
    }
}

/// Gives the rows read from one file that carry no origin the name of that
/// file; a row that already had one (a merged matrix exported again) keeps
/// it.
pub fn apply_default_origin(rows: &mut Vec<FlowMatrixRow>, origin: &str)
    ensures
        final(rows)@.len() == old(rows)@.len(),
        forall|i: int| 0 <= i < final(rows)@.len() ==> (#[trigger] final(rows)@[i])@ == with_origin(old(rows)@[i]@, origin@),
{
    let mut i: usize = 0;
    while i < rows.len()
        invariant
            i <= rows@.len(),
            rows@.len() == old(rows)@.len(),
            forall|k: int| 0 <= k < i ==> (#[trigger] rows@[k])@ == with_origin(old(rows)@[k]@, origin@),
            forall|k: int| i <= k < rows@.len() ==> (#[trigger] rows@[k]) == old(rows)@[k],
        decreases rows@.len() - i,
    {
        if is_blank(rows[i].origin.as_str()) {
            let mut r = rows[i].duplicate();
            r.origin = origin.to_owned();
            rows.set(i, r);
        }
        i = i + 1;
    }
}

/// Index of the first invalid row.
pub open spec fn first_invalid(rows: Seq<FlowMatrixRowSpec>, lt: u32, k: int) -> bool {
    &&& 0 <= k < rows.len()
    &&& row_problem(rows[k], lt) is Some
    &&& forall|j: int| 0 <= j < k ==> row_problem(#[trigger] rows[j], lt) is None
}

/// Message of the invalid row at line `line`.
pub open spec fn invalid_line_message(line: nat, problem: Seq<char>) -> Seq<char> {
    "ligne "@ + dec_digits(line) + " invalide: "@ + problem
}

/// Validates every row of a file for its link type; the first invalid row
/// stops the reading with its line number (`first_line` for the first row).
pub fn check_matrix_rows(rows: &[FlowMatrixRow], link_type: u32, first_line: u64, path: &str) -> (r: Result<(), SonarCoreError>)
    requires
        first_line + rows@.len() <= u64::MAX,
    ensures
        (forall|j: int| 0 <= j < rows@.len() ==> row_problem(#[trigger] rows@[j]@, link_type) is None) ==> r is Ok,
        forall|k: int| first_invalid(row_views(rows@), link_type, k) ==> match r {
            Err(SonarCoreError::InvalidCsv { path: p, message }) => p@ == path@ && message@ == invalid_line_message(
                (first_line + k) as nat,
                row_problem(rows@[k]@, link_type)->0,
            ),
            _ => false,
        },
{
    let mut i: usize = 0;
    while i < rows.len()
        invariant
            i <= rows@.len(),
            first_line + rows@.len() <= u64::MAX,
            forall|j: int| 0 <= j < i ==> row_problem(#[trigger] rows@[j]@, link_type) is None,
        decreases rows@.len() - i,
    {
        match rows[i].validate(link_type) {
            Ok(()) => {},
            Err(e) => {
                let line = crate::error::decimal_text(first_line + i as u64);
                let head = concat3("ligne ", line.as_str(), " invalide: ");
                let message = concat2(head.as_str(), e.as_str());
                proof {
                    assert forall|k: int| first_invalid(row_views(rows@), link_type, k) implies k == i by {
                        if k < i {
                            assert(row_views(rows@)[k] == rows@[k]@);
                        } else if k > i {
                            assert(row_views(rows@)[i as int] == rows@[i as int]@);
                        }
                    }
                }
                return Err(SonarCoreError::InvalidCsv { path: path.to_owned(), message });
            },
        }
        i = i + 1;
    }
    proof {
        assert forall|k: int| !first_invalid(row_views(rows@), link_type, k) by {
            if 0 <= k < rows@.len() {
                assert(row_views(rows@)[k] == rows@[k]@);
            }
        }
    }
    Ok(())
}

// ---------------------------------------------------------------------------
// Merging files
// ---------------------------------------------------------------------------

/// The rows of one matrix file, read: its path, the name used as default
/// origin, its link type and its rows.
pub struct MatrixFile {
    pub path: String,
    pub origin: String,
    pub link_type: u32,
    pub rows: Vec<FlowMatrixRow>,
}

/// Index of the first file whose link type differs from the first file's.
pub open spec fn first_mixed(files: Seq<MatrixFile>, k: int) -> bool {
    &&& 0 < k < files.len()
    &&& files[k].link_type != files[0].link_type
    &&& forall|j: int| 0 <= j < k ==> (#[trigger] files[j]).link_type == files[0].link_type
}

/// The rows of the files, each with its file's default origin, end to end.
pub open spec fn batch_rows(files: Seq<MatrixFile>) -> Seq<FlowMatrixRowSpec>
    decreases files.len(),
{
    if files.len() == 0 {
        Seq::empty()
    } else {
        let f = files.last();
        batch_rows(files.drop_last()) + Seq::new(f.rows@.len(), |i: int| with_origin(f.rows@[i]@, f.origin@))
    }
}

/// Merges several matrix files into one matrix: at least one file, all of
/// one link type (a merge only concerns surveys of one network); the rows
/// without origin take their file's name, then all rows are merged.
pub fn merge_matrix_files(files: &[MatrixFile]) -> (r: Result<FlowMatrix, SonarCoreError>)
    ensures
        files@.len() == 0 ==> r matches Err(SonarCoreError::MissingInput),
        forall|k: int| first_mixed(files@, k) ==> match r {
            Err(SonarCoreError::MixedLinkTypes { path, found, expected }) => path@ == files@[k].path@ && found
                == files@[k].link_type && expected == files@[0].link_type,
            _ => false,
        },
        files@.len() > 0 && (forall|j: int| 0 <= j < files@.len() ==> (#[trigger] files@[j]).link_type == files@[0].link_type) ==> match rows_merged(
            Map::empty(),
            Map::empty(),
            batch_rows(files@),
            files@[0].link_type,
        ) {
            Ok((f, o)) => r matches Ok(m) && m.wf() && m.flows() == f && m.origin_sets() == o && m.labels()
                == labels_after(Map::empty(), batch_rows(files@)) && m.link_type == Some(files@[0].link_type),
            Err(e) => r matches Err(SonarCoreError::InvalidMatrixRow(t)) && t@ == e,
        },
{
    if files.len() == 0 {
        return Err(SonarCoreError::MissingInput);
    }
    let link_type = files[0].link_type;
    let ghost fs = files@;
    let mut all: Vec<FlowMatrixRow> = Vec::new();
    let mut i: usize = 0;
    assert(batch_rows(fs.take(0)) =~= Seq::<FlowMatrixRowSpec>::empty());
    assert(row_views(all@) =~= Seq::<FlowMatrixRowSpec>::empty());
    while i < files.len()
        invariant
            i <= files@.len(),
            fs == files@,
            fs.len() > 0,
            link_type == fs[0].link_type,
            forall|j: int| 0 <= j < i ==> (#[trigger] fs[j]).link_type == link_type,
            row_views(all@) == batch_rows(fs.take(i as int)),
        decreases files@.len() - i,
    {
        assert(fs.take(i + 1).drop_last() =~= fs.take(i as int));
        assert(fs.take(i + 1).last() == fs[i as int]);
        let file = &files[i];
        if file.link_type != link_type {
            proof {
                assert forall|k: int| first_mixed(fs, k) implies k == i by {
                    if k < i {
                    } else if k > i {
                        assert(fs[i as int].link_type == link_type);
                    }
                }
            }
            return Err(
                SonarCoreError::MixedLinkTypes {
                    path: file.path.clone(),
                    found: file.link_type,
                    expected: link_type,
                },
            );
        }
        let ghost base = row_views(all@);
        let ghost added = Seq::new(file.rows@.len(), |j: int| with_origin(file.rows@[j]@, file.origin@));
        let mut j: usize = 0;
        while j < file.rows.len()
            invariant
                j <= file.rows@.len(),
                added == Seq::new(file.rows@.len(), |j: int| with_origin(file.rows@[j]@, file.origin@)),
                row_views(all@) == base + added.take(j as int),
            decreases file.rows@.len() - j,
        {
            let mut row = file.rows[j].duplicate();
            if is_blank(row.origin.as_str()) {
                row.origin = file.origin.clone();
            }
            let ghost before = all@;
            all.push(row);
            assert(row_views(all@) =~= row_views(before).push(added[j as int]));
            assert(added.take(j + 1) =~= added.take(j as int).push(added[j as int]));
            j = j + 1;
        }
        assert(added.take(j as int) =~= added);
        i = i + 1;
    }
    assert(fs.take(i as int) =~= fs);
    matrix_from_rows(all.as_slice(), link_type)
}

/// The origin a file gives its rows does not change the flow they rebuild
/// to.
pub proof fn lemma_origin_keeps_the_flow(r: FlowMatrixRowSpec, origin: Seq<char>, lt: u32)
    ensures
        row_flow(with_origin(r, origin), lt) == row_flow(r, lt),
{
}

/// A file name that the `origin` column reads as itself: trimmed, not
/// empty, without `|`.
pub open spec fn plain_origin_name(n: Seq<char>) -> bool {
    trim(n) == n && n.len() > 0 && !n.contains('|')
}

/// Such a name is read back as the one file it names.
proof fn lemma_origin_names_single(n: Seq<char>)
    requires
        plain_origin_name(n),
    ensures
        origin_names(n) == set![n],
{
    lemma_split_no_sep(n, '|');
    lemma_nonempty_trimmed_noop(seq![n]);
    assert(list_items_of(n) == seq![n]);
    assert forall|t: Seq<char>| origin_names(n).contains(t) <==> set![n].contains(t) by {
        if t == n {
            assert(list_items_of(n)[0] == t);
        }
    }
    assert(origin_names(n) =~= set![n]);
}

/// Rows that all come from one file give each of their flows that file,
/// and no file to the other flows.
proof fn lemma_rows_origins_uniform(rows: Seq<FlowMatrixRowSpec>, name: Seq<char>, lt: u32, k: FlowKeySpec)
    requires
        forall|i: int| 0 <= i < rows.len() ==> (#[trigger] rows[i]).origin == name,
    ensures
        rows_origins_for(rows, lt, k) == (if row_keys(rows, lt).contains(k) {
            origin_names(name)
        } else {
            Set::empty()
        }),
    decreases rows.len(),
{
    if rows.len() > 0 {
        let init = rows.drop_last();
        assert forall|i: int| 0 <= i < init.len() implies (#[trigger] init[i]).origin == name by {
            assert(init[i] == rows[i]);
        }
        lemma_rows_origins_uniform(init, name, lt, k);
        assert(rows.last().origin == name);
        let e = Set::<Seq<char>>::empty();
        assert(e.union(e) =~= e);
        assert(origin_names(name).union(origin_names(name)) =~= origin_names(name));
        assert(origin_names(name).union(e) =~= origin_names(name));
        assert(e.union(origin_names(name)) =~= origin_names(name));
    }
}

/// Merging two copies of one matrix file (no origin column of its own)
/// under two plain file names succeeds when the file alone merges and the
/// doubled packets of each flow still fit in `u64` (its export sums them):
/// the merge gives the same flows as the file alone, every packet count
/// doubled, and every flow comes from both files.
pub proof fn lemma_two_copies_double_the_counts(a: MatrixFile, b: MatrixFile)
    requires
        row_views(a.rows@) == row_views(b.rows@),
        forall|i: int| 0 <= i < a.rows@.len() ==> trim((#[trigger] a.rows@[i])@.origin).len() == 0,
        plain_origin_name(a.origin@),
        plain_origin_name(b.origin@),
        rows_merged(Map::empty(), Map::empty(), batch_rows(seq![a]), a.link_type) is Ok,
        forall|k: FlowKeySpec| 2 * #[trigger] flow_total(
            rows_merged(Map::empty(), Map::empty(), batch_rows(seq![a]), a.link_type)->Ok_0.0,
            k,
        ) <= u64::MAX,
    ensures
        rows_merged(Map::empty(), Map::empty(), batch_rows(seq![a, b]), a.link_type) is Ok,
        ({
            let once = rows_merged(Map::empty(), Map::empty(), batch_rows(seq![a]), a.link_type)->Ok_0.0;
            let (twice, origins) = rows_merged(Map::empty(), Map::empty(), batch_rows(seq![a, b]), a.link_type)->Ok_0;
            &&& twice.dom() == once.dom()
            &&& forall|k: FlowKeySpec| #[trigger] flow_total(twice, k) == 2 * flow_total(once, k)
            &&& forall|k: FlowKeySpec| #[trigger] twice.contains_key(k) ==> origins_read(origins, k) == set![
                a.origin@,
                b.origin@,
            ]
        }),
{
    let lt = a.link_type;
    let e = Map::<FlowKeySpec, Seq<TunnelEntry>>::empty();
    let eo = Map::<FlowKeySpec, Set<Seq<char>>>::empty();
    let ra = Seq::new(a.rows@.len(), |i: int| with_origin(a.rows@[i]@, a.origin@));
    let rb = Seq::new(b.rows@.len(), |i: int| with_origin(b.rows@[i]@, b.origin@));
    assert(seq![a, b].drop_last() =~= seq![a]);
    assert(seq![a].drop_last() =~= Seq::<MatrixFile>::empty());
    assert(seq![a].last() == a);
    assert(seq![a, b].last() == b);
    assert(batch_rows(Seq::<MatrixFile>::empty()) =~= Seq::<FlowMatrixRowSpec>::empty());
    assert(Seq::<FlowMatrixRowSpec>::empty() + ra =~= ra);
    assert(batch_rows(seq![a]) =~= ra);
    assert(batch_rows(seq![a, b]) =~= ra + rb);
    assert(a.rows@.len() == row_views(a.rows@).len());
    assert(b.rows@.len() == row_views(b.rows@).len());
    assert forall|i: int| 0 <= i < ra.len() implies #[trigger] rb[i] == FlowMatrixRowSpec { origin: b.origin@, ..ra[i] }
        && ra[i].origin == a.origin@ by {
        assert(row_views(a.rows@)[i] == a.rows@[i]@);
        assert(row_views(b.rows@)[i] == b.rows@[i]@);
    }
    assert forall|i: int| 0 <= i < ra.len() implies row_flow(#[trigger] rb[i], lt) == row_flow(ra[i], lt) by {
        assert(rb[i] == FlowMatrixRowSpec { origin: b.origin@, ..ra[i] });
        lemma_origin_keeps_the_flow(ra[i], b.origin@, lt);
        assert(with_origin(ra[i], b.origin@) == ra[i]);
    }
    // The two files merge.
    lemma_rows_merged_admissible(e, eo, ra, lt);
    lemma_rows_merged_totals(e, eo, ra, lt);
    let once = rows_merged(e, eo, ra, lt)->Ok_0.0;
    let both = ra + rb;
    assert forall|i: int| 0 <= i < both.len() implies row_admissible(#[trigger] both[i], lt) by {
        if i < ra.len() {
            assert(both[i] == ra[i]);
        } else {
            assert(both[i] == rb[i - ra.len()]);
            assert(rb[i - ra.len()] == FlowMatrixRowSpec { origin: b.origin@, ..ra[i - ra.len()] });
            assert(row_admissible(ra[i - ra.len()], lt));
        }
    }
    assert forall|k: FlowKeySpec| #[trigger] flow_total(e, k) + rows_packets_for(both, lt, k) <= u64::MAX by {
        lemma_rows_concat(ra, rb, lt, k);
        lemma_rows_same_flows(ra, rb, lt, k);
        assert(entries_in(e, k) =~= Seq::<TunnelEntry>::empty());
        assert(flow_total(once, k) == flow_total(e, k) + rows_packets_for(ra, lt, k));
        assert(2 * flow_total(once, k) <= u64::MAX);
    }
    lemma_rows_merged_ok(e, eo, both, lt);
    // Same flows, packets doubled.
    lemma_merging_twice_doubles_counts(ra, rb, lt);
    // Origins.
    lemma_rows_merged_origins(e, eo, both, lt);
    lemma_rows_merged_totals(e, eo, both, lt);
    lemma_origin_names_single(a.origin@);
    lemma_origin_names_single(b.origin@);
    let (twice, origins) = rows_merged(e, eo, both, lt)->Ok_0;
    assert forall|k: FlowKeySpec| #[trigger] twice.contains_key(k) implies origins_read(origins, k) == set![
        a.origin@,
        b.origin@,
    ] by {
        lemma_rows_concat(ra, rb, lt, k);
        lemma_rows_same_flows(ra, rb, lt, k);
        lemma_rows_origins_concat(ra, rb, lt, k);
        assert forall|i: int| 0 <= i < rb.len() implies (#[trigger] rb[i]).origin == b.origin@ by {
            assert(rb[i] == FlowMatrixRowSpec { origin: b.origin@, ..ra[i] });
        }
        lemma_rows_origins_uniform(ra, a.origin@, lt, k);
        lemma_rows_origins_uniform(rb, b.origin@, lt, k);
        assert(twice.dom() == e.dom().union(row_keys(both, lt)));
        assert(row_keys(ra, lt).contains(k));
        assert(origins_read(eo, k) =~= Set::<Seq<char>>::empty());
        assert(Set::<Seq<char>>::empty().union(set![a.origin@].union(set![b.origin@])) =~= set![a.origin@, b.origin@]);
    }
}

// ---------------------------------------------------------------------------
// One import per file
// ---------------------------------------------------------------------------

/// Path `i` is the first with its identity.
pub open spec fn first_of_identity(ids: Seq<String>, i: int) -> bool {
    forall|j: int| 0 <= j < i ==> (#[trigger] ids[j])@ != ids[i]@
}

/// The paths kept: the first of each identity, in order.
pub open spec fn kept_paths(paths: Seq<String>, ids: Seq<String>) -> Seq<Seq<char>>
    decreases paths.len(),
{
    if paths.len() == 0 {
        Seq::empty()
    } else if first_of_identity(ids, paths.len() - 1) {
        kept_paths(paths.drop_last(), ids).push(paths.last()@)
    } else {
        kept_paths(paths.drop_last(), ids)
    }
}

/// Keeps one path per real file, given the identity of each path (its
/// resolved form, or the path itself when it cannot be resolved): a file
/// selected twice, by a detour or a link, would otherwise be imported
/// twice. The first path of each identity is kept, in order; a path that
/// cannot be resolved is kept, so that the import fails on it with its own
/// error.
pub fn dedupe_paths_by_identity(paths: &[String], identities: &[String]) -> (r: Vec<String>)
    requires
        identities@.len() == paths@.len(),
    ensures
        r@.map_values(|p: String| p@) == kept_paths(paths@, identities@),
{
    let mut out: Vec<String> = Vec::new();
    let mut i: usize = 0;
    assert(out@.map_values(|p: String| p@) =~= Seq::<Seq<char>>::empty());
    while i < paths.len()
        invariant
            i <= paths@.len(),
            identities@.len() == paths@.len(),
            out@.map_values(|p: String| p@) == kept_paths(paths@.take(i as int), identities@),
        decreases paths@.len() - i,
    {
        let first = first_with_identity(identities, i);
        proof {
            lemma_kept_paths_step(paths@, identities@, i as int);
        }
        if first {
            out.push(paths[i].clone());
        }
        assert(out@.map_values(|p: String| p@) =~= kept_paths(paths@.take(i + 1), identities@));
        i = i + 1;
    }
    assert(paths@.take(i as int) =~= paths@);
    out
}

/// Whether path `i` is the first with its identity.
fn first_with_identity(identities: &[String], i: usize) -> (r: bool)
    requires
        i < identities@.len(),
    ensures
        r == first_of_identity(identities@, i as int),
{
    let mut k: usize = 0;
    while k < i
        invariant
            k <= i < identities@.len(),
            forall|j: int| 0 <= j < k ==> (#[trigger] identities@[j])@ != identities@[i as int]@,
        decreases i - k,
    {
        if crate::text::str_eq(identities[k].as_str(), identities[i].as_str()) {
            return false;
        }
        k = k + 1;
    }
    true
}

proof fn lemma_kept_paths_step(paths: Seq<String>, ids: Seq<String>, i: int)
    requires
        0 <= i < paths.len(),
    ensures
        kept_paths(paths.take(i + 1), ids) == if first_of_identity(ids, i) {
            kept_paths(paths.take(i), ids).push(paths[i]@)
        } else {
            kept_paths(paths.take(i), ids)
        },
{
    assert(paths.take(i + 1).drop_last() =~= paths.take(i));
    assert(paths.take(i + 1).last() == paths[i]);
}

} // verus!
