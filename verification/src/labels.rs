//! Label files: rows read from a label file, "first wins" deduplication by
//! `(mac, ip)` key with the conflicts it resolved, header detection and the
//! MAC/IP format check.

use vstd::prelude::*;

use crate::import::{parse_ip_addr, parsed_ip_text};
use crate::flow_matrix::{FlowMatrix, LabelEntry};
use crate::state_errors::CaptureStateError;
use crate::matrix::{is_non_unicast_mac, is_placeholder_ip, non_unicast_mac, placeholder_ip};
use crate::link::{utf8_len, utf8_len_is};
use crate::rows::{join_names, join_texts, texts_of};
use crate::text::{concat3, lowercase_ascii, to_ascii_lower, trim, trimmed, chars_of, equal_ignore_ascii_case, eq_ignore_ascii_case, split_on, split_ranges, str_eq};

verus! {

/// A row of a label file: its line number, its raw text (for messages) and
/// its normalized fields.
#[derive(Debug)]
pub struct LabelRow {
    pub line: usize,
    pub raw: String,
    pub mac: String,
    pub ip: String,
    pub label: String,
}

/// Spec value of a [`LabelRow`].
pub struct LabelRowSpec {
    pub line: usize,
    pub raw: Seq<char>,
    pub mac: Seq<char>,
    pub ip: Seq<char>,
    pub label: Seq<char>,
}

impl View for LabelRow {
    type V = LabelRowSpec;

    open spec fn view(&self) -> LabelRowSpec {
        LabelRowSpec { line: self.line, raw: self.raw@, mac: self.mac@, ip: self.ip@, label: self.label@ }
    }
}

impl LabelRow {
    /// The `(mac, ip, label)` triple the label store holds.
    pub fn into_tuple(self) -> (r: (String, String, String))
        ensures
            r.0@ == self.mac@ && r.1@ == self.ip@ && r.2@ == self.label@,
    {
        (self.mac, self.ip, self.label)
    }
}

/// A label competing for a key: (line number, label, raw line).
pub type LabelChoice = (usize, String, String);

/// Conflict resolved at import: one `(mac, ip)` key carried several
/// different labels. The first is kept ("first wins"); the others are
/// dropped but kept here so that the user can arbitrate.
#[derive(Debug)]
pub struct LabelConflictReport {
    pub mac: String,
    pub ip: String,
    pub kept: LabelChoice,
    pub dropped: Vec<LabelChoice>,
}

/// Outcome of a label import: labels applied and conflicts resolved.
#[derive(Debug)]
pub struct LabelImportReport {
    pub applied: usize,
    pub conflicts: Vec<LabelConflictReport>,
}

/// Conflicts of the last label import, awaiting arbitration.
pub struct LabelConflictStore {
    pub conflicts: Vec<LabelConflictReport>,
}

impl Default for LabelConflictStore {
    fn default() -> (r: Self)
        ensures
            r.conflicts@.len() == 0,
    {
        LabelConflictStore { conflicts: Vec::new() }
    }
}

/// Arbitration sent by the user: the label kept for a key in conflict.
#[derive(Debug)]
pub struct LabelResolution {
    pub mac: String,
    pub ip: String,
    pub label: String,
}

// ---------------------------------------------------------------------------
// "First wins" deduplication
// ---------------------------------------------------------------------------

/// The `(mac, ip)` key of a row.
pub open spec fn row_key(r: LabelRowSpec) -> (Seq<char>, Seq<char>) {
    (r.mac, r.ip)
}

/// Row `i` of `s` is the first with its key.
pub open spec fn first_with_key(s: Seq<LabelRowSpec>, i: int) -> bool {
    forall|j: int| 0 <= j < i ==> row_key(#[trigger] s[j]) != row_key(s[i])
}

/// The rows that are the first with their key, in order.
pub open spec fn kept_rows(s: Seq<LabelRowSpec>) -> Seq<LabelRowSpec>
    decreases s.len(),
{
    if s.len() == 0 {
        Seq::empty()
    } else if first_with_key(s, s.len() - 1) {
        kept_rows(s.drop_last()).push(s.last())
    } else {
        kept_rows(s.drop_last())
    }
}

/// A choice `(line, label, raw)` as text.
pub open spec fn choice_of(r: LabelRowSpec) -> (usize, Seq<char>, Seq<char>) {
    (r.line, r.label, r.raw)
}

/// The rows with key `k` whose label is not `l`, in order, as choices.
pub open spec fn dropped_choices(s: Seq<LabelRowSpec>, k: (Seq<char>, Seq<char>), l: Seq<char>) -> Seq<(usize, Seq<char>, Seq<char>)>
    decreases s.len(),
{
    if s.len() == 0 {
        Seq::empty()
    } else if row_key(s.last()) == k && s.last().label != l {
        dropped_choices(s.drop_last(), k, l).push(choice_of(s.last()))
    } else {
        dropped_choices(s.drop_last(), k, l)
    }
}

/// Spec value of a conflict report.
pub struct ConflictSpec {
    pub mac: Seq<char>,
    pub ip: Seq<char>,
    pub kept: (usize, Seq<char>, Seq<char>),
    pub dropped: Seq<(usize, Seq<char>, Seq<char>)>,
}

/// The choices of a vector, as text.
pub open spec fn choices_view(v: Seq<LabelChoice>) -> Seq<(usize, Seq<char>, Seq<char>)> {
    v.map_values(|c: LabelChoice| (c.0, c.1@, c.2@))
}

/// Spec value of a [`LabelConflictReport`].
pub open spec fn conflict_view(c: LabelConflictReport) -> ConflictSpec {
    ConflictSpec { mac: c.mac@, ip: c.ip@, kept: (c.kept.0, c.kept.1@, c.kept.2@), dropped: choices_view(c.dropped@) }
}

/// The conflicts of `s`: for each kept row of `ks`, in order, whose key
/// received other labels, the kept choice and the dropped ones.
pub open spec fn conflicts_of(ks: Seq<LabelRowSpec>, s: Seq<LabelRowSpec>) -> Seq<ConflictSpec>
    decreases ks.len(),
{
    if ks.len() == 0 {
        Seq::empty()
    } else {
        let k = ks.last();
        let d = dropped_choices(s, row_key(k), k.label);
        if d.len() > 0 {
            conflicts_of(ks.drop_last(), s).push(ConflictSpec { mac: k.mac, ip: k.ip, kept: choice_of(k), dropped: d })
        } else {
            conflicts_of(ks.drop_last(), s)
        }
    }
}

/// The views of label rows.
pub open spec fn label_rows_view(v: Seq<LabelRow>) -> Seq<LabelRowSpec> {
    v.map_values(|r: LabelRow| r@)
}

fn same_key(a: &LabelRow, b: &LabelRow) -> (r: bool)
    ensures
        r == (row_key(a@) == row_key(b@)),
{
    str_eq(a.mac.as_str(), b.mac.as_str()) && str_eq(a.ip.as_str(), b.ip.as_str())
}

fn choice(r: &LabelRow) -> (c: LabelChoice)
    ensures
        (c.0, c.1@, c.2@) == choice_of(r@),
{
    (r.line, r.label.clone(), r.raw.clone())
}

proof fn lemma_no_key_no_drop(t: Seq<LabelRowSpec>, k: (Seq<char>, Seq<char>), l: Seq<char>)
    requires
        forall|j: int| 0 <= j < t.len() ==> row_key(#[trigger] t[j]) != k,
    ensures
        dropped_choices(t, k, l) == Seq::<(usize, Seq<char>, Seq<char>)>::empty(),
    decreases t.len(),
{
    if t.len() > 0 {
        assert(row_key(t[t.len() - 1]) != k);
        lemma_no_key_no_drop(t.drop_last(), k, l);
    }
}

impl LabelRow {
    /// A copy of the row.
    pub fn duplicate(&self) -> (r: LabelRow)
        ensures
            r@ == self@,
    {
        LabelRow {
            line: self.line,
            raw: self.raw.clone(),
            mac: self.mac.clone(),
            ip: self.ip.clone(),
            label: self.label.clone(),
        }
    }
}

/// Some row of `t` has key `k`.
pub open spec fn has_key(t: Seq<LabelRowSpec>, k: (Seq<char>, Seq<char>)) -> bool {
    exists|j: int| 0 <= j < t.len() && row_key(#[trigger] t[j]) == k
}

/// Deduplication loses no key and keeps each key once: the kept rows have
/// exactly the keys of the rows, and no two kept rows share a key.
pub proof fn lemma_kept_rows_keys(t: Seq<LabelRowSpec>)
    ensures
        forall|k: (Seq<char>, Seq<char>)| #[trigger] has_key(t, k) == has_key(kept_rows(t), k),
        forall|a: int, b: int| 0 <= a < b < kept_rows(t).len() ==> row_key(#[trigger] kept_rows(t)[a]) != row_key(#[trigger] kept_rows(t)[b]),
    decreases t.len(),
{
    if t.len() > 0 {
        let p = t.drop_last();
        lemma_kept_rows_keys(p);
        let r = t.last();
        assert forall|k: (Seq<char>, Seq<char>)| #[trigger] has_key(t, k) == (has_key(p, k) || row_key(r) == k) by {
            if has_key(t, k) {
                let j = choose|j: int| 0 <= j < t.len() && row_key(#[trigger] t[j]) == k;
                if j < p.len() {
                    assert(p[j] == t[j]);
                }
            }
            if has_key(p, k) {
                let j = choose|j: int| 0 <= j < p.len() && row_key(#[trigger] p[j]) == k;
                assert(t[j] == p[j]);
            }
            if row_key(r) == k {
                assert(row_key(t[t.len() - 1]) == k);
            }
        }
        if first_with_key(t, t.len() - 1) {
            let kp = kept_rows(p);
            let kt = kept_rows(t);
            assert(kt == kp.push(r));
            assert(!has_key(p, row_key(r))) by {
                if has_key(p, row_key(r)) {
                    let j = choose|j: int| 0 <= j < p.len() && row_key(#[trigger] p[j]) == row_key(r);
                    assert(row_key(t[j]) == row_key(t[t.len() - 1]));
                }
            }
            assert forall|k: (Seq<char>, Seq<char>)| #[trigger] has_key(kt, k) == (has_key(kp, k) || row_key(r) == k) by {
                if has_key(kt, k) {
                    let j = choose|j: int| 0 <= j < kt.len() && row_key(#[trigger] kt[j]) == k;
                    if j < kp.len() {
                        assert(kp[j] == kt[j]);
                    }
                }
                if has_key(kp, k) {
                    let j = choose|j: int| 0 <= j < kp.len() && row_key(#[trigger] kp[j]) == k;
                    assert(kt[j] == kp[j]);
                }
                if row_key(r) == k {
                    assert(row_key(kt[kt.len() - 1]) == k);
                }
            }
            assert forall|a: int, b: int| 0 <= a < b < kt.len() implies row_key(#[trigger] kt[a]) != row_key(#[trigger] kt[b]) by {
                assert(kt[a] == kp[a]);
                if b < kp.len() {
                    assert(kt[b] == kp[b]);
                } else {
                    assert(has_key(kp, row_key(kp[a])));
                }
            }
        } else {
            let j = choose|j: int| 0 <= j < t.len() - 1 && !(row_key(#[trigger] t[j]) != row_key(t[t.len() - 1]));
            assert(p[j] == t[j]);
            assert(has_key(p, row_key(r)));
        }
    }
}

/// The state of the deduplication after the rows `t`: the kept rows, and
/// for each the choices dropped so far for its key.
pub open spec fn dedup_state(kept: Seq<LabelRow>, dropped: Seq<Vec<LabelChoice>>, t: Seq<LabelRowSpec>) -> bool {
    &&& label_rows_view(kept) == kept_rows(t)
    &&& dropped.len() == kept.len()
    &&& forall|x: int| 0 <= x < kept.len() ==> choices_view(#[trigger] dropped[x]@) == dropped_choices(t, row_key(kept[x]@), kept[x]@.label)
}

fn find_key(kept: &Vec<LabelRow>, row: &LabelRow) -> (r: Option<usize>)
    ensures
        match r {
            Some(x) => x < kept@.len() && row_key(kept@[x as int]@) == row_key(row@),
            None => forall|y: int| 0 <= y < kept@.len() ==> row_key(#[trigger] kept@[y]@) != row_key(row@),
        },
{
    let mut x: usize = 0;
    while x < kept.len()
        invariant
            x <= kept@.len(),
            forall|y: int| 0 <= y < x ==> row_key(#[trigger] kept@[y]@) != row_key(row@),
        decreases kept@.len() - x,
    {
        if same_key(&kept[x], row) {
            return Some(x);
        }
        x = x + 1;
    }
    None
}

fn dedup_step(kept: &mut Vec<LabelRow>, dropped: &mut Vec<Vec<LabelChoice>>, row: &LabelRow, Ghost(t): Ghost<Seq<LabelRowSpec>>)
    requires
        dedup_state(old(kept)@, old(dropped)@, t),
    ensures
        dedup_state(final(kept)@, final(dropped)@, t.push(row@)),
{
    let ghost t1 = t.push(row@);
    assert(t1.drop_last() =~= t);
    assert(t1.last() == row@);
    proof {
        lemma_kept_rows_keys(t);
    }
    let ghost kv = label_rows_view(kept@);
    match find_key(kept, row) {
        Some(x) => {
            proof {
                assert(kv[x as int] == kept@[x as int]@);
                assert(has_key(kv, row_key(row@)));
                assert(has_key(t, row_key(row@)));
                let j = choose|j: int| 0 <= j < t.len() && row_key(#[trigger] t[j]) == row_key(row@);
                assert(t1[j] == t[j]);
                assert(!first_with_key(t1, t.len() as int));
            }
            let ghost old_dropped = dropped@;
            if !str_eq(kept[x].label.as_str(), row.label.as_str()) {
                let c = choice(row);
                let mut d = dropped.remove(x);
                let ghost dv = d@;
                d.push(c);
                assert(choices_view(d@) =~= choices_view(dv).push(choice_of(row@)));
                dropped.insert(x, d);
            }
            assert forall|y: int| 0 <= y < kept@.len() implies choices_view(#[trigger] dropped@[y]@) == dropped_choices(t1, row_key(kept@[y]@), kept@[y]@.label) by {
                if y != x {
                    assert(kv[y] == kept@[y]@);
                    assert(row_key(kv[y]) != row_key(kv[x as int]));
                    assert(dropped@[y] == old_dropped[y]);
                }
            }
        },
        None => {
            proof {
                assert(!has_key(kv, row_key(row@))) by {
                    if has_key(kv, row_key(row@)) {
                        let y = choose|y: int| 0 <= y < kv.len() && row_key(#[trigger] kv[y]) == row_key(row@);
                        assert(kv[y] == kept@[y]@);
                    }
                }
                assert(!has_key(t, row_key(row@)));
                assert(first_with_key(t1, t.len() as int)) by {
                    assert forall|j: int| 0 <= j < t.len() implies row_key(#[trigger] t1[j]) != row_key(t1[t.len() as int]) by {
                        assert(t1[j] == t[j]);
                    }
                }
                assert forall|j: int| 0 <= j < t.len() implies row_key(#[trigger] t[j]) != row_key(row@) by {}
                lemma_no_key_no_drop(t, row_key(row@), row@.label);
            }
            let ghost old_kept = kept@;
            let ghost old_dropped = dropped@;
            kept.push(row.duplicate());
            dropped.push(Vec::new());
            assert(label_rows_view(kept@) =~= label_rows_view(old_kept).push(row@));
            assert(choices_view(dropped@[kept@.len() - 1]@) =~= Seq::<(usize, Seq<char>, Seq<char>)>::empty());
            assert forall|y: int| 0 <= y < kept@.len() implies choices_view(#[trigger] dropped@[y]@) == dropped_choices(t1, row_key(kept@[y]@), kept@[y]@.label) by {
                if y < old_kept.len() {
                    assert(kept@[y] == old_kept[y]);
                    assert(dropped@[y] == old_dropped[y]);
                    assert(kv[y] == old_kept[y]@);
                    if row_key(old_kept[y]@) == row_key(row@) {
                        assert(has_key(kv, row_key(row@)));
                    }
                }
            }
        },
    }
}

fn copy_choices(v: &Vec<LabelChoice>) -> (r: Vec<LabelChoice>)
    ensures
        choices_view(r@) == choices_view(v@),
{
    let mut r: Vec<LabelChoice> = Vec::new();
    let mut z: usize = 0;
    while z < v.len()
        invariant
            z <= v@.len(),
            choices_view(r@) == choices_view(v@).take(z as int),
        decreases v@.len() - z,
    {
        let c = (v[z].0, v[z].1.clone(), v[z].2.clone());
        assert((c.0, c.1@, c.2@) == (v@[z as int].0, v@[z as int].1@, v@[z as int].2@));
        let ghost before = r@;
        assert(choices_view(before).len() == before.len());
        assert(choices_view(v@).take(z as int).len() == z);
        r.push(c);
        assert(r@ == before.push(c));
        assert forall|k: int| 0 <= k < z + 1 implies #[trigger] choices_view(r@)[k] == choices_view(v@).take(z + 1)[k] by {
            if k < z {
                assert(r@[k] == before[k]);
                assert(choices_view(before)[k] == choices_view(v@).take(z as int)[k]);
            }
        }
        assert(choices_view(r@) =~= choices_view(v@).take(z + 1));
        z = z + 1;
    }
    assert(choices_view(v@).take(z as int) =~= choices_view(v@));
    r
}

/// Deduplicates rows by `(mac, ip)` key keeping the **first** occurrence.
/// Returns the kept rows (one per key, in order of first appearance) and the
/// conflicts (keys that received at least two different labels), in the
/// same order.
pub fn dedup_labels_first_wins(rows: Vec<LabelRow>) -> (r: (Vec<LabelRow>, Vec<LabelConflictReport>))
    ensures
        label_rows_view(r.0@) == kept_rows(label_rows_view(rows@)),
        r.1@.map_values(|c: LabelConflictReport| conflict_view(c)) == conflicts_of(
            kept_rows(label_rows_view(rows@)),
            label_rows_view(rows@),
        ),
{
    let ghost s = label_rows_view(rows@);
    let mut kept: Vec<LabelRow> = Vec::new();
    let mut dropped: Vec<Vec<LabelChoice>> = Vec::new();
    assert(s.take(0) =~= Seq::<LabelRowSpec>::empty());
    assert(label_rows_view(kept@) =~= Seq::<LabelRowSpec>::empty());
    let mut i: usize = 0;
    while i < rows.len()
        invariant
            i <= rows@.len(),
            s == label_rows_view(rows@),
            dedup_state(kept@, dropped@, s.take(i as int)),
        decreases rows@.len() - i,
    {
        assert(s.take(i + 1) =~= s.take(i as int).push(rows@[i as int]@));
        dedup_step(&mut kept, &mut dropped, &rows[i], Ghost(s.take(i as int)));
        i = i + 1;
    }
    assert(s.take(i as int) =~= s);
    let ghost ks = label_rows_view(kept@);
    let mut conflicts: Vec<LabelConflictReport> = Vec::new();
    assert(conflicts@.map_values(|c: LabelConflictReport| conflict_view(c)) =~= Seq::<ConflictSpec>::empty());
    let mut y: usize = 0;
    while y < kept.len()
        invariant
            y <= kept@.len(),
            dropped@.len() == kept@.len(),
            ks == label_rows_view(kept@),
            forall|x: int| 0 <= x < kept@.len() ==> choices_view(#[trigger] dropped@[x]@) == dropped_choices(s, row_key(kept@[x]@), kept@[x]@.label),
            conflicts@.map_values(|c: LabelConflictReport| conflict_view(c)) == conflicts_of(ks.take(y as int), s),
        decreases kept@.len() - y,
    {
        assert(ks.take(y + 1).drop_last() =~= ks.take(y as int));
        assert(ks.take(y + 1).last() == kept@[y as int]@);
        assert(choices_view(dropped@[y as int]@).len() == dropped@[y as int]@.len());
        if dropped[y].len() > 0 {
            let report = LabelConflictReport {
                mac: kept[y].mac.clone(),
                ip: kept[y].ip.clone(),
                kept: choice(&kept[y]),
                dropped: copy_choices(&dropped[y]),
            };
            let ghost before = conflicts@;
            conflicts.push(report);
            assert(conflicts@.map_values(|c: LabelConflictReport| conflict_view(c)) =~= before.map_values(|c: LabelConflictReport| conflict_view(c)).push(conflict_view(report)));
        }
        y = y + 1;
    }
    assert(ks.take(y as int) =~= ks);
    (kept, conflicts)
}


// ---------------------------------------------------------------------------
// Header and field formats
// ---------------------------------------------------------------------------

/// A header row names its columns `mac,ip` or `adresse_mac,adresse_ip`,
/// ignoring ASCII case.
pub open spec fn header_row(r: LabelRowSpec) -> bool {
    (eq_ignore_ascii_case(r.mac, "mac"@) && eq_ignore_ascii_case(r.ip, "ip"@))
        || (eq_ignore_ascii_case(r.mac, "adresse_mac"@) && eq_ignore_ascii_case(r.ip, "adresse_ip"@))
}

/// A header row can only be the first of the file, and is recognized only
/// when it names a supported pair of columns (ignoring case): an invalid
/// first data row is never swallowed silently.
pub fn is_header_row(row: &LabelRow) -> (r: bool)
    ensures
        r == header_row(row@),
{
    (equal_ignore_ascii_case(row.mac.as_str(), "mac") && equal_ignore_ascii_case(row.ip.as_str(), "ip"))
        || (equal_ignore_ascii_case(row.mac.as_str(), "adresse_mac") && equal_ignore_ascii_case(
        row.ip.as_str(),
        "adresse_ip",
    ))
}

/// An ASCII hexadecimal digit.
pub open spec fn ascii_hex(c: char) -> bool {
    ('0' <= c <= '9') || ('a' <= c <= 'f') || ('A' <= c <= 'F')
}

/// Six pieces separated by `:`, each of two bytes, all ASCII hexadecimal
/// digits.
pub open spec fn mac_form(v: Seq<char>) -> bool {
    let ps = split_on(v, ':');
    ps.len() == 6 && forall|i: int| 0 <= i < 6 ==> (utf8_len(#[trigger] ps[i]) == 2 && forall|k: int|
        0 <= k < ps[i].len() ==> ascii_hex(#[trigger] ps[i][k]))
}

fn all_hex(v: &Vec<char>, lo: usize, hi: usize) -> (r: bool)
    requires
        lo <= hi <= v@.len(),
    ensures
        r == forall|k: int| 0 <= k < hi - lo ==> ascii_hex(#[trigger] v@.subrange(lo as int, hi as int)[k]),
{
    let mut i = lo;
    while i < hi
        invariant
            lo <= i <= hi,
            hi <= v@.len(),
            forall|k: int| 0 <= k < i - lo ==> ascii_hex(#[trigger] v@.subrange(lo as int, hi as int)[k]),
        decreases hi - i,
    {
        let c = v[i];
        assert(v@.subrange(lo as int, hi as int)[i - lo] == c);
        if !(('0' <= c && c <= '9') || ('a' <= c && c <= 'f') || ('A' <= c && c <= 'F')) {
            return false;
        }
        i = i + 1;
    }
    true
}

/// Whether `value` is a MAC written `aa:bb:cc:dd:ee:ff` (six pairs of
/// hexadecimal digits).
pub fn is_mac_address(value: &str) -> (r: bool)
    ensures
        r == mac_form(value@),
{
    let v = chars_of(value);
    assert(v@.subrange(0, v@.len() as int) =~= value@);
    let parts = split_ranges(&v, 0, v.len(), ':');
    if parts.len() != 6 {
        return false;
    }
    let ghost ps = split_on(value@, ':');
    let mut i: usize = 0;
    while i < 6
        invariant
            i <= 6,
            parts@.len() == 6,
            ps == split_on(value@, ':'),
            ps.len() == 6,
            v@ == value@,
            forall|k: int| 0 <= k < 6 ==> #[trigger] parts@[k].0 <= parts@[k].1 <= v@.len()
                && v@.subrange(parts@[k].0 as int, parts@[k].1 as int) == ps[k],
            forall|k: int| 0 <= k < i ==> (utf8_len(#[trigger] ps[k]) == 2 && forall|m: int|
                0 <= m < ps[k].len() ==> ascii_hex(#[trigger] ps[k][m])),
        decreases 6 - i,
    {
        let (lo, hi) = parts[i];
        if !utf8_len_is(&v, lo, hi, 2) || !all_hex(&v, lo, hi) {
            return false;
        }
        i = i + 1;
    }
    true
}

/// Whether `value` is an IP address (`IpAddr` parse).
pub fn is_ip_address(value: &str) -> (r: bool)
    ensures
        r == (parsed_ip_text(value@) is Some),
{
    parse_ip_addr(value).is_some()
}

/// A field in error: (line number, faulty value, raw line).
pub type LabelInvalidField = (usize, String, String);
/// A row in error: (line number, displayed content).
pub type LabelInvalidRow = (usize, String);
/// A conflict between two rows: (line A, line B, ip, value A, value B, raw
/// line A, raw line B).
pub type LabelConflict = (usize, usize, String, String, String, String, String);

/// Blocking error of a label file validation.
#[derive(Debug)]
pub enum LabelError {
    InvalidMacIpFormat { invalid_mac: Vec<LabelInvalidField>, invalid_ip: Vec<LabelInvalidField> },
    InvalidRowsFormat { invalid_lines: Vec<LabelInvalidRow> },
    LabelLinesConflicts { same_ip_diff_mac: Vec<LabelConflict>, same_ip_diff_label: Vec<LabelConflict> },
    /// Edit refused by the store (row not found, key collision).
    EditRejected(String),
}

/// Serializable form of a [`LabelError`] (`{ kind, message }`).
#[derive(Debug)]
pub enum LabelErrorKind {
    InvalidMacIpFormat(Vec<LabelInvalidField>, Vec<LabelInvalidField>),
    InvalidRowsFormat(Vec<LabelInvalidRow>),
    LabelLinesConflicts(Vec<LabelConflict>, Vec<LabelConflict>),
    EditRejected(String),
}

impl LabelError {
    /// The serializable form: each variant to its own, with its fields.
    pub fn into_kind(self) -> (r: LabelErrorKind)
        ensures
            match self {
                LabelError::InvalidMacIpFormat { invalid_mac, invalid_ip } => r == LabelErrorKind::InvalidMacIpFormat(invalid_mac, invalid_ip),
                LabelError::InvalidRowsFormat { invalid_lines } => r == LabelErrorKind::InvalidRowsFormat(invalid_lines),
                LabelError::LabelLinesConflicts { same_ip_diff_mac, same_ip_diff_label } => r == LabelErrorKind::LabelLinesConflicts(same_ip_diff_mac, same_ip_diff_label),
                LabelError::EditRejected(reason) => r == LabelErrorKind::EditRejected(reason),
            },
    {
        match self {
            LabelError::InvalidMacIpFormat { invalid_mac, invalid_ip } => LabelErrorKind::InvalidMacIpFormat(invalid_mac, invalid_ip),
            LabelError::InvalidRowsFormat { invalid_lines } => LabelErrorKind::InvalidRowsFormat(invalid_lines),
            LabelError::LabelLinesConflicts { same_ip_diff_mac, same_ip_diff_label } => LabelErrorKind::LabelLinesConflicts(same_ip_diff_mac, same_ip_diff_label),
            LabelError::EditRejected(reason) => LabelErrorKind::EditRejected(reason),
        }
    }
}

/// A row whose IP is present but is no IP address.
pub open spec fn bad_ip(r: LabelRowSpec) -> bool {
    parsed_ip_text(r.ip) is None && r.ip.len() > 0
}

/// A row whose MAC is present but not of the form `aa:bb:cc:dd:ee:ff`.
pub open spec fn bad_mac(r: LabelRowSpec) -> bool {
    !mac_form(r.mac) && r.mac.len() > 0
}

/// The faulty IPs of the rows, in order: (line, ip, raw line).
pub open spec fn bad_ips(s: Seq<LabelRowSpec>) -> Seq<(usize, Seq<char>, Seq<char>)>
    decreases s.len(),
{
    if s.len() == 0 {
        Seq::empty()
    } else if bad_ip(s.last()) {
        bad_ips(s.drop_last()).push((s.last().line, s.last().ip, s.last().raw))
    } else {
        bad_ips(s.drop_last())
    }
}

/// The faulty MACs of the rows, in order: (line, mac, raw line).
pub open spec fn bad_macs(s: Seq<LabelRowSpec>) -> Seq<(usize, Seq<char>, Seq<char>)>
    decreases s.len(),
{
    if s.len() == 0 {
        Seq::empty()
    } else if bad_mac(s.last()) {
        bad_macs(s.drop_last()).push((s.last().line, s.last().mac, s.last().raw))
    } else {
        bad_macs(s.drop_last())
    }
}

/// The rows after the header, if the first row is one.
pub open spec fn data_rows(s: Seq<LabelRowSpec>) -> Seq<LabelRowSpec> {
    if s.len() > 0 && header_row(s[0]) {
        s.drop_first()
    } else {
        s
    }
}

/// Checks the MAC and IP of rows already read (the header, if first, is
/// skipped): every faulty IP and every faulty MAC is reported, with its line
/// and raw text; empty fields are allowed.
pub fn verif_mac_ip_format_rows(rows: &[LabelRow]) -> (r: Result<(), LabelError>)
    ensures
        bad_ips(data_rows(label_rows_view(rows@))).len() == 0 && bad_macs(data_rows(label_rows_view(rows@))).len() == 0 ==> r is Ok,
        bad_ips(data_rows(label_rows_view(rows@))).len() > 0 || bad_macs(data_rows(label_rows_view(rows@))).len() > 0 ==> match r {
            Err(LabelError::InvalidMacIpFormat { invalid_mac, invalid_ip }) => choices_view(invalid_mac@) == bad_macs(data_rows(label_rows_view(rows@)))
                && choices_view(invalid_ip@) == bad_ips(data_rows(label_rows_view(rows@))),
            _ => false,
        },
{
    let ghost all = label_rows_view(rows@);
    let skip: usize = if rows.len() > 0 && is_header_row(&rows[0]) { 1 } else { 0 };
    let ghost d = data_rows(all);
    assert(d =~= all.subrange(skip as int, all.len() as int));
    let mut invalid_ip: Vec<LabelInvalidField> = Vec::new();
    let mut invalid_mac: Vec<LabelInvalidField> = Vec::new();
    let mut i = skip;
    assert(d.take(0) =~= Seq::<LabelRowSpec>::empty());
    assert(choices_view(invalid_ip@) =~= Seq::<(usize, Seq<char>, Seq<char>)>::empty());
    assert(choices_view(invalid_mac@) =~= Seq::<(usize, Seq<char>, Seq<char>)>::empty());
    while i < rows.len()
        invariant
            skip <= i <= rows@.len(),
            all == label_rows_view(rows@),
            d == all.subrange(skip as int, all.len() as int),
            choices_view(invalid_ip@) == bad_ips(d.take(i - skip)),
            choices_view(invalid_mac@) == bad_macs(d.take(i - skip)),
        decreases rows@.len() - i,
    {
        assert(d.take(i - skip + 1).drop_last() =~= d.take(i - skip));
        assert(d.take(i - skip + 1).last() == rows@[i as int]@);
        let row = &rows[i];
        if !is_ip_address(row.ip.as_str()) && !row.ip.as_str().is_empty() {
            let ghost before = invalid_ip@;
            invalid_ip.push((row.line, row.ip.clone(), row.raw.clone()));
            assert(choices_view(invalid_ip@) =~= choices_view(before).push((row.line, row.ip@, row.raw@)));
        }
        if !is_mac_address(row.mac.as_str()) && !row.mac.as_str().is_empty() {
            let ghost before = invalid_mac@;
            invalid_mac.push((row.line, row.mac.clone(), row.raw.clone()));
            assert(choices_view(invalid_mac@) =~= choices_view(before).push((row.line, row.mac@, row.raw@)));
        }
        i = i + 1;
    }
    assert(d.take(i - skip) =~= d);
    if invalid_ip.len() > 0 || invalid_mac.len() > 0 {
        return Err(LabelError::InvalidMacIpFormat { invalid_mac, invalid_ip });
    }
    Ok(())
}

/// The canonical form of an IP field: empty stays empty, an address
/// becomes its canonical text.
pub open spec fn canonical_ip_field(ip: Seq<char>) -> Seq<char> {
    if ip.len() == 0 {
        Seq::empty()
    } else {
        match parsed_ip_text(ip) {
            Some(t) => t,
            None => ip,
        }
    }
}

/// The faulty field of a key entered by hand, if any: (line 1, value,
/// the key written `mac,ip`).
pub open spec fn key_faults(bad: bool, value: Seq<char>, raw: Seq<char>) -> Seq<(usize, Seq<char>, Seq<char>)> {
    if bad {
        seq![(1usize, value, raw)]
    } else {
        Seq::empty()
    }
}

/// Normalizes a label key entered by hand to the forms of the packet
/// parser and of the label file import: the MAC in lower case, the IP in
/// its canonical text (compressed IPv6). One empty field is allowed (a
/// partial label), not both. A faulty MAC or IP is reported as the file
/// import reports it, on line 1, with the key written `mac,ip`. The fields
/// are taken as given: no CSV unquoting is applied here.
pub fn normalize_label_key(mac: &str, ip: &str) -> (r: Result<(String, String), CaptureStateError>)
    ensures
        ({
            let m = to_ascii_lower(mac@);
            let raw = m + ","@ + ip@;
            let mac_bad = m.len() > 0 && !mac_form(m);
            let ip_bad = ip@.len() > 0 && parsed_ip_text(ip@) is None;
            let canon = canonical_ip_field(ip@);
            if mac_bad || ip_bad {
                r matches Err(CaptureStateError::Label(LabelError::InvalidMacIpFormat { invalid_mac, invalid_ip }))
                    && choices_view(invalid_mac@) == key_faults(mac_bad, m, raw)
                    && choices_view(invalid_ip@) == key_faults(ip_bad, ip@, raw)
            } else if m.len() == 0 && canon.len() == 0 {
                r matches Err(CaptureStateError::Label(LabelError::InvalidRowsFormat { invalid_lines }))
                    && invalid_lines@.len() == 1 && invalid_lines@[0].0 == 1
                    && invalid_lines@[0].1@ == "MAC et IP tous deux vides"@
            } else {
                r matches Ok((a, b)) && a@ == m && b@ == canon
            }
        }),
{
    let mac = lowercase_ascii(mac);
    let raw = concat3(mac.as_str(), ",", ip);
    let mut invalid_mac: Vec<LabelInvalidField> = Vec::new();
    let mut invalid_ip: Vec<LabelInvalidField> = Vec::new();
    if !mac.as_str().is_empty() && !is_mac_address(mac.as_str()) {
        invalid_mac.push((1, mac.clone(), raw.clone()));
    }
    let canon = if ip.is_empty() {
        String::new()
    } else {
        match parse_ip_addr(ip) {
            Some(t) => t,
            None => {
                invalid_ip.push((1, ip.to_owned(), raw.clone()));
                ip.to_owned()
            },
        }
    };
    proof {
        assert(choices_view(invalid_mac@) =~= key_faults(mac@.len() > 0 && !mac_form(mac@), mac@, raw@));
        assert(choices_view(invalid_ip@) =~= key_faults(ip@.len() > 0 && parsed_ip_text(ip@) is None, ip@, raw@));
    }
    if invalid_mac.len() > 0 || invalid_ip.len() > 0 {
        return Err(CaptureStateError::Label(LabelError::InvalidMacIpFormat { invalid_mac, invalid_ip }));
    }
    if mac.as_str().is_empty() && canon.as_str().is_empty() {
        let mut invalid_lines: Vec<LabelInvalidRow> = Vec::new();
        invalid_lines.push((1, "MAC et IP tous deux vides".to_owned()));
        return Err(CaptureStateError::Label(LabelError::InvalidRowsFormat { invalid_lines }));
    }
    Ok((mac, canon))
}

// ---------------------------------------------------------------------------
// Conflicting rows
// ---------------------------------------------------------------------------

/// A row whose key can designate one device: its IP is no placeholder and
/// its MAC no broadcast or multicast address (such fields are shared by
/// several machines and raise no conflict).
pub open spec fn identifying(r: LabelRowSpec) -> bool {
    !placeholder_ip(r.ip) && !non_unicast_mac(r.mac)
}

/// Row `a` and the later row `b` give one store key `(mac, ip)` two
/// different labels: the second would silently overwrite the first. A
/// first row with neither MAC nor IP is no key at all.
pub open spec fn rows_conflict(a: LabelRowSpec, b: LabelRowSpec) -> bool {
    &&& identifying(a)
    &&& !(a.mac.len() == 0 && a.ip.len() == 0)
    &&& identifying(b)
    &&& a.mac == b.mac
    &&& a.ip == b.ip
    &&& a.label != b.label
}

/// The reported form of a conflict: (line A, line B, ip, label A, label B,
/// raw line A, raw line B).
pub open spec fn conflict_entry(a: LabelRowSpec, b: LabelRowSpec) -> (usize, usize, Seq<char>, Seq<char>, Seq<char>, Seq<char>, Seq<char>) {
    (a.line, b.line, a.ip, a.label, b.label, a.raw, b.raw)
}

/// The conflicts of row `a` with the rows `t` that follow it, in order.
pub open spec fn conflicts_with(a: LabelRowSpec, t: Seq<LabelRowSpec>) -> Seq<(usize, usize, Seq<char>, Seq<char>, Seq<char>, Seq<char>, Seq<char>)>
    decreases t.len(),
{
    if t.len() == 0 {
        Seq::empty()
    } else if rows_conflict(a, t.last()) {
        conflicts_with(a, t.drop_last()).push(conflict_entry(a, t.last()))
    } else {
        conflicts_with(a, t.drop_last())
    }
}

/// The conflicts of the first `n` rows of `s` with the rows after each of
/// them: for each row in order, its conflicts in order.
pub open spec fn conflicts_upto(s: Seq<LabelRowSpec>, n: nat) -> Seq<(usize, usize, Seq<char>, Seq<char>, Seq<char>, Seq<char>, Seq<char>)>
    decreases n,
{
    if n == 0 {
        Seq::empty()
    } else {
        conflicts_upto(s, (n - 1) as nat) + conflicts_with(s[n - 1], s.skip(n as int))
    }
}

/// Every conflict between two rows of `s`.
pub open spec fn line_conflicts(s: Seq<LabelRowSpec>) -> Seq<(usize, usize, Seq<char>, Seq<char>, Seq<char>, Seq<char>, Seq<char>)> {
    conflicts_upto(s, s.len())
}

/// The spec form of reported conflicts.
pub open spec fn conflicts_view(v: Seq<LabelConflict>) -> Seq<(usize, usize, Seq<char>, Seq<char>, Seq<char>, Seq<char>, Seq<char>)> {
    v.map_values(|c: LabelConflict| (c.0, c.1, c.2@, c.3@, c.4@, c.5@, c.6@))
}

/// A row conflicts with no row that lacks its key.
proof fn lemma_no_shared_key_no_conflict(a: LabelRowSpec, t: Seq<LabelRowSpec>)
    requires
        forall|j: int| 0 <= j < t.len() ==> row_key(#[trigger] t[j]) != row_key(a),
    ensures
        conflicts_with(a, t).len() == 0,
    decreases t.len(),
{
    if t.len() > 0 {
        assert forall|j: int| 0 <= j < t.drop_last().len() implies row_key(#[trigger] t.drop_last()[j]) != row_key(a) by {
            assert(t.drop_last()[j] == t[j]);
        }
        lemma_no_shared_key_no_conflict(a, t.drop_last());
        assert(row_key(t[t.len() - 1]) != row_key(a));
    }
}

/// Rows with pairwise distinct keys have no conflict.
proof fn lemma_unique_keys_no_conflicts(s: Seq<LabelRowSpec>, n: nat)
    requires
        n <= s.len(),
        forall|a: int, b: int| 0 <= a < b < s.len() ==> row_key(#[trigger] s[a]) != row_key(#[trigger] s[b]),
    ensures
        conflicts_upto(s, n).len() == 0,
    decreases n,
{
    if n > 0 {
        lemma_unique_keys_no_conflicts(s, (n - 1) as nat);
        let t = s.skip(n as int);
        assert forall|j: int| 0 <= j < t.len() implies row_key(#[trigger] t[j]) != row_key(s[n - 1]) by {
            assert(t[j] == s[n + j]);
        }
        lemma_no_shared_key_no_conflict(s[n - 1], t);
    }
}

/// The rows that "first wins" deduplication keeps never raise a conflict:
/// the conflict check accepts them, header or not.
pub proof fn lemma_first_wins_leaves_no_conflict(t: Seq<LabelRowSpec>)
    ensures
        line_conflicts(data_rows(kept_rows(t))).len() == 0,
{
    lemma_kept_rows_keys(t);
    let k = kept_rows(t);
    let d = data_rows(k);
    assert forall|a: int, b: int| 0 <= a < b < d.len() implies row_key(#[trigger] d[a]) != row_key(#[trigger] d[b]) by {
        if k.len() > 0 && header_row(k[0]) {
            assert(d[a] == k[a + 1] && d[b] == k[b + 1]);
        }
    }
    lemma_unique_keys_no_conflicts(d, d.len());
}

fn is_identifying(row: &LabelRow) -> (r: bool)
    ensures
        r == identifying(row@),
{
    !is_placeholder_ip(row.ip.as_str()) && !is_non_unicast_mac(row.mac.as_str())
}

/// Checks rows already read for keys given two labels (the header, if
/// first, is skipped): every pair of conflicting rows is reported, in the
/// order of the first row then of the second. Two devices sharing an IP
/// under different MACs are two keys, no conflict.
pub fn verif_labels_conflicts_rows(rows: &[LabelRow]) -> (r: Result<(), LabelError>)
    ensures
        line_conflicts(data_rows(label_rows_view(rows@))).len() == 0 ==> r is Ok,
        line_conflicts(data_rows(label_rows_view(rows@))).len() > 0 ==> match r {
            Err(LabelError::LabelLinesConflicts { same_ip_diff_mac, same_ip_diff_label }) => same_ip_diff_mac@.len() == 0
                && conflicts_view(same_ip_diff_label@) == line_conflicts(data_rows(label_rows_view(rows@))),
            _ => false,
        },
{
    let ghost all = label_rows_view(rows@);
    let skip: usize = if rows.len() > 0 && is_header_row(&rows[0]) { 1 } else { 0 };
    let ghost d = data_rows(all);
    assert(d =~= all.subrange(skip as int, all.len() as int));
    let mut same_ip_different_label: Vec<LabelConflict> = Vec::new();
    let same_ip_different_mac: Vec<LabelConflict> = Vec::new();
    assert(conflicts_view(same_ip_different_label@) =~= conflicts_upto(d, 0));
    let mut i = skip;
    while i < rows.len()
        invariant
            skip <= i <= rows@.len(),
            all == label_rows_view(rows@),
            d == all.subrange(skip as int, all.len() as int),
            same_ip_different_mac@.len() == 0,
            conflicts_view(same_ip_different_label@) == conflicts_upto(d, (i - skip) as nat),
        decreases rows@.len() - i,
    {
        let ghost k = (i - skip) as int;
        let ghost base = conflicts_upto(d, k as nat);
        assert(d[k] == rows@[i as int]@);
        let row1 = &rows[i];
        let first_counts = is_identifying(row1) && !(row1.mac.as_str().is_empty() && row1.ip.as_str().is_empty());
        let mut j = i + 1;
        assert(d.skip(k + 1).take(0) =~= Seq::<LabelRowSpec>::empty());
        while j < rows.len()
            invariant
                skip <= i < j <= rows@.len(),
                k == i - skip,
                all == label_rows_view(rows@),
                d == all.subrange(skip as int, all.len() as int),
                row1 == &rows@[i as int],
                first_counts == (identifying(row1@) && !(row1@.mac.len() == 0 && row1@.ip.len() == 0)),
                conflicts_view(same_ip_different_label@) == base + conflicts_with(d[k], d.skip(k + 1).take(j - i - 1)),
            decreases rows@.len() - j,
        {
            let ghost t = d.skip(k + 1).take(j - i);
            assert(t.drop_last() =~= d.skip(k + 1).take(j - i - 1));
            assert(t.last() == rows@[j as int]@);
            let row2 = &rows[j];
            if first_counts && is_identifying(row2) && str_eq(row1.mac.as_str(), row2.mac.as_str())
                && str_eq(row1.ip.as_str(), row2.ip.as_str()) && !str_eq(row1.label.as_str(), row2.label.as_str())
            {
                let ghost before = same_ip_different_label@;
                same_ip_different_label.push(
                    (
                        row1.line,
                        row2.line,
                        row1.ip.clone(),
                        row1.label.clone(),
                        row2.label.clone(),
                        row1.raw.clone(),
                        row2.raw.clone(),
                    ),
                );
                assert(conflicts_view(same_ip_different_label@) =~= conflicts_view(before).push(
                    conflict_entry(row1@, row2@),
                ));
            }
            j = j + 1;
        }
        assert(d.skip(k + 1).take(j - i - 1) =~= d.skip(k + 1));
        i = i + 1;
    }
    assert(d.len() == i - skip);
    if same_ip_different_label.len() > 0 || same_ip_different_mac.len() > 0 {
        Err(LabelError::LabelLinesConflicts {
            same_ip_diff_mac: same_ip_different_mac,
            same_ip_diff_label: same_ip_different_label,
        })
    } else {
        Ok(())
    }
}

// ---------------------------------------------------------------------------
// Records of a label file
// ---------------------------------------------------------------------------

/// A record of a label file, as the CSV reader delivers it.
#[derive(Debug)]
pub enum LabelRecord {
    /// A record read: its line, its fields, and whether every field is empty.
    Fields { line: usize, fields: Vec<String>, blank: bool },
    /// A record the reader could not read: its line and the reason.
    Unreadable { line: usize, message: String },
}

/// Whether the fields are the header of an exported flow matrix
/// (`mac_source,mac_destination,...`): the wrong kind of file.
pub open spec fn matrix_header(fields: Seq<String>) -> bool {
    fields.len() >= 2 && trim(fields[0]@) == "mac_source"@ && trim(fields[1]@) == "mac_destination"@
}

/// Message refusing an exported flow matrix given as a label file.
pub open spec fn matrix_file_message() -> Seq<char> {
    "ce fichier est une matrice de flux exportée (colonnes mac_source, mac_destination…) : importez-le via « Ouvrir un fichier CSV ». Un fichier de labels contient mac, ip, label."@
}

/// The first record is the header of an exported flow matrix.
pub open spec fn starts_with_matrix_header(rs: Seq<LabelRecord>) -> bool {
    rs.len() > 0 && match rs[0] {
        LabelRecord::Fields { fields, blank, .. } => !blank && matrix_header(fields@),
        LabelRecord::Unreadable { .. } => false,
    }
}

/// Line of a record.
pub open spec fn record_line(r: LabelRecord) -> usize {
    match r {
        LabelRecord::Fields { line, .. } => line,
        LabelRecord::Unreadable { line, .. } => line,
    }
}

/// What is wrong with a record, if anything: an unreadable record, or a
/// record of fewer than three fields (shown joined by `,`). Blank records
/// are skipped.
pub open spec fn record_problem(r: LabelRecord) -> Option<(usize, Seq<char>)> {
    match r {
        LabelRecord::Unreadable { line, message } => Some((line, message@)),
        LabelRecord::Fields { line, fields, blank } => if !blank && fields@.len() < 3 {
            Some((line, join_texts(texts_of(fields@), ',')))
        } else {
            None
        },
    }
}

/// The problems of the records, in order.
pub open spec fn record_problems(rs: Seq<LabelRecord>) -> Seq<(usize, Seq<char>)>
    decreases rs.len(),
{
    if rs.len() == 0 {
        Seq::empty()
    } else {
        match record_problem(rs.last()) {
            Some(p) => record_problems(rs.drop_last()).push(p),
            None => record_problems(rs.drop_last()),
        }
    }
}

/// The records kept: not blank, with at least three fields, in order, as
/// (line, fields).
pub open spec fn kept_records(rs: Seq<LabelRecord>) -> Seq<(usize, Seq<Seq<char>>)>
    decreases rs.len(),
{
    if rs.len() == 0 {
        Seq::empty()
    } else {
        match rs.last() {
            LabelRecord::Fields { line, fields, blank } => if !blank && fields@.len() >= 3 {
                kept_records(rs.drop_last()).push((line, texts_of(fields@)))
            } else {
                kept_records(rs.drop_last())
            },
            _ => kept_records(rs.drop_last()),
        }
    }
}

/// Whether the fields are the header of an exported flow matrix.
pub fn is_matrix_export_header(fields: &Vec<String>) -> (r: bool)
    ensures
        r == matrix_header(fields@),
{
    proof {
        reveal_strlit("mac_source");
        reveal_strlit("mac_destination");
    }
    if fields.len() < 2 {
        return false;
    }
    let a = trimmed(fields[0].as_str());
    let b = trimmed(fields[1].as_str());
    str_eq(a.as_str(), "mac_source") && str_eq(b.as_str(), "mac_destination")
}

/// Checks the records of a label file before any label is applied: a file
/// whose first record is the header of an exported flow matrix is refused
/// with one clear message; otherwise every unreadable or short record is
/// reported with its line, and the records kept are those with at least
/// three fields, blank records being skipped.
pub fn check_label_records(records: &Vec<LabelRecord>) -> (r: Result<Vec<(usize, Vec<String>)>, LabelError>)
    ensures
        starts_with_matrix_header(records@) ==> match r {
            Err(LabelError::InvalidRowsFormat { invalid_lines }) => invalid_lines@.len() == 1
                && invalid_lines@[0].0 == record_line(records@[0]) && invalid_lines@[0].1@ == matrix_file_message(),
            _ => false,
        },
        !starts_with_matrix_header(records@) ==> if record_problems(records@).len() > 0 {
            match r {
                Err(LabelError::InvalidRowsFormat { invalid_lines }) => invalid_lines@.map_values(
                    |p: (usize, String)| (p.0, p.1@),
                ) == record_problems(records@),
                _ => false,
            }
        } else {
            match r {
                Ok(kept) => kept@.map_values(|k: (usize, Vec<String>)| (k.0, texts_of(k.1@))) == kept_records(records@),
                _ => false,
            }
        },
{
    if records.len() > 0 {
        match &records[0] {
            LabelRecord::Fields { line, fields, blank } => {
                if !*blank && is_matrix_export_header(fields) {
                    let mut lines: Vec<(usize, String)> = Vec::new();
                    proof {
                        reveal_strlit("ce fichier est une matrice de flux exportée (colonnes mac_source, mac_destination…) : importez-le via « Ouvrir un fichier CSV ». Un fichier de labels contient mac, ip, label.");
                    }
                    lines.push((*line, "ce fichier est une matrice de flux exportée (colonnes mac_source, mac_destination…) : importez-le via « Ouvrir un fichier CSV ». Un fichier de labels contient mac, ip, label.".to_owned()));
                    return Err(LabelError::InvalidRowsFormat { invalid_lines: lines });
                }
            },
            _ => {},
        }
    }
    let mut kept: Vec<(usize, Vec<String>)> = Vec::new();
    let mut invalid: Vec<(usize, String)> = Vec::new();
    let mut i: usize = 0;
    assert(kept@.map_values(|k: (usize, Vec<String>)| (k.0, texts_of(k.1@))) =~= Seq::<(usize, Seq<Seq<char>>)>::empty());
    assert(invalid@.map_values(|p: (usize, String)| (p.0, p.1@)) =~= Seq::<(usize, Seq<char>)>::empty());
    while i < records.len()
        invariant
            i <= records@.len(),
            kept@.map_values(|k: (usize, Vec<String>)| (k.0, texts_of(k.1@))) == kept_records(records@.take(i as int)),
            invalid@.map_values(|p: (usize, String)| (p.0, p.1@)) == record_problems(records@.take(i as int)),
        decreases records@.len() - i,
    {
        assert(records@.take(i + 1).drop_last() =~= records@.take(i as int));
        assert(records@.take(i + 1).last() == records@[i as int]);
        match &records[i] {
            LabelRecord::Unreadable { line, message } => {
                invalid.push((*line, message.clone()));
            },
            LabelRecord::Fields { line, fields, blank } => {
                if !*blank {
                    if fields.len() < 3 {
                        let shown = join_names(fields, ',');
                        invalid.push((*line, shown));
                    } else {
                        let mut copy: Vec<String> = Vec::new();
                        let mut k: usize = 0;
                        while k < fields.len()
                            invariant
                                k <= fields@.len(),
                                texts_of(copy@) == texts_of(fields@).take(k as int),
                            decreases fields@.len() - k,
                        {
                            let c = fields[k].clone();
                            let ghost before = copy@;
                            copy.push(c);
                            assert(copy@ == before.push(c));
                            assert(texts_of(copy@) =~= texts_of(before).push(c@));
                            assert(texts_of(fields@).take(k + 1) =~= texts_of(fields@).take(k as int).push(fields@[k as int]@));
                            assert(texts_of(copy@) =~= texts_of(fields@).take(k + 1));
                            k = k + 1;
                        }
                        assert(texts_of(fields@).take(k as int) =~= texts_of(fields@));
                        kept.push((*line, copy));
                    }
                }
            },
        }
        assert(kept@.map_values(|k: (usize, Vec<String>)| (k.0, texts_of(k.1@))) =~= kept_records(records@.take(i + 1)));
        assert(invalid@.map_values(|p: (usize, String)| (p.0, p.1@)) =~= record_problems(records@.take(i + 1)));
        i = i + 1;
    }
    assert(records@.take(i as int) =~= records@);
    if invalid.len() > 0 {
        Err(LabelError::InvalidRowsFormat { invalid_lines: invalid })
    } else {
        Ok(kept)
    }
}


// ---------------------------------------------------------------------------
// Labels written into the matrix, and the arbitration of conflicts
// ---------------------------------------------------------------------------

/// A label write `(mac, ip, label)`, as text.
pub type LabelWrite = (Seq<char>, Seq<char>, Seq<char>);

/// The labels map after the writes `ws`, in order: a later write for a key
/// replaces an earlier one.
pub open spec fn labels_written(
    m: Map<(Seq<char>, Seq<char>), Seq<char>>,
    ws: Seq<LabelWrite>,
) -> Map<(Seq<char>, Seq<char>), Seq<char>>
    decreases ws.len(),
{
    if ws.len() == 0 {
        m
    } else {
        labels_written(m, ws.drop_last()).insert((ws.last().0, ws.last().1), ws.last().2)
    }
}

/// Stored label triples as writes.
pub open spec fn entry_writes(es: Seq<LabelEntry>) -> Seq<LabelWrite> {
    es.map_values(|e: LabelEntry| (e.0@, e.1@, e.2@))
}

/// The user's choices as writes.
pub open spec fn resolution_writes(rs: Seq<LabelResolution>) -> Seq<LabelWrite> {
    rs.map_values(|r: LabelResolution| (r.mac@, r.ip@, r.label@))
}

/// Writes the labels of the store into the matrix, in order; never fails.
pub fn copy_labels_to_matrix(labels: &[LabelEntry], matrix: &mut FlowMatrix) -> (r: Result<(), CaptureStateError>)
    requires
        old(matrix).wf(),
    ensures
        r is Ok,
        final(matrix).wf(),
        final(matrix).labels() == labels_written(old(matrix).labels(), entry_writes(labels@)),
        final(matrix).matrix@ == old(matrix).matrix@,
        final(matrix).origins@ == old(matrix).origins@,
        final(matrix).link_type == old(matrix).link_type,
{
    let ghost start = *matrix;
    let mut i: usize = 0;
    while i < labels.len()
        invariant
            i <= labels@.len(),
            matrix.wf(),
            matrix.labels() == labels_written(start.labels(), entry_writes(labels@.take(i as int))),
            matrix.matrix@ == start.matrix@,
            matrix.origins@ == start.origins@,
            matrix.link_type == start.link_type,
        decreases labels@.len() - i,
    {
        assert(entry_writes(labels@.take(i + 1)).drop_last() =~= entry_writes(labels@.take(i as int)));
        let (mac, ip, label) = &labels[i];
        matrix.add_label(mac.clone(), ip.clone(), label.clone());
        i = i + 1;
    }
    assert(labels@.take(i as int) =~= labels@);
    Ok(())
}

/// After a sequence of label writes, a written key reads the label of its
/// last write, and a key never written keeps its previous label (or its
/// absence).
pub proof fn lemma_last_write_wins(
    m: Map<(Seq<char>, Seq<char>), Seq<char>>,
    ws: Seq<LabelWrite>,
    key: (Seq<char>, Seq<char>),
    j: int,
)
    requires
        0 <= j < ws.len(),
        (ws[j].0, ws[j].1) == key,
        forall|l: int| j < l < ws.len() ==> (#[trigger] ws[l].0, ws[l].1) != key,
    ensures
        labels_written(m, ws).contains_key(key),
        labels_written(m, ws)[key] == ws[j].2,
    decreases ws.len(),
{
    if j < ws.len() - 1 {
        let l = ws.len() - 1;
        assert((ws[l].0, ws[l].1) != key);
        assert forall|x: int| j < x < ws.drop_last().len() implies (#[trigger] ws.drop_last()[x].0, ws.drop_last()[x].1) != key by {
            assert(ws.drop_last()[x] == ws[x]);
        }
        lemma_last_write_wins(m, ws.drop_last(), key, j);
    }
}

/// A key that no write names keeps its label, or its absence.
pub proof fn lemma_unwritten_key_unchanged(
    m: Map<(Seq<char>, Seq<char>), Seq<char>>,
    ws: Seq<LabelWrite>,
    key: (Seq<char>, Seq<char>),
)
    requires
        forall|l: int| 0 <= l < ws.len() ==> (#[trigger] ws[l].0, ws[l].1) != key,
    ensures
        labels_written(m, ws).contains_key(key) == m.contains_key(key),
        m.contains_key(key) ==> labels_written(m, ws)[key] == m[key],
    decreases ws.len(),
{
    if ws.len() > 0 {
        assert forall|l: int| 0 <= l < ws.drop_last().len() implies (#[trigger] ws.drop_last()[l].0, ws.drop_last()[l].1) != key by {
            assert(ws.drop_last()[l] == ws[l]);
        }
        lemma_unwritten_key_unchanged(m, ws.drop_last(), key);
        assert((ws[ws.len() - 1].0, ws[ws.len() - 1].1) != key);
    }
}

/// One of the choices is for key `(mac, ip)`.
pub open spec fn resolves(rs: Seq<LabelResolution>, mac: Seq<char>, ip: Seq<char>) -> bool {
    exists|j: int| 0 <= j < rs.len() && (#[trigger] rs[j]).mac@ == mac && rs[j].ip@ == ip
}

/// The conflicts that no choice settles, in order.
pub open spec fn unresolved(cs: Seq<ConflictSpec>, rs: Seq<LabelResolution>) -> Seq<ConflictSpec>
    decreases cs.len(),
{
    if cs.len() == 0 {
        Seq::empty()
    } else if resolves(rs, cs.last().mac, cs.last().ip) {
        unresolved(cs.drop_last(), rs)
    } else {
        unresolved(cs.drop_last(), rs).push(cs.last())
    }
}

/// Arbitration leaves exactly the conflicts that no choice settles: none of
/// those remaining is settled, and each unsettled one remains.
pub proof fn lemma_arbitration_leaves_unsettled(cs: Seq<ConflictSpec>, rs: Seq<LabelResolution>)
    ensures
        forall|i: int| 0 <= i < unresolved(cs, rs).len() ==> !resolves(rs, (#[trigger] unresolved(cs, rs)[i]).mac, unresolved(cs, rs)[i].ip),
        forall|i: int| 0 <= i < cs.len() && !resolves(rs, (#[trigger] cs[i]).mac, cs[i].ip) ==> unresolved(cs, rs).contains(cs[i]),
    decreases cs.len(),
{
    if cs.len() > 0 {
        let p = cs.drop_last();
        lemma_arbitration_leaves_unsettled(p, rs);
        let u = unresolved(cs, rs);
        let up = unresolved(p, rs);
        assert forall|i: int| 0 <= i < u.len() implies !resolves(rs, (#[trigger] u[i]).mac, u[i].ip) by {
            if i < up.len() {
                assert(u[i] == up[i]);
            }
        }
        assert forall|i: int| 0 <= i < cs.len() && !resolves(rs, (#[trigger] cs[i]).mac, cs[i].ip) implies u.contains(cs[i]) by {
            if i < p.len() {
                assert(p[i] == cs[i]);
                let w = choose|x: int| 0 <= x < up.len() && up[x] == p[i];
                assert(u[w] == up[w]);
            } else {
                assert(u[u.len() - 1] == cs[i]);
            }
        }
    }
}


pub open spec fn conflicts_seq_view(v: Seq<LabelConflictReport>) -> Seq<ConflictSpec> {
    v.map_values(|c: LabelConflictReport| conflict_view(c))
}

fn settles(resolutions: &[LabelResolution], mac: &str, ip: &str) -> (r: bool)
    ensures
        r == resolves(resolutions@, mac@, ip@),
{
    let mut j: usize = 0;
    while j < resolutions.len()
        invariant
            j <= resolutions@.len(),
            forall|k: int| 0 <= k < j ==> !((#[trigger] resolutions@[k]).mac@ == mac@ && resolutions@[k].ip@ == ip@),
        decreases resolutions@.len() - j,
    {
        if str_eq(resolutions[j].mac.as_str(), mac) && str_eq(resolutions[j].ip.as_str(), ip) {
            return true;
        }
        j = j + 1;
    }
    false
}

/// Applies the user's arbitration: each chosen label is written to its key
/// in the matrix, in order, and the conflicts it settles leave the store;
/// the others stay, in order.
pub fn resolve_label_conflicts(resolutions: &[LabelResolution], matrix: &mut FlowMatrix, store: &mut LabelConflictStore)
    requires
        old(matrix).wf(),
    ensures
        final(matrix).wf(),
        final(matrix).labels() == labels_written(old(matrix).labels(), resolution_writes(resolutions@)),
        final(matrix).matrix@ == old(matrix).matrix@,
        final(matrix).origins@ == old(matrix).origins@,
        final(matrix).link_type == old(matrix).link_type,
        conflicts_seq_view(final(store).conflicts@) == unresolved(conflicts_seq_view(old(store).conflicts@), resolutions@),
{
    let ghost start = *matrix;
    let mut i: usize = 0;
    while i < resolutions.len()
        invariant
            i <= resolutions@.len(),
            matrix.wf(),
            matrix.labels() == labels_written(start.labels(), resolution_writes(resolutions@.take(i as int))),
            matrix.matrix@ == start.matrix@,
            matrix.origins@ == start.origins@,
            matrix.link_type == start.link_type,
        decreases resolutions@.len() - i,
    {
        assert(resolution_writes(resolutions@.take(i + 1)).drop_last() =~= resolution_writes(resolutions@.take(i as int)));
        let resolution = &resolutions[i];
        matrix.add_label(resolution.mac.clone(), resolution.ip.clone(), resolution.label.clone());
        i = i + 1;
    }
    assert(resolutions@.take(i as int) =~= resolutions@);

    let mut pending: Vec<LabelConflictReport> = Vec::new();
    std::mem::swap(&mut pending, &mut store.conflicts);
    let ghost all = conflicts_seq_view(pending@);
    let mut kept: Vec<LabelConflictReport> = Vec::new();
    let ghost mut k: int = 0;
    assert(all.take(0) =~= Seq::<ConflictSpec>::empty());
    assert(conflicts_seq_view(kept@) =~= Seq::<ConflictSpec>::empty());
    while pending.len() > 0
        invariant
            0 <= k <= all.len(),
            conflicts_seq_view(pending@) == all.skip(k),
            conflicts_seq_view(kept@) == unresolved(all.take(k), resolutions@),
        decreases pending@.len(),
    {
        let ghost before = pending@;
        assert(conflicts_seq_view(before).len() == before.len());
        assert(k < all.len());
        let conflict = pending.remove(0);
        assert(conflict_view(conflict) == all[k]) by {
            assert(conflicts_seq_view(before)[0] == conflict_view(before[0]));
            assert(all.skip(k)[0] == all[k]);
        }
        assert(conflicts_seq_view(pending@) =~= all.skip(k + 1)) by {
            assert(pending@ == before.remove(0));
            assert forall|j: int| 0 <= j < pending@.len() implies conflicts_seq_view(pending@)[j] == all.skip(k + 1)[j] by {
                assert(pending@[j] == before[j + 1]);
                assert(conflicts_seq_view(before)[j + 1] == conflict_view(before[j + 1]));
                assert(all.skip(k)[j + 1] == all[k + 1 + j]);
            }
        }
        assert(all.take(k + 1).drop_last() =~= all.take(k));
        if !settles(resolutions, conflict.mac.as_str(), conflict.ip.as_str()) {
            let ghost kept_before = kept@;
            kept.push(conflict);
            assert(conflicts_seq_view(kept@) =~= conflicts_seq_view(kept_before).push(all[k]));
        }
        proof {
            k = k + 1;
        }
    }
    assert(k == all.len());
    assert(all.take(k) =~= all);
    store.conflicts = kept;
}

} // verus!
