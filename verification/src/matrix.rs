//! Flow matrix: the central aggregate. Each observed flow accumulates its
//! statistics, split by tunnel (`encap_id`); labels are resolved by the
//! `(mac, ip)` key; rows export to and re-import from CSV without loss.

use vstd::prelude::*;

use crate::text::{
    chars_of, lemma_split_on_nonempty, list_item_ranges, list_items, parse_unsigned,
    parse_unsigned_range, push_char, split_on, split_ranges, starts_with_formula_char, str_eq,
    string_of_range, trim, trim_bounds, trimmed, find_char, first_index, push_hex_fixed,
    push_dec, hex_fixed, dec_digits, string_of, digits_value, all_digits, lemma_hex_fixed_value,
    lemma_dec_digits_value, lemma_pow16_16, parse_unsigned_str, is_unicode_whitespace,
    nonempty_trimmed, trim_start, trim_end, range_holds, lemma_first_index_is,
    lemma_first_index_none, lemma_parse_hex_fixed, lemma_parse_dec, lemma_hex_fixed_chars,
    lemma_dec_digits_chars, lemma_digit_char_not_special, lemma_trim_noop, lemma_split_no_sep,
    lemma_split_append_piece, lemma_nonempty_trimmed_noop, digit_char,
};

verus! {

// ---------------------------------------------------------------------------
// Non-identifying addresses
// ---------------------------------------------------------------------------

/// Whether `ip`, trimmed, is one of the unspecified/broadcast addresses
/// `0.0.0.0`, `::` or `255.255.255.255`.
pub open spec fn placeholder_ip(ip: Seq<char>) -> bool {
    let t = trim(ip);
    t == "0.0.0.0"@ || t == "::"@ || t == "255.255.255.255"@
}

/// True for the "unspecified"/broadcast IPs that designate no particular
/// device: `0.0.0.0`, `::`, `255.255.255.255`. Several machines can share
/// them, so they are never a label key and never raise a conflict.
pub fn is_placeholder_ip(ip: &str) -> (r: bool)
    ensures
        r == placeholder_ip(ip@),
{
    let t = trimmed(ip);
    let t = t.as_str();
    str_eq(t, "0.0.0.0") || str_eq(t, "::") || str_eq(t, "255.255.255.255")
}

/// Whether the first octet of `mac` (text before the first `:`, trimmed)
/// parses as a hexadecimal byte whose low-order bit is set.
pub open spec fn non_unicast_mac(mac: Seq<char>) -> bool {
    match parse_unsigned(trim(split_on(mac, ':')[0]), 16, 255) {
        Some(first) => first % 2 == 1,
        None => false,
    }
}

/// True for a broadcast (`ff:ff:ff:ff:ff:ff`) or multicast MAC: the
/// low-order bit of the first octet is 1 (`01:00:5e:*`, `33:33:*`). Such
/// addresses are not the identity of a device.
pub fn is_non_unicast_mac(mac: &str) -> (r: bool)
    ensures
        r == non_unicast_mac(mac@),
{
    let v = chars_of(mac);
    let pieces = split_ranges(&v, 0, v.len(), ':');
    assert(v@.subrange(0, v@.len() as int) =~= v@);
    proof {
        lemma_split_on_nonempty(v@, ':');
    }
    let (lo, hi) = pieces[0];
    let (a, b) = trim_bounds(&v, lo, hi);
    match parse_unsigned_range(&v, a, b, 16, 255) {
        Some(first) => {
            let byte = first as u8;
            assert(byte & 1 == 1 <==> byte % 2 == 1) by (bit_vector);
            byte & 1 == 1
        },
        None => false,
    }
}

// ---------------------------------------------------------------------------
// Spreadsheet formula escaping
// ---------------------------------------------------------------------------

/// `escape_formula_cell`: a cell starting with `=`, `+`, `-` or `@` gets a
/// leading `'`, any other cell is unchanged.
pub open spec fn escaped_cell(v: Seq<char>) -> Seq<char> {
    if starts_with_formula_char(v) {
        seq!['\''] + v
    } else {
        v
    }
}

/// `unescape_formula_cell`: a leading `'` followed by a formula character
/// is removed, anything else is unchanged.
pub open spec fn unescaped_cell(v: Seq<char>) -> Seq<char> {
    if v.len() > 0 && v[0] == '\'' && starts_with_formula_char(v.drop_first()) {
        v.drop_first()
    } else {
        v
    }
}

/// Prefixes with `'` a cell that starts with a formula character
/// (`=`, `+`, `-`, `@`): opened in a spreadsheet it would otherwise run as
/// code (CSV formula injection). `'` is the spreadsheet convention.
pub fn escape_formula_cell(value: &str) -> (r: String)
    ensures
        r@ == escaped_cell(value@),
{
    let v = chars_of(value);
    if v.len() > 0 && (v[0] == '=' || v[0] == '+' || v[0] == '-' || v[0] == '@') {
        let mut r = String::new();
        push_char(&mut r, '\'');
        r.append(value);
        assert(r@ =~= seq!['\''] + value@);
        r
    } else {
        value.to_owned()
    }
}

/// Inverse of [`escape_formula_cell`]: removes the escaping `'` in front of
/// a formula character. A legitimate `'` (not followed by one) is kept.
pub fn unescape_formula_cell(value: &str) -> (r: String)
    ensures
        r@ == unescaped_cell(value@),
{
    let v = chars_of(value);
    if v.len() > 1 && v[0] == '\'' && (v[1] == '=' || v[1] == '+' || v[1] == '-' || v[1] == '@') {
        let r = string_of_range(&v, 1, v.len());
        assert(v@.subrange(1, v@.len() as int) =~= v@.drop_first());
        r
    } else {
        value.to_owned()
    }
}

/// Escaping then unescaping a cell gives it back, unless the cell itself
/// starts with `'` followed by a formula character (such a cell is left
/// unescaped by the export, and its `'` is removed on re-import).
pub proof fn lemma_formula_cell_roundtrip(v: Seq<char>)
    requires
        !(v.len() > 0 && v[0] == '\'' && starts_with_formula_char(v.drop_first())),
    ensures
        unescaped_cell(escaped_cell(v)) == v,
{
    if starts_with_formula_char(v) {
        assert((seq!['\''] + v).drop_first() =~= v);
    }
}

// ---------------------------------------------------------------------------
// Origins
// ---------------------------------------------------------------------------

/// The file names of an `origin` column: its `|`-separated items, trimmed,
/// empty ones dropped.
pub open spec fn list_items_of(origin: Seq<char>) -> Seq<Seq<char>> {
    list_items(origin, '|')
}

/// Splits an `origin` column value into individual file names (trimmed,
/// empty names ignored). Files are separated by `|`.
pub fn parse_origin_list(origin: &str) -> (r: Vec<String>)
    ensures
        r@.len() == list_items(origin@, '|').len(),
        forall|k: int| 0 <= k < r@.len() ==> #[trigger] r@[k]@ == list_items(origin@, '|')[k],
{
    let v = chars_of(origin);
    let ranges = list_item_ranges(&v, '|');
    let mut r: Vec<String> = Vec::new();
    let mut k: usize = 0;
    while k < ranges.len()
        invariant
            k <= ranges@.len(),
            v@ == origin@,
            ranges@.len() == list_items(v@, '|').len(),
            forall|j: int|
                0 <= j < ranges@.len() ==> #[trigger] range_holds(
                    v@,
                    ranges@[j],
                    list_items(v@, '|')[j],
                ),
            r@.len() == k,
            forall|j: int| 0 <= j < k ==> #[trigger] r@[j]@ == list_items(v@, '|')[j],
        decreases ranges@.len() - k,
    {
        let (lo, hi) = ranges[k];
        assert(range_holds(v@, ranges@[k as int], list_items(v@, '|')[k as int]));
        r.push(string_of_range(&v, lo, hi));
        k = k + 1;
    }
    r
}


// ---------------------------------------------------------------------------
// Time and per-tunnel statistics
// ---------------------------------------------------------------------------

/// A point in time, as seconds and nanoseconds since the Unix epoch.
#[derive(Debug, Clone, Copy, PartialEq, Eq, Structural)]
pub struct Timestamp {
    pub secs: u64,
    pub nanos: u32,
}

impl Timestamp {
    /// The Unix epoch.
    pub fn unix_epoch() -> (r: Timestamp)
        ensures
            r.secs == 0 && r.nanos == 0,
    {
        Timestamp { secs: 0, nanos: 0 }
    }

    /// Whether `self` is strictly later than `other`.
    pub fn is_after(&self, other: &Timestamp) -> (r: bool)
        ensures
            r == (self.secs > other.secs || (self.secs == other.secs && self.nanos
                > other.nanos)),
    {
        self.secs > other.secs || (self.secs == other.secs && self.nanos > other.nanos)
    }
}

/// Statistics of a flow within one tunnel (or outside any tunnel).
#[derive(Debug, Clone, Copy, PartialEq, Eq, Structural)]
pub struct FlowStats {
    /// Packets seen.
    pub count: u64,
    /// Bytes seen.
    pub total_bytes: u64,
    /// Latest time the flow was seen.
    pub last_seen: Timestamp,
}

/// Per-tunnel entry of a flow: `None` for packets seen outside any tunnel.
pub type TunnelEntry = (Option<u64>, FlowStats);

// ---------------------------------------------------------------------------
// The `encap_id` column
// ---------------------------------------------------------------------------

/// `(tunnel id, packet count)` of the entries that are in a tunnel, in order.
pub open spec fn tunnels_of(es: Seq<TunnelEntry>) -> Seq<(u64, u64)>
    decreases es.len(),
{
    if es.len() == 0 {
        Seq::empty()
    } else {
        let init = tunnels_of(es.drop_last());
        match es.last().0 {
            Some(id) => init.push((id, es.last().1.count)),
            None => init,
        }
    }
}

/// `id:n` with the id on 16 lower-case hexadecimal digits.
pub open spec fn tunnel_item_text(t: (u64, u64)) -> Seq<char> {
    hex_fixed(t.0 as nat, 16) + seq![':'] + dec_digits(t.1 as nat)
}

/// Items `id:n` joined by `|`.
pub open spec fn joined_tunnel_items(ts: Seq<(u64, u64)>) -> Seq<char>
    decreases ts.len(),
{
    if ts.len() == 0 {
        Seq::empty()
    } else if ts.len() == 1 {
        tunnel_item_text(ts[0])
    } else {
        joined_tunnel_items(ts.drop_last()) + seq!['|'] + tunnel_item_text(ts.last())
    }
}

/// Text of the `encap_id` column: empty for a flow never seen in a tunnel,
/// the bare id for a flow whose only entry is one tunnel, otherwise the
/// per-tunnel counts `id:n|id:n|...`.
pub open spec fn encap_text(es: Seq<TunnelEntry>) -> Seq<char> {
    let ts = tunnels_of(es);
    if ts.len() == 0 {
        Seq::empty()
    } else if ts.len() == 1 && es.len() == 1 {
        hex_fixed(ts[0].0 as nat, 16)
    } else {
        joined_tunnel_items(ts)
    }
}

fn push_tunnel_item(out: &mut Vec<char>, id: u64, count: u64)
    ensures
        final(out)@ == old(out)@ + tunnel_item_text((id, count)),
{
    push_hex_fixed(out, id, 16);
    out.push(':');
    push_dec(out, count);
    assert(final(out)@ =~= old(out)@ + tunnel_item_text((id, count)));
}

/// Serializes the `encap_id` column of a matrix row: `""` for a flow never
/// seen in a tunnel, `id` when a single tunnel carries all its packets,
/// `id:n|id:n|...` (packets per tunnel) otherwise. Ids are written on 16
/// lower-case hexadecimal digits.
pub fn format_encap_list(entries: &[TunnelEntry]) -> (r: String)
    ensures
        r@ == encap_text(entries@),
{
    let mut ids: Vec<(u64, u64)> = Vec::new();
    let mut i: usize = 0;
    while i < entries.len()
        invariant
            i <= entries@.len(),
            ids@ == tunnels_of(entries@.take(i as int)),
        decreases entries@.len() - i,
    {
        assert(entries@.take(i + 1).drop_last() =~= entries@.take(i as int));
        let (id, stats) = entries[i];
        match id {
            Some(id) => ids.push((id, stats.count)),
            None => {},
        }
        i = i + 1;
    }
    assert(entries@.take(i as int) =~= entries@);
    let mut out: Vec<char> = Vec::new();
    if ids.len() == 0 {
    } else if ids.len() == 1 && entries.len() == 1 {
        push_hex_fixed(&mut out, ids[0].0, 16);
        assert(out@ =~= hex_fixed(ids@[0].0 as nat, 16));
    } else {
        let mut k: usize = 0;
        while k < ids.len()
            invariant
                k <= ids@.len(),
                out@ == joined_tunnel_items(ids@.take(k as int)),
            decreases ids@.len() - k,
        {
            let ghost prev = ids@.take(k as int);
            assert(ids@.take(k + 1).drop_last() =~= prev);
            if k > 0 {
                out.push('|');
            } else {
                assert(out@ =~= Seq::<char>::empty());
            }
            push_tunnel_item(&mut out, ids[k].0, ids[k].1);
            k = k + 1;
            if k == 1 {
                assert(out@ =~= tunnel_item_text(ids@.take(1)[0]));
            } else {
                assert(out@ =~= joined_tunnel_items(ids@.take(k - 1)) + seq!['|'] + tunnel_item_text(
                    ids@.take(k as int).last(),
                ));
            }
        }
        assert(ids@.take(k as int) =~= ids@);
    }
    string_of(&out)
}


/// One item of the `encap_id` column: `id` (the tunnel carries all `count`
/// packets of the row) or `id:n`; the id is hexadecimal, an unreadable `n`
/// counts as 0, an unreadable id drops the item.
pub open spec fn encap_item(e: Seq<char>, count: u64) -> Option<(u64, u64)> {
    let (id, n) = match first_index(e, ':') {
        Some(k) => (
            e.subrange(0, k),
            match parse_unsigned(trim(e.subrange(k + 1, e.len() as int)), 10, u64::MAX as nat) {
                Some(n) => n,
                None => 0,
            },
        ),
        None => (e, count as nat),
    };
    match parse_unsigned(trim(id), 16, u64::MAX as nat) {
        Some(v) => Some((v as u64, n as u64)),
        None => None,
    }
}

/// The `(id, count)` pairs read from the items of an `encap_id` column.
pub open spec fn encap_tunnels(items: Seq<Seq<char>>, count: u64) -> Seq<(u64, u64)>
    decreases items.len(),
{
    if items.len() == 0 {
        Seq::empty()
    } else {
        let init = encap_tunnels(items.drop_last(), count);
        match encap_item(items.last(), count) {
            Some(t) => init.push(t),
            None => init,
        }
    }
}

/// Sum of the packet counts of `(id, count)` pairs.
pub open spec fn tunnel_total(ts: Seq<(u64, u64)>) -> nat
    decreases ts.len(),
{
    if ts.len() == 0 {
        0
    } else {
        tunnel_total(ts.drop_last()) + ts.last().1 as nat
    }
}

/// Packets attributed to tunnels by an `encap_id` column.
pub open spec fn encap_in_tunnels(encap: Seq<char>, count: u64) -> nat {
    tunnel_total(encap_tunnels(list_items(encap, '|'), count))
}

/// `(tunnel, packets)` parts of a row: the tunnels read from the column, and
/// the packets not covered by them (or all packets when no tunnel is read)
/// on an entry outside any tunnel.
pub open spec fn encap_counts(encap: Seq<char>, count: u64) -> Seq<(Option<u64>, u64)> {
    let ts = encap_tunnels(list_items(encap, '|'), count);
    let inside = tunnel_total(ts);
    let base = Seq::new(ts.len(), |i: int| (Some(ts[i].0), ts[i].1));
    if ts.len() == 0 || inside < count {
        base.push((None, (count - inside) as u64))
    } else {
        base
    }
}

/// The entries `parse_encap_list` rebuilds: the bytes are all carried by
/// the first entry, every entry is last seen at `last_seen`.
pub open spec fn encap_entries(encap: Seq<char>, count: u64, total_bytes: u64, last_seen: Timestamp)
    -> Seq<TunnelEntry> {
    let cs = encap_counts(encap, count);
    Seq::new(
        cs.len(),
        |i: int|
            (
                cs[i].0,
                FlowStats {
                    count: cs[i].1,
                    total_bytes: if i == 0 {
                        total_bytes
                    } else {
                        0
                    },
                    last_seen,
                },
            ),
    )
}

/// The item `v[lo..hi]` of an `encap_id` column, read.
fn encap_item_at(v: &Vec<char>, lo: usize, hi: usize, count: u64) -> (r: Option<(u64, u64)>)
    requires
        lo <= hi <= v@.len(),
    ensures
        r == encap_item(v@.subrange(lo as int, hi as int), count),
{
    let ghost e = v@.subrange(lo as int, hi as int);
    let (id_lo, id_hi, n) = match find_char(v, lo, hi, ':') {
        Some(c) => {
            let ghost kk: int = c - lo;
            assert(e.subrange(0, kk) =~= v@.subrange(lo as int, c as int));
            assert(e.subrange(kk + 1, e.len() as int) =~= v@.subrange(c + 1, hi as int));
            let (a, b) = trim_bounds(v, c + 1, hi);
            let n = match parse_unsigned_range(v, a, b, 10, u64::MAX) {
                Some(n) => n,
                None => 0,
            };
            (lo, c, n)
        },
        None => (lo, hi, count),
    };
    let (a, b) = trim_bounds(v, id_lo, id_hi);
    match parse_unsigned_range(v, a, b, 16, u64::MAX) {
        Some(id) => Some((id, n)),
        None => None,
    }
}

/// The tunnel pairs of the `encap_id` column `v`.
fn encap_tunnel_pairs(v: &Vec<char>, count: u64) -> (r: Vec<(u64, u64)>)
    ensures
        r@ == encap_tunnels(list_items(v@, '|'), count),
{
    let ranges = list_item_ranges(v, '|');
    let ghost items = list_items(v@, '|');
    let mut r: Vec<(u64, u64)> = Vec::new();
    let mut k: usize = 0;
    while k < ranges.len()
        invariant
            k <= ranges@.len(),
            items == list_items(v@, '|'),
            ranges@.len() == items.len(),
            forall|j: int| 0 <= j < ranges@.len() ==> #[trigger] range_holds(v@, ranges@[j], items[j]),
            r@ == encap_tunnels(items.take(k as int), count),
        decreases ranges@.len() - k,
    {
        let (lo, hi) = ranges[k];
        assert(range_holds(v@, ranges@[k as int], items[k as int]));
        let ghost e = v@.subrange(lo as int, hi as int);
        assert(items.take(k + 1).drop_last() =~= items.take(k as int));
        assert(items.take(k + 1).last() == e);
        let ghost prev = encap_tunnels(items.take(k as int), count);
        match encap_item_at(v, lo, hi, count) {
            Some(t) => {
                r.push(t);
                assert(r@ == prev.push(t));
            },
            None => {},
        }
        k = k + 1;
    }
    assert(items.take(k as int) =~= items);
    r
}

/// Whether the packet counts of an `encap_id` column add up without
/// exceeding `u64::MAX` (a precondition of [`parse_encap_list`]).
pub fn encap_counts_fit(encap: &str, count: u64) -> (r: bool)
    ensures
        r == (encap_in_tunnels(encap@, count) <= u64::MAX),
{
    let v = chars_of(encap);
    let pairs = encap_tunnel_pairs(&v, count);
    let mut total: u64 = 0;
    let mut i: usize = 0;
    while i < pairs.len()
        invariant
            i <= pairs@.len(),
            pairs@ == encap_tunnels(list_items(v@, '|'), count),
            v@ == encap@,
            total == tunnel_total(pairs@.take(i as int)),
        decreases pairs@.len() - i,
    {
        assert(pairs@.take(i + 1).drop_last() =~= pairs@.take(i as int));
        assert(pairs@.take(i + 1).last() == pairs@[i as int]);
        assert(tunnel_total(pairs@.take(i + 1)) == tunnel_total(pairs@.take(i as int))
            + pairs@[i as int].1);
        match total.checked_add(pairs[i].1) {
            Some(t) => total = t,
            None => {
                proof {
                    lemma_tunnel_total_prefix(pairs@, i + 1);
                }
                return false;
            },
        }
        i = i + 1;
    }
    assert(pairs@.take(i as int) =~= pairs@);
    true
}

proof fn lemma_tunnel_total_prefix(ts: Seq<(u64, u64)>, k: int)
    requires
        0 <= k <= ts.len(),
    ensures
        tunnel_total(ts.take(k)) <= tunnel_total(ts),
    decreases ts.len(),
{
    if k < ts.len() {
        lemma_tunnel_total_prefix(ts.drop_last(), k);
        assert(ts.drop_last().take(k) =~= ts.take(k));
    } else {
        assert(ts.take(k) =~= ts);
    }
}

/// Inverse of [`format_encap_list`]: spreads the packet count of a CSV row
/// over its tunnels. Packets not covered by the list (the part outside any
/// tunnel) go to a `None` entry. Bytes are not split by tunnel in the CSV:
/// the first entry carries them all.
pub fn parse_encap_list(encap: &str, count: u64, total_bytes: u64, last_seen: Timestamp) -> (r:
    Vec<TunnelEntry>)
    requires
        encap_in_tunnels(encap@, count) <= u64::MAX,
    ensures
        r@ == encap_entries(encap@, count, total_bytes, last_seen),
{
    let v = chars_of(encap);
    let pairs = encap_tunnel_pairs(&v, count);
    let mut inside: u64 = 0;
    let mut i: usize = 0;
    while i < pairs.len()
        invariant
            i <= pairs@.len(),
            pairs@ == encap_tunnels(list_items(v@, '|'), count),
            v@ == encap@,
            tunnel_total(pairs@) <= u64::MAX,
            inside == tunnel_total(pairs@.take(i as int)),
        decreases pairs@.len() - i,
    {
        assert(pairs@.take(i + 1).drop_last() =~= pairs@.take(i as int));
        proof {
            lemma_tunnel_total_prefix(pairs@, i + 1);
        }
        inside = inside + pairs[i].1;
        i = i + 1;
    }
    assert(pairs@.take(i as int) =~= pairs@);
    let mut counts: Vec<(Option<u64>, u64)> = Vec::new();
    let mut k: usize = 0;
    while k < pairs.len()
        invariant
            k <= pairs@.len(),
            counts@ =~= Seq::new(k as nat, |j: int| (Some(pairs@[j].0), pairs@[j].1)),
        decreases pairs@.len() - k,
    {
        counts.push((Some(pairs[k].0), pairs[k].1));
        k = k + 1;
    }
    if pairs.len() == 0 || inside < count {
        counts.push((None, count - inside));
    }
    assert(counts@ =~= encap_counts(encap@, count));
    let mut r: Vec<TunnelEntry> = Vec::new();
    let mut j: usize = 0;
    while j < counts.len()
        invariant
            j <= counts@.len(),
            counts@ == encap_counts(encap@, count),
            r@ =~= encap_entries(encap@, count, total_bytes, last_seen).take(j as int),
        decreases counts@.len() - j,
    {
        let stats = FlowStats {
            count: counts[j].1,
            total_bytes: if j == 0 {
                total_bytes
            } else {
                0
            },
            last_seen,
        };
        r.push((counts[j].0, stats));
        j = j + 1;
    }
    assert(encap_entries(encap@, count, total_bytes, last_seen).take(j as int) =~= encap_entries(
        encap@,
        count,
        total_bytes,
        last_seen,
    ));
    r
}


// ---------------------------------------------------------------------------
// Laws of the `encap_id` column
// ---------------------------------------------------------------------------

/// Packets of all entries.
pub open spec fn entries_count(es: Seq<TunnelEntry>) -> nat
    decreases es.len(),
{
    if es.len() == 0 {
        0
    } else {
        entries_count(es.drop_last()) + es.last().1.count as nat
    }
}

/// Bytes of all entries.
pub open spec fn entries_bytes(es: Seq<TunnelEntry>) -> nat
    decreases es.len(),
{
    if es.len() == 0 {
        0
    } else {
        entries_bytes(es.drop_last()) + es.last().1.total_bytes as nat
    }
}

/// Packets of the entries outside any tunnel.
pub open spec fn untunneled_count(es: Seq<TunnelEntry>) -> nat
    decreases es.len(),
{
    if es.len() == 0 {
        0
    } else {
        untunneled_count(es.drop_last()) + if es.last().0 is None {
            es.last().1.count as nat
        } else {
            0
        }
    }
}

proof fn lemma_entries_count_split(es: Seq<TunnelEntry>)
    ensures
        entries_count(es) == tunnel_total(tunnels_of(es)) + untunneled_count(es),
        tunnels_of(es).len() <= es.len(),
        tunnels_of(es).len() < es.len() ==> exists|i: int| 0 <= i < es.len() && (#[trigger] es[i]).0 is None,
    decreases es.len(),
{
    if es.len() > 0 {
        let init = es.drop_last();
        lemma_entries_count_split(init);
        if tunnels_of(init).len() < init.len() {
            let i = choose|i: int| 0 <= i < init.len() && (#[trigger] init[i]).0 is None;
            assert(es[i] == init[i]);
        }
        if es.last().0 is None {
            assert(es[es.len() - 1].0 is None);
        } else {
            let t = tunnels_of(init);
            assert(t.push((es.last().0->0, es.last().1.count)).drop_last() =~= t);
        }
    }
}

proof fn lemma_untunneled_positive(es: Seq<TunnelEntry>)
    requires
        forall|i: int| 0 <= i < es.len() && (#[trigger] es[i]).0 is None ==> es[i].1.count > 0,
        exists|i: int| 0 <= i < es.len() && (#[trigger] es[i]).0 is None,
    ensures
        untunneled_count(es) > 0,
    decreases es.len(),
{
    let init = es.drop_last();
    if es.last().0 is None {
        assert(es[es.len() - 1].0 is None);
    } else {
        let i = choose|i: int| 0 <= i < es.len() && (#[trigger] es[i]).0 is None;
        assert(i < es.len() - 1);
        assert(init[i] == es[i]);
        assert forall|j: int| 0 <= j < init.len() && (#[trigger] init[j]).0 is None implies init[j].1.count > 0 by {
            assert(init[j] == es[j]);
        }
        lemma_untunneled_positive(init);
    }
}

proof fn lemma_tunnel_item_facts(t: (u64, u64))
    ensures
        tunnel_item_text(t).len() > 0,
        trim(tunnel_item_text(t)) == tunnel_item_text(t),
        !tunnel_item_text(t).contains('|'),
        encap_item(tunnel_item_text(t), 0) == Some(t),
        forall|count: u64| #[trigger] encap_item(tunnel_item_text(t), count) == Some(t),
{
    let h = hex_fixed(t.0 as nat, 16);
    let d = dec_digits(t.1 as nat);
    let item = tunnel_item_text(t);
    lemma_hex_fixed_chars(t.0 as nat, 16);
    lemma_dec_digits_chars(t.1 as nat);
    assert forall|i: int| 0 <= i < item.len() implies item[i] != '|' && (i != 16 ==> item[i] != ':') by {
        if i < 16 {
            assert(item[i] == h[i]);
            let dd = choose|dd: nat| dd < 16 && #[trigger] h[i] == digit_char(dd);
            lemma_digit_char_not_special(dd);
        } else if i > 16 {
            assert(item[i] == d[i - 17]);
            let dd = choose|dd: nat| dd < 10 && #[trigger] d[i - 17] == digit_char(dd);
            lemma_digit_char_not_special(dd);
        }
    }
    let d0 = choose|dd: nat| dd < 16 && #[trigger] h[0] == digit_char(dd);
    lemma_digit_char_not_special(d0);
    let dl = choose|dd: nat| dd < 10 && #[trigger] d[d.len() - 1] == digit_char(dd);
    lemma_digit_char_not_special(dl);
    assert(item[0] == h[0]);
    assert(item.last() == d[d.len() - 1]);
    lemma_trim_noop(item);
    lemma_first_index_is(item, ':', 16);
    assert(item.subrange(0, 16) =~= h);
    assert(item.subrange(17, item.len() as int) =~= d);
    lemma_trim_noop(h);
    assert(h.last() == h[15]);
    let d15 = choose|dd: nat| dd < 16 && #[trigger] h[15] == digit_char(dd);
    lemma_digit_char_not_special(d15);
    lemma_trim_noop(d);
    assert(d[0] == d[0]);
    let dz = choose|dd: nat| dd < 10 && #[trigger] d[0] == digit_char(dd);
    lemma_digit_char_not_special(dz);
    lemma_parse_hex_fixed(t.0);
    lemma_parse_dec(t.1);
}

proof fn lemma_bare_item_facts(id: u64, count: u64)
    ensures
        hex_fixed(id as nat, 16).len() > 0,
        trim(hex_fixed(id as nat, 16)) == hex_fixed(id as nat, 16),
        !hex_fixed(id as nat, 16).contains('|'),
        encap_item(hex_fixed(id as nat, 16), count) == Some((id, count)),
{
    let h = hex_fixed(id as nat, 16);
    lemma_hex_fixed_chars(id as nat, 16);
    assert forall|i: int| 0 <= i < h.len() implies h[i] != '|' && h[i] != ':' by {
        let dd = choose|dd: nat| dd < 16 && #[trigger] h[i] == digit_char(dd);
        lemma_digit_char_not_special(dd);
    }
    let d0 = choose|dd: nat| dd < 16 && #[trigger] h[0] == digit_char(dd);
    lemma_digit_char_not_special(d0);
    let d15 = choose|dd: nat| dd < 16 && #[trigger] h[15] == digit_char(dd);
    lemma_digit_char_not_special(d15);
    lemma_trim_noop(h);
    lemma_first_index_none(h, ':');
    lemma_parse_hex_fixed(id);
}

/// The items text of the joined tunnel items.
pub open spec fn tunnel_item_texts(ts: Seq<(u64, u64)>) -> Seq<Seq<char>> {
    Seq::new(ts.len(), |i: int| tunnel_item_text(ts[i]))
}

proof fn lemma_split_joined(ts: Seq<(u64, u64)>)
    requires
        ts.len() >= 1,
    ensures
        split_on(joined_tunnel_items(ts), '|') == tunnel_item_texts(ts),
    decreases ts.len(),
{
    lemma_tunnel_item_facts(ts.last());
    if ts.len() == 1 {
        lemma_split_no_sep(tunnel_item_text(ts[0]), '|');
        assert(tunnel_item_texts(ts) =~= seq![tunnel_item_text(ts[0])]);
    } else {
        lemma_split_joined(ts.drop_last());
        lemma_split_append_piece(joined_tunnel_items(ts.drop_last()), tunnel_item_text(ts.last()), '|');
        assert(tunnel_item_texts(ts.drop_last()).push(tunnel_item_text(ts.last())) =~= tunnel_item_texts(ts));
    }
}

proof fn lemma_list_items_joined(ts: Seq<(u64, u64)>)
    requires
        ts.len() >= 1,
    ensures
        list_items(joined_tunnel_items(ts), '|') == tunnel_item_texts(ts),
{
    lemma_split_joined(ts);
    let items = tunnel_item_texts(ts);
    assert forall|i: int| 0 <= i < items.len() implies #[trigger] trim(items[i]) == items[i] && items[i].len() > 0 by {
        lemma_tunnel_item_facts(ts[i]);
    }
    lemma_nonempty_trimmed_noop(items);
}

proof fn lemma_encap_tunnels_items(ts: Seq<(u64, u64)>, count: u64)
    ensures
        encap_tunnels(tunnel_item_texts(ts), count) == ts,
    decreases ts.len(),
{
    if ts.len() > 0 {
        lemma_encap_tunnels_items(ts.drop_last(), count);
        assert(tunnel_item_texts(ts).drop_last() =~= tunnel_item_texts(ts.drop_last()));
        lemma_tunnel_item_facts(ts.last());
        assert(encap_item(tunnel_item_text(ts.last()), count) == Some(ts.last()));
        assert(ts.drop_last().push(ts.last()) =~= ts);
    }
}

proof fn lemma_tunnels_of_rebuilt(encap: Seq<char>, count: u64, total_bytes: u64, last_seen: Timestamp)
    ensures
        tunnels_of(encap_entries(encap, count, total_bytes, last_seen)) == encap_tunnels(
            list_items(encap, '|'),
            count,
        ),
        encap_entries(encap, count, total_bytes, last_seen).len() == encap_counts(encap, count).len(),
{
    let ts = encap_tunnels(list_items(encap, '|'), count);
    let es = encap_entries(encap, count, total_bytes, last_seen);
    let cs = encap_counts(encap, count);
    assert forall|i: int| 0 <= i < ts.len() implies (#[trigger] es[i]).0 == Some(ts[i].0)
        && es[i].1.count == ts[i].1 by {
        assert(cs[i] == (Some(ts[i].0), ts[i].1));
    }
    lemma_tunnels_of_prefix(es, ts, ts.len() as int);
    assert(ts.take(ts.len() as int) =~= ts);
    if es.len() > ts.len() {
        assert(es.drop_last() =~= es.take(ts.len() as int));
        assert(cs.last().0 is None);
        assert(es.last().0 is None);
    } else {
        assert(es.take(ts.len() as int) =~= es);
    }
}

proof fn lemma_tunnels_of_prefix(es: Seq<TunnelEntry>, ts: Seq<(u64, u64)>, k: int)
    requires
        0 <= k <= ts.len() <= es.len(),
        forall|i: int| 0 <= i < ts.len() ==> (#[trigger] es[i]).0 == Some(ts[i].0) && es[i].1.count == ts[i].1,
    ensures
        tunnels_of(es.take(k)) == ts.take(k),
    decreases k,
{
    if k > 0 {
        lemma_tunnels_of_prefix(es, ts, k - 1);
        assert(es.take(k).drop_last() =~= es.take(k - 1));
        assert(ts.take(k - 1).push(ts[k - 1]) =~= ts.take(k));
        assert(es[k - 1].0 == Some(ts[k - 1].0));
    } else {
        assert(es.take(0) =~= Seq::<TunnelEntry>::empty());
        assert(ts.take(0) =~= Seq::<(u64, u64)>::empty());
    }
}

/// Exporting the tunnel entries of a flow to the `encap_id` column and
/// reading that column back with the flow's total packet count gives the
/// same column: the export/re-import of a matrix keeps the per-tunnel
/// counts. This holds whenever every entry outside a tunnel carries at
/// least one packet (as every entry built from captured packets does) and
/// the counts add up within `u64`.
pub proof fn lemma_encap_roundtrip(es: Seq<TunnelEntry>, total_bytes: u64, last_seen: Timestamp)
    requires
        entries_count(es) <= u64::MAX,
        forall|i: int| 0 <= i < es.len() && (#[trigger] es[i]).0 is None ==> es[i].1.count > 0,
    ensures
        ({
            let text = encap_text(es);
            let count = entries_count(es) as u64;
            &&& encap_in_tunnels(text, count) <= u64::MAX
            &&& encap_text(encap_entries(text, count, total_bytes, last_seen)) == text
            &&& encap_tunnels(list_items(text, '|'), count) == tunnels_of(es)
        }),
{
    let ts = tunnels_of(es);
    let text = encap_text(es);
    let count = entries_count(es) as u64;
    lemma_entries_count_split(es);
    lemma_tunnels_of_rebuilt(text, count, total_bytes, last_seen);
    if ts.len() == 0 {
        assert(text =~= Seq::<char>::empty());
        lemma_split_no_sep(text, '|');
        let e = Seq::<char>::empty();
        assert(trim_start(e) == e);
        assert(trim_end(e) == e);
        assert(trim(e) == e);
        assert(split_on(text, '|') =~= seq![e]);
        assert(seq![e].drop_last() =~= Seq::<Seq<char>>::empty());
        assert(seq![e].last() == e);
        assert(nonempty_trimmed(Seq::<Seq<char>>::empty()) =~= Seq::<Seq<char>>::empty());
        assert(nonempty_trimmed(seq![e]) =~= Seq::<Seq<char>>::empty());
        assert(list_items(text, '|') =~= Seq::<Seq<char>>::empty());
    } else if ts.len() == 1 && es.len() == 1 {
        lemma_bare_item_facts(ts[0].0, count);
        let h = hex_fixed(ts[0].0 as nat, 16);
        lemma_split_no_sep(h, '|');
        assert(list_items(h, '|') == seq![h]) by {
            lemma_nonempty_trimmed_noop(seq![h]);
        }
        assert(text == h);
        assert(seq![h].drop_last() =~= Seq::<Seq<char>>::empty());
        assert(seq![h].last() == h);
        assert(encap_tunnels(Seq::<Seq<char>>::empty(), count) =~= Seq::<(u64, u64)>::empty());
        assert(encap_tunnels(seq![h], count) =~= seq![(ts[0].0, count)]);
        assert(encap_tunnels(list_items(text, '|'), count) =~= seq![(ts[0].0, count)]);
        assert(es.drop_last() =~= Seq::<TunnelEntry>::empty());
        assert(es.last() == es[0]);
        assert(tunnels_of(es.drop_last()) =~= Seq::<(u64, u64)>::empty());
        assert(ts =~= seq![(es[0].0->0, es[0].1.count)]);
        assert(entries_count(Seq::<TunnelEntry>::empty()) == 0);
        assert(entries_count(es) == es[0].1.count);
        assert(count == ts[0].1);
        let rebuilt = encap_entries(text, count, total_bytes, last_seen);
        assert(encap_counts(text, count).len() == 1);
        assert(rebuilt.len() == 1);
    } else {
        lemma_list_items_joined(ts);
        lemma_encap_tunnels_items(ts, count);
        let parsed = encap_tunnels(list_items(text, '|'), count);
        assert(parsed == ts);
        if ts.len() == 1 {
            lemma_untunneled_positive(es);
            let rebuilt = encap_entries(text, count, total_bytes, last_seen);
            assert(encap_counts(text, count).len() == 2);
        }
    }
}


proof fn lemma_entries_count_bytes_prefix(es: Seq<TunnelEntry>, cs: Seq<(Option<u64>, u64)>, b: u64, k: int)
    requires
        0 <= k <= es.len(),
        es.len() == cs.len(),
        forall|i: int| 0 <= i < es.len() ==> (#[trigger] es[i]).1.count == cs[i].1
            && es[i].1.total_bytes == (if i == 0 { b } else { 0 }),
    ensures
        entries_count(es.take(k)) == counts_total(cs.take(k)),
        entries_bytes(es.take(k)) == (if k == 0 { 0 } else { b as nat }),
    decreases k,
{
    if k > 0 {
        lemma_entries_count_bytes_prefix(es, cs, b, k - 1);
        assert(es.take(k).drop_last() =~= es.take(k - 1));
        assert(cs.take(k).drop_last() =~= cs.take(k - 1));
        assert(es.take(k).last() == es[k - 1]);
    }
}

/// Sum of the packet counts of `(tunnel, packets)` parts.
pub open spec fn counts_total(cs: Seq<(Option<u64>, u64)>) -> nat
    decreases cs.len(),
{
    if cs.len() == 0 {
        0
    } else {
        counts_total(cs.drop_last()) + cs.last().1 as nat
    }
}

proof fn lemma_counts_total_base(ts: Seq<(u64, u64)>, k: int)
    requires
        0 <= k <= ts.len(),
    ensures
        counts_total(Seq::new(ts.len(), |i: int| (Some(ts[i].0), ts[i].1)).take(k)) == tunnel_total(
            ts.take(k),
        ),
    decreases k,
{
    if k > 0 {
        lemma_counts_total_base(ts, k - 1);
        let base = Seq::new(ts.len(), |i: int| (Some(ts[i].0), ts[i].1));
        assert(base.take(k).drop_last() =~= base.take(k - 1));
        assert(ts.take(k).drop_last() =~= ts.take(k - 1));
    }
}

/// Reading an `encap_id` column never loses packets nor bytes: the rebuilt
/// entries carry all `total_bytes` bytes, and `count` packets, or more when
/// the column itself attributes more packets to tunnels than the row
/// counts. There is always at least one entry.
pub proof fn lemma_encap_entries_totals(encap: Seq<char>, count: u64, total_bytes: u64, last_seen: Timestamp)
    ensures
        ({
            let es = encap_entries(encap, count, total_bytes, last_seen);
            let inside = encap_in_tunnels(encap, count);
            &&& es.len() >= 1
            &&& entries_bytes(es) == total_bytes
            &&& entries_count(es) == if inside < count { count as nat } else { inside }
        }),
{
    let es = encap_entries(encap, count, total_bytes, last_seen);
    let cs = encap_counts(encap, count);
    let ts = encap_tunnels(list_items(encap, '|'), count);
    let base = Seq::new(ts.len(), |i: int| (Some(ts[i].0), ts[i].1));
    lemma_entries_count_bytes_prefix(es, cs, total_bytes, es.len() as int);
    assert(es.take(es.len() as int) =~= es);
    assert(cs.take(cs.len() as int) =~= cs);
    lemma_counts_total_base(ts, ts.len() as int);
    assert(base.take(ts.len() as int) =~= base);
    assert(ts.take(ts.len() as int) =~= ts);
    if ts.len() == 0 || tunnel_total(ts) < count {
        assert(cs.drop_last() =~= base);
    } else {
        assert(cs =~= base);
    }
}

/// Every tunnel of `tunnels_of(es)` is the tunnel of an entry of `es`, and
/// entries for distinct tunnels give distinct tunnels.
proof fn lemma_tunnels_of_ids(es: Seq<TunnelEntry>)
    ensures
        forall|a: int| #![trigger tunnels_of(es)[a]] 0 <= a < tunnels_of(es).len() ==> exists|j: int| 0 <= j < es.len() && (#[trigger] es[j]).0 == Some(tunnels_of(es)[a].0),
        (forall|i: int, j: int| 0 <= i < j < es.len() ==> (#[trigger] es[i]).0 != (#[trigger] es[j]).0) ==> forall|a: int, b: int|
            0 <= a < b < tunnels_of(es).len() ==> (#[trigger] tunnels_of(es)[a]).0 != (#[trigger] tunnels_of(es)[b]).0,
    decreases es.len(),
{
    if es.len() > 0 {
        let init = es.drop_last();
        lemma_tunnels_of_ids(init);
        let ti = tunnels_of(init);
        let t = tunnels_of(es);
        assert forall|a: int| #![trigger t[a]] 0 <= a < t.len() implies exists|j: int| 0 <= j < es.len() && (#[trigger] es[j]).0 == Some(t[a].0) by {
            if a < ti.len() {
                assert(t[a] == ti[a]);
                let j = choose|j: int| 0 <= j < init.len() && (#[trigger] init[j]).0 == Some(ti[a].0);
                assert(es[j] == init[j]);
            } else {
                assert(es[es.len() - 1].0 == Some(t[a].0));
            }
        }
        if forall|i: int, j: int| 0 <= i < j < es.len() ==> (#[trigger] es[i]).0 != (#[trigger] es[j]).0 {
            assert forall|i: int, j: int| 0 <= i < j < init.len() implies (#[trigger] init[i]).0 != (#[trigger] init[j]).0 by {
                assert(init[i] == es[i] && init[j] == es[j]);
            }
            assert forall|a: int, b: int| 0 <= a < b < t.len() implies (#[trigger] t[a]).0 != (#[trigger] t[b]).0 by {
                assert(t[a] == ti[a]);
                if b < ti.len() {
                    assert(t[b] == ti[b]);
                } else {
                    let j = choose|j: int| 0 <= j < init.len() && (#[trigger] init[j]).0 == Some(ti[a].0);
                    assert(es[j] == init[j]);
                    assert(es[es.len() - 1].0 == Some(t[b].0));
                }
            }
        }
    }
}

/// What a re-import reads back of the `encap_id` column of a flow, with
/// the flow's packet count and byte total: the same column, the same
/// packets, all the bytes, at least one entry, and entries for distinct
/// tunnels when the flow's entries were.
pub proof fn lemma_encap_reads_back(es: Seq<TunnelEntry>, total_bytes: u64, last_seen: Timestamp)
    requires
        entries_count(es) <= u64::MAX,
        forall|i: int| 0 <= i < es.len() && (#[trigger] es[i]).0 is None ==> es[i].1.count > 0,
    ensures
        ({
            let text = encap_text(es);
            let count = entries_count(es) as u64;
            let rebuilt = encap_entries(text, count, total_bytes, last_seen);
            &&& encap_in_tunnels(text, count) <= u64::MAX
            &&& encap_text(rebuilt) == text
            &&& entries_count(rebuilt) == entries_count(es)
            &&& entries_bytes(rebuilt) == total_bytes
            &&& rebuilt.len() >= 1
            &&& (forall|i: int, j: int| 0 <= i < j < es.len() ==> (#[trigger] es[i]).0 != (#[trigger] es[j]).0) ==> forall|i: int, j: int|
                0 <= i < j < rebuilt.len() ==> (#[trigger] rebuilt[i]).0 != (#[trigger] rebuilt[j]).0
        }),
{
    let text = encap_text(es);
    let count = entries_count(es) as u64;
    let rebuilt = encap_entries(text, count, total_bytes, last_seen);
    lemma_encap_roundtrip(es, total_bytes, last_seen);
    lemma_encap_entries_totals(text, count, total_bytes, last_seen);
    lemma_entries_count_split(es);
    lemma_tunnels_of_ids(es);
    let ts = encap_tunnels(list_items(text, '|'), count);
    assert(ts == tunnels_of(es));
    let cs = encap_counts(text, count);
    if forall|i: int, j: int| 0 <= i < j < es.len() ==> (#[trigger] es[i]).0 != (#[trigger] es[j]).0 {
        assert forall|i: int, j: int| 0 <= i < j < rebuilt.len() implies (#[trigger] rebuilt[i]).0 != (#[trigger] rebuilt[j]).0 by {
            assert(rebuilt[i].0 == cs[i].0);
            assert(rebuilt[j].0 == cs[j].0);
            assert(cs[i] == (Some(ts[i].0), ts[i].1));
            if j < ts.len() {
                assert(cs[j] == (Some(ts[j].0), ts[j].1));
            } else {
                assert(cs[j].0 is None);
            }
        }
    }
}

} // verus!
