//! The flat rows of an exported matrix: one row per flow, its tunnels
//! folded into the `encap_id` column, its files of origin joined in the
//! `origin` column, its labels resolved and escaped; rows sorted by a stable
//! key so that two exports of one state are identical.

use vstd::prelude::*;
use vstd::multiset::Multiset;

use crate::endpoints::{destination_ip_text, source_ip_text, text_or_empty};
use crate::flow_matrix::{FlowKey, FlowKeySpec, FlowMatrix, find_flow, keyed_lookup, lemma_keyed_lookup_at, opt_text, resolve_label};
use crate::matrix::{
    FlowStats, Timestamp, TunnelEntry, encap_text, entries_count, escape_formula_cell,
    escaped_cell, format_encap_list,
};
use crate::order::{lemma_text_lt_irreflexive, lemma_text_lt_total, lemma_text_lt_transitive, text_less, text_lt};

verus! {

/// One row of an exported matrix.
#[derive(Debug)]
pub struct FlowMatrixRow {
    pub mac_source: String,
    pub mac_destination: String,
    pub vlan_id: Option<u16>,
    pub protocol_data_link: String,
    pub ip_source: String,
    pub ip_source_type: String,
    pub label_source: Option<String>,
    pub ip_destination: String,
    pub ip_destination_type: String,
    pub label_destination: Option<String>,
    pub port_source: Option<u16>,
    pub port_destination: Option<u16>,
    pub protocol_transport: Option<String>,
    pub application_protocol: Option<String>,
    pub count: u64,
    pub total_bytes: u64,
    pub last_seen: String,
    /// Tunnels crossed: empty (outside any tunnel), a bare hexadecimal id
    /// (a single tunnel) or `id:n|id:n|...` (packets per tunnel).
    pub encap_id: String,
    /// Files of origin, joined by `|`.
    pub origin: String,
}

/// Spec value of a [`FlowMatrixRow`].
pub struct FlowMatrixRowSpec {
    pub mac_source: Seq<char>,
    pub mac_destination: Seq<char>,
    pub vlan_id: Option<u16>,
    pub protocol_data_link: Seq<char>,
    pub ip_source: Seq<char>,
    pub ip_source_type: Seq<char>,
    pub label_source: Option<Seq<char>>,
    pub ip_destination: Seq<char>,
    pub ip_destination_type: Seq<char>,
    pub label_destination: Option<Seq<char>>,
    pub port_source: Option<u16>,
    pub port_destination: Option<u16>,
    pub protocol_transport: Option<Seq<char>>,
    pub application_protocol: Option<Seq<char>>,
    pub count: u64,
    pub total_bytes: u64,
    pub last_seen: Seq<char>,
    pub encap_id: Seq<char>,
    pub origin: Seq<char>,
}

impl View for FlowMatrixRow {
    type V = FlowMatrixRowSpec;

    open spec fn view(&self) -> FlowMatrixRowSpec {
        FlowMatrixRowSpec {
            mac_source: self.mac_source@,
            mac_destination: self.mac_destination@,
            vlan_id: self.vlan_id,
            protocol_data_link: self.protocol_data_link@,
            ip_source: self.ip_source@,
            ip_source_type: self.ip_source_type@,
            label_source: opt_text(self.label_source),
            ip_destination: self.ip_destination@,
            ip_destination_type: self.ip_destination_type@,
            label_destination: opt_text(self.label_destination),
            port_source: self.port_source,
            port_destination: self.port_destination,
            protocol_transport: opt_text(self.protocol_transport),
            application_protocol: opt_text(self.application_protocol),
            count: self.count,
            total_bytes: self.total_bytes,
            last_seen: self.last_seen@,
            encap_id: self.encap_id@,
            origin: self.origin@,
        }
    }
}

// ---------------------------------------------------------------------------
// Aggregates of the per-tunnel entries of a flow
// ---------------------------------------------------------------------------

/// Bytes of the entries, added with saturation at `u64::MAX`.
pub open spec fn saturated_bytes(es: Seq<TunnelEntry>) -> u64
    decreases es.len(),
{
    if es.len() == 0 {
        0
    } else {
        let a = saturated_bytes(es.drop_last());
        let b = es.last().1.total_bytes;
        if a + b > u64::MAX {
            u64::MAX
        } else {
            (a + b) as u64
        }
    }
}

/// The latest time of the entries (the epoch when there is none).
pub open spec fn latest_seen(es: Seq<TunnelEntry>) -> Timestamp
    decreases es.len(),
{
    if es.len() == 0 {
        Timestamp { secs: 0, nanos: 0 }
    } else {
        let a = es.last().1.last_seen;
        let b = latest_seen(es.drop_last());
        if a.secs > b.secs || (a.secs == b.secs && a.nanos > b.nanos) {
            a
        } else {
            b
        }
    }
}

fn total_count(es: &Vec<TunnelEntry>) -> (r: u64)
    requires
        entries_count(es@) <= u64::MAX,
    ensures
        r == entries_count(es@),
{
    let mut acc: u64 = 0;
    let mut i: usize = 0;
    while i < es.len()
        invariant
            i <= es@.len(),
            entries_count(es@) <= u64::MAX,
            acc == entries_count(es@.take(i as int)),
        decreases es@.len() - i,
    {
        assert(es@.take(i + 1).drop_last() =~= es@.take(i as int));
        proof {
            lemma_entries_count_prefix(es@, i + 1);
        }
        acc = acc + es[i].1.count;
        i = i + 1;
    }
    assert(es@.take(i as int) =~= es@);
    acc
}

proof fn lemma_entries_count_prefix(es: Seq<TunnelEntry>, k: int)
    requires
        0 <= k <= es.len(),
    ensures
        entries_count(es.take(k)) <= entries_count(es),
    decreases es.len(),
{
    if k < es.len() {
        lemma_entries_count_prefix(es.drop_last(), k);
        assert(es.drop_last().take(k) =~= es.take(k));
    } else {
        assert(es.take(k) =~= es);
    }
}

fn total_bytes_of(es: &Vec<TunnelEntry>) -> (r: u64)
    ensures
        r == saturated_bytes(es@),
{
    let mut acc: u64 = 0;
    let mut i: usize = 0;
    while i < es.len()
        invariant
            i <= es@.len(),
            acc == saturated_bytes(es@.take(i as int)),
        decreases es@.len() - i,
    {
        assert(es@.take(i + 1).drop_last() =~= es@.take(i as int));
        acc = acc.saturating_add(es[i].1.total_bytes);
        i = i + 1;
    }
    assert(es@.take(i as int) =~= es@);
    acc
}

fn latest_of(es: &Vec<TunnelEntry>) -> (r: Timestamp)
    ensures
        r == latest_seen(es@),
{
    let mut acc = Timestamp::unix_epoch();
    let mut i: usize = 0;
    while i < es.len()
        invariant
            i <= es@.len(),
            acc == latest_seen(es@.take(i as int)),
        decreases es@.len() - i,
    {
        assert(es@.take(i + 1).drop_last() =~= es@.take(i as int));
        let t = es[i].1.last_seen;
        if t.is_after(&acc) {
            acc = t;
        }
        i = i + 1;
    }
    assert(es@.take(i as int) =~= es@);
    acc
}

/// Text of an instant in UTC, `%Y-%m-%d %H:%M:%S%.6f UTC` (microseconds and
/// an explicit zone), as `chrono` writes it.
pub uninterp spec fn utc_time_text(secs: u64, nanos: u32) -> Seq<char>;

/// Formats an instant with `chrono` (`DateTime::<Utc>::from_timestamp`,
/// the epoch when out of range, then `format(..).to_string()`). Claims only
/// that the text is a function of the instant.
#[verifier::external_body]
fn format_utc_time(t: Timestamp) -> (r: String)
    ensures
        r@ == utc_time_text(t.secs, t.nanos),
{
    chrono::DateTime::<chrono::Utc>::from_timestamp(t.secs as i64, t.nanos).unwrap_or(
        chrono::DateTime::<chrono::Utc>::UNIX_EPOCH,
    ).format("%Y-%m-%d %H:%M:%S%.6f UTC").to_string()
}

// ---------------------------------------------------------------------------
// Joining names
// ---------------------------------------------------------------------------

/// Texts joined by `sep`.
pub open spec fn join_texts(ts: Seq<Seq<char>>, sep: char) -> Seq<char>
    decreases ts.len(),
{
    if ts.len() == 0 {
        Seq::empty()
    } else if ts.len() == 1 {
        ts[0]
    } else {
        join_texts(ts.drop_last(), sep) + seq![sep] + ts.last()
    }
}

/// The texts of a vector of strings.
pub open spec fn texts_of(v: Seq<String>) -> Seq<Seq<char>> {
    v.map_values(|s: String| s@)
}

/// The strings of `names` joined by `sep`.
pub fn join_names(names: &Vec<String>, sep: char) -> (r: String)
    ensures
        r@ == join_texts(texts_of(names@), sep),
{
    let mut r = String::new();
    let mut i: usize = 0;
    while i < names.len()
        invariant
            i <= names@.len(),
            r@ == join_texts(texts_of(names@).take(i as int), sep),
        decreases names@.len() - i,
    {
        assert(texts_of(names@).take(i + 1).drop_last() =~= texts_of(names@).take(i as int));
        if i > 0 {
            crate::text::push_char(&mut r, sep);
        }
        r.append(names[i].as_str());
        i = i + 1;
    }
    assert(texts_of(names@).take(i as int) =~= texts_of(names@));
    r
}

// ---------------------------------------------------------------------------
// The row of a flow
// ---------------------------------------------------------------------------

/// Type of the source IP of a flow, as text (empty without network layer).
pub open spec fn source_ip_type_text(k: FlowKeySpec) -> Seq<char> {
    match k.internet {
        Some(i) => text_or_empty(i.ip_source_type),
        None => Seq::empty(),
    }
}

/// Type of the destination IP of a flow, as text.
pub open spec fn destination_ip_type_text(k: FlowKeySpec) -> Seq<char> {
    match k.internet {
        Some(i) => text_or_empty(i.ip_destination_type),
        None => Seq::empty(),
    }
}

/// A resolved label, escaped for spreadsheets.
pub open spec fn escaped_label(l: Option<Seq<char>>) -> Option<Seq<char>> {
    match l {
        Some(t) => Some(escaped_cell(t)),
        None => None,
    }
}

/// The exported row of flow `k` with per-tunnel entries `es`, files of
/// origin `origin` and labels `labels`.
pub open spec fn flow_row(
    k: FlowKeySpec,
    es: Seq<TunnelEntry>,
    origin: Seq<char>,
    labels: Map<(Seq<char>, Seq<char>), Seq<char>>,
) -> FlowMatrixRowSpec {
    let ip_s = source_ip_text(k);
    let ip_d = destination_ip_text(k);
    let t = latest_seen(es);
    FlowMatrixRowSpec {
        mac_source: k.link.source_mac,
        mac_destination: k.link.destination_mac,
        vlan_id: k.link.vlan_id,
        protocol_data_link: k.link.protocol,
        ip_source: ip_s,
        ip_source_type: source_ip_type_text(k),
        label_source: escaped_label(resolve_label(labels, k.link.source_mac, ip_s)),
        ip_destination: ip_d,
        ip_destination_type: destination_ip_type_text(k),
        label_destination: escaped_label(resolve_label(labels, k.link.destination_mac, ip_d)),
        port_source: match k.transport {
            Some(tr) => tr.source_port,
            None => None,
        },
        port_destination: match k.transport {
            Some(tr) => tr.destination_port,
            None => None,
        },
        protocol_transport: match k.transport {
            Some(tr) => Some(tr.protocol),
            None => None,
        },
        application_protocol: k.application,
        count: entries_count(es) as u64,
        total_bytes: saturated_bytes(es),
        last_seen: utc_time_text(t.secs, t.nanos),
        encap_id: encap_text(es),
        origin,
    }
}

impl FlowMatrix {
    /// The `origin` column of flow `k`: its files of origin, sorted, joined
    /// by `|` (empty for a flow not read from a matrix file).
    pub open spec fn origin_text(&self, k: FlowKeySpec) -> Seq<char> {
        match keyed_lookup(self.origins@, k) {
            Some(names) => join_texts(texts_of(names@), '|'),
            None => Seq::empty(),
        }
    }

    /// Whether the packet count of every flow fits in `u64`.
    pub open spec fn counts_fit(&self) -> bool {
        forall|i: int| 0 <= i < self.matrix@.len() ==> entries_count(#[trigger] self.matrix@[i].1@) <= u64::MAX
    }

    /// Whether the packet count of every flow fits in `u64` (the condition of
    /// [`Self::to_flat_vec`]).
    pub fn counts_fit_check(&self) -> (r: bool)
        ensures
            r == self.counts_fit(),
    {
        let mut i: usize = 0;
        while i < self.matrix.len()
            invariant
                i <= self.matrix@.len(),
                forall|j: int| 0 <= j < i ==> entries_count(#[trigger] self.matrix@[j].1@) <= u64::MAX,
            decreases self.matrix@.len() - i,
        {
            let es = &self.matrix[i].1;
            let mut total: u64 = 0;
            let mut k: usize = 0;
            while k < es.len()
                invariant
                    k <= es@.len(),
                    i < self.matrix@.len(),
                    es@ == self.matrix@[i as int].1@,
                    total as nat == entries_count(es@.take(k as int)),
                decreases es@.len() - k,
            {
                assert(es@.take(k + 1).drop_last() =~= es@.take(k as int));
                if es[k].1.count > u64::MAX - total {
                    proof {
                        lemma_entries_count_prefix(es@, k + 1);
                        assert(es@.take(k + 1).last() == es@[k as int]);
                        assert(entries_count(self.matrix@[i as int].1@) > u64::MAX);
                    }
                    return false;
                }
                total = total + es[k].1.count;
                k = k + 1;
            }
            assert(es@.take(k as int) =~= es@);
            i = i + 1;
        }
        true
    }

    /// The row of each stored flow, in storage order.
    pub open spec fn flow_rows(&self) -> Seq<FlowMatrixRowSpec> {
        Seq::new(
            self.matrix@.len(),
            |i: int| flow_row(self.matrix@[i].0@, self.matrix@[i].1@, self.origin_text(self.matrix@[i].0@), self.labels()),
        )
    }

    fn origin_of(&self, k: &FlowKey) -> (r: String)
        requires
            self.wf(),
        ensures
            r@ == self.origin_text(k@),
    {
        match find_flow(&self.origins, k) {
            Some(i) => join_names(&self.origins[i].1, '|'),
            None => String::new(),
        }
    }

    fn row_of(&self, i: usize) -> (r: FlowMatrixRow)
        requires
            self.wf(),
            self.counts_fit(),
            i < self.matrix@.len(),
        ensures
            r@ == self.flow_rows()[i as int],
    {
        let key = &self.matrix[i].0;
        let es = &self.matrix[i].1;
        let ip_source = crate::endpoints::source_ip_text_of(key);
        let ip_destination = crate::endpoints::destination_ip_text_of(key);
        let label_source = match self.get_label(key.link.source_mac.as_str(), ip_source.as_str()) {
            Some(l) => Some(escape_formula_cell(l.as_str())),
            None => None,
        };
        let label_destination = match self.get_label(
            key.link.destination_mac.as_str(),
            ip_destination.as_str(),
        ) {
            Some(l) => Some(escape_formula_cell(l.as_str())),
            None => None,
        };
        let (ip_source_type, ip_destination_type) = match &key.internet {
            Some(n) => (
                match &n.ip_source_type {
                    Some(t) => t.clone(),
                    None => String::new(),
                },
                match &n.ip_destination_type {
                    Some(t) => t.clone(),
                    None => String::new(),
                },
            ),
            None => (String::new(), String::new()),
        };
        let (port_source, port_destination, protocol_transport) = match &key.transport {
            Some(t) => (t.source_port, t.destination_port, Some(t.protocol.clone())),
            None => (None, None, None),
        };
        let application_protocol = match &key.application {
            Some(a) => Some(a.clone()),
            None => None,
        };
        assert(es@ == self.matrix@[i as int].1@);
        let count = total_count(es);
        let total_bytes = total_bytes_of(es);
        let latest = latest_of(es);
        let last_seen = format_utc_time(latest);
        let encap_id = format_encap_list(es.as_slice());
        let origin = self.origin_of(key);
        proof {
            reveal_strlit("");
        }
        FlowMatrixRow {
            mac_source: key.link.source_mac.clone(),
            mac_destination: key.link.destination_mac.clone(),
            vlan_id: key.link.vlan_id,
            protocol_data_link: key.link.protocol.clone(),
            ip_source,
            ip_source_type,
            label_source,
            ip_destination,
            ip_destination_type,
            label_destination,
            port_source,
            port_destination,
            protocol_transport,
            application_protocol,
            count,
            total_bytes,
            last_seen,
            encap_id,
            origin,
        }
    }
}


// ---------------------------------------------------------------------------
// The order of exported rows
// ---------------------------------------------------------------------------

/// Order of optional integers: `None` first.
pub open spec fn opt_u16_lt(a: Option<u16>, b: Option<u16>) -> bool {
    match (a, b) {
        (None, Some(_)) => true,
        (Some(x), Some(y)) => x < y,
        _ => false,
    }
}

/// Order of optional texts: `None` first.
pub open spec fn opt_text_lt(a: Option<Seq<char>>, b: Option<Seq<char>>) -> bool {
    match (a, b) {
        (None, Some(_)) => true,
        (Some(x), Some(y)) => text_lt(x, y),
        _ => false,
    }
}

/// Order of exported rows: by source and destination MAC, source and
/// destination IP, link protocol, VLAN, source and destination port,
/// transport and application protocols, then `encap_id`.
pub open spec fn row_lt(a: FlowMatrixRowSpec, b: FlowMatrixRowSpec) -> bool {
    if a.mac_source != b.mac_source {
        text_lt(a.mac_source, b.mac_source)
    } else if a.mac_destination != b.mac_destination {
        text_lt(a.mac_destination, b.mac_destination)
    } else if a.ip_source != b.ip_source {
        text_lt(a.ip_source, b.ip_source)
    } else if a.ip_destination != b.ip_destination {
        text_lt(a.ip_destination, b.ip_destination)
    } else if a.protocol_data_link != b.protocol_data_link {
        text_lt(a.protocol_data_link, b.protocol_data_link)
    } else if a.vlan_id != b.vlan_id {
        opt_u16_lt(a.vlan_id, b.vlan_id)
    } else if a.port_source != b.port_source {
        opt_u16_lt(a.port_source, b.port_source)
    } else if a.port_destination != b.port_destination {
        opt_u16_lt(a.port_destination, b.port_destination)
    } else if a.protocol_transport != b.protocol_transport {
        opt_text_lt(a.protocol_transport, b.protocol_transport)
    } else if a.application_protocol != b.application_protocol {
        opt_text_lt(a.application_protocol, b.application_protocol)
    } else {
        text_lt(a.encap_id, b.encap_id)
    }
}

/// Rows in non-decreasing order.
pub open spec fn rows_sorted(s: Seq<FlowMatrixRowSpec>) -> bool {
    forall|i: int, j: int| 0 <= i < j < s.len() ==> !row_lt(#[trigger] s[j], #[trigger] s[i])
}

/// Where `x` goes among the rows `t`: before the first row it sorts
/// strictly before, after all rows otherwise.
pub open spec fn insertion_point(t: Seq<FlowMatrixRowSpec>, x: FlowMatrixRowSpec) -> int
    decreases t.len(),
{
    if t.len() == 0 || row_lt(x, t[0]) {
        0
    } else {
        1 + insertion_point(t.drop_first(), x)
    }
}

/// The rows `s` in export order, each inserted in turn after the rows that
/// do not sort after it (rows that tie keep their order in `s`).
pub open spec fn sorted_rows(s: Seq<FlowMatrixRowSpec>) -> Seq<FlowMatrixRowSpec>
    decreases s.len(),
{
    if s.len() == 0 {
        Seq::empty()
    } else {
        let t = sorted_rows(s.drop_last());
        t.insert(insertion_point(t, s.last()), s.last())
    }
}

/// The insertion point is the first row that `x` sorts strictly before.
proof fn lemma_insertion_point_at(t: Seq<FlowMatrixRowSpec>, x: FlowMatrixRowSpec, i: int)
    requires
        0 <= i <= t.len(),
        forall|k: int| 0 <= k < i ==> !row_lt(x, #[trigger] t[k]),
        i < t.len() ==> row_lt(x, t[i]),
    ensures
        insertion_point(t, x) == i,
    decreases t.len(),
{
    if t.len() > 0 && i > 0 {
        assert(!row_lt(x, t[0]));
        assert forall|k: int| 0 <= k < i - 1 implies !row_lt(x, #[trigger] t.drop_first()[k]) by {
            assert(t.drop_first()[k] == t[k + 1]);
        }
        lemma_insertion_point_at(t.drop_first(), x, i - 1);
    }
}

proof fn lemma_text_laws(a: Seq<char>, b: Seq<char>, c: Seq<char>)
    ensures
        a != b ==> (text_lt(a, b) || text_lt(b, a)),
        !(text_lt(a, b) && text_lt(b, a)),
        text_lt(a, b) && text_lt(b, c) ==> text_lt(a, c),
{
    lemma_text_lt_total(a, b);
    if text_lt(a, b) && text_lt(b, c) {
        lemma_text_lt_transitive(a, b, c);
    }
}

proof fn lemma_opt_text_laws(a: Option<Seq<char>>, b: Option<Seq<char>>, c: Option<Seq<char>>)
    ensures
        a != b ==> (opt_text_lt(a, b) || opt_text_lt(b, a)),
        !(opt_text_lt(a, b) && opt_text_lt(b, a)),
        opt_text_lt(a, b) && opt_text_lt(b, c) ==> opt_text_lt(a, c),
{
    if a is Some && b is Some {
        if c is Some {
            lemma_text_laws(a->0, b->0, c->0);
        } else {
            lemma_text_laws(a->0, b->0, b->0);
        }
    }
}

/// The row order is a strict weak order whose ties are rows with equal
/// keys: asymmetric and transitive.
pub proof fn lemma_row_lt_laws(a: FlowMatrixRowSpec, b: FlowMatrixRowSpec, c: FlowMatrixRowSpec)
    ensures
        !(row_lt(a, b) && row_lt(b, a)),
        row_lt(a, b) && row_lt(b, c) ==> row_lt(a, c),
{
    lemma_text_laws(a.mac_source, b.mac_source, c.mac_source);
    lemma_text_laws(b.mac_source, c.mac_source, a.mac_source);
    lemma_text_laws(c.mac_source, a.mac_source, b.mac_source);
    lemma_text_laws(a.mac_destination, b.mac_destination, c.mac_destination);
    lemma_text_laws(b.mac_destination, c.mac_destination, a.mac_destination);
    lemma_text_laws(c.mac_destination, a.mac_destination, b.mac_destination);
    lemma_text_laws(a.ip_source, b.ip_source, c.ip_source);
    lemma_text_laws(b.ip_source, c.ip_source, a.ip_source);
    lemma_text_laws(c.ip_source, a.ip_source, b.ip_source);
    lemma_text_laws(a.ip_destination, b.ip_destination, c.ip_destination);
    lemma_text_laws(b.ip_destination, c.ip_destination, a.ip_destination);
    lemma_text_laws(c.ip_destination, a.ip_destination, b.ip_destination);
    lemma_text_laws(a.protocol_data_link, b.protocol_data_link, c.protocol_data_link);
    lemma_text_laws(b.protocol_data_link, c.protocol_data_link, a.protocol_data_link);
    lemma_text_laws(c.protocol_data_link, a.protocol_data_link, b.protocol_data_link);
    lemma_opt_text_laws(a.protocol_transport, b.protocol_transport, c.protocol_transport);
    lemma_opt_text_laws(b.protocol_transport, c.protocol_transport, a.protocol_transport);
    lemma_opt_text_laws(c.protocol_transport, a.protocol_transport, b.protocol_transport);
    lemma_opt_text_laws(a.application_protocol, b.application_protocol, c.application_protocol);
    lemma_opt_text_laws(b.application_protocol, c.application_protocol, a.application_protocol);
    lemma_opt_text_laws(c.application_protocol, a.application_protocol, b.application_protocol);
    lemma_text_laws(a.encap_id, b.encap_id, c.encap_id);
    lemma_text_laws(b.encap_id, c.encap_id, a.encap_id);
    lemma_text_laws(c.encap_id, a.encap_id, b.encap_id);
    lemma_text_lt_irreflexive(a.encap_id);
}

fn opt_u16_before(a: Option<u16>, b: Option<u16>) -> (r: bool)
    ensures
        r == opt_u16_lt(a, b),
{
    match (a, b) {
        (None, Some(_)) => true,
        (Some(x), Some(y)) => x < y,
        _ => false,
    }
}

fn opt_text_before(a: &Option<String>, b: &Option<String>) -> (r: bool)
    ensures
        r == opt_text_lt(opt_text(*a), opt_text(*b)),
{
    match (a, b) {
        (None, Some(_)) => true,
        (Some(x), Some(y)) => text_less(x.as_str(), y.as_str()),
        _ => false,
    }
}

/// Whether row `a` sorts strictly before row `b`.
pub fn row_before(a: &FlowMatrixRow, b: &FlowMatrixRow) -> (r: bool)
    ensures
        r == row_lt(a@, b@),
{
    if a.mac_source != b.mac_source {
        text_less(a.mac_source.as_str(), b.mac_source.as_str())
    } else if a.mac_destination != b.mac_destination {
        text_less(a.mac_destination.as_str(), b.mac_destination.as_str())
    } else if a.ip_source != b.ip_source {
        text_less(a.ip_source.as_str(), b.ip_source.as_str())
    } else if a.ip_destination != b.ip_destination {
        text_less(a.ip_destination.as_str(), b.ip_destination.as_str())
    } else if a.protocol_data_link != b.protocol_data_link {
        text_less(a.protocol_data_link.as_str(), b.protocol_data_link.as_str())
    } else if a.vlan_id != b.vlan_id {
        opt_u16_before(a.vlan_id, b.vlan_id)
    } else if a.port_source != b.port_source {
        opt_u16_before(a.port_source, b.port_source)
    } else if a.port_destination != b.port_destination {
        opt_u16_before(a.port_destination, b.port_destination)
    } else if !crate::flow_matrix::same_opt_text(&a.protocol_transport, &b.protocol_transport) {
        opt_text_before(&a.protocol_transport, &b.protocol_transport)
    } else if !crate::flow_matrix::same_opt_text(&a.application_protocol, &b.application_protocol) {
        opt_text_before(&a.application_protocol, &b.application_protocol)
    } else {
        text_less(a.encap_id.as_str(), b.encap_id.as_str())
    }
}

/// The views of a vector of rows.
pub open spec fn row_views(v: Seq<FlowMatrixRow>) -> Seq<FlowMatrixRowSpec> {
    v.map_values(|r: FlowMatrixRow| r@)
}

/// Inserts `row` after the rows that do not sort after it.
fn insert_row_sorted(v: &mut Vec<FlowMatrixRow>, row: FlowMatrixRow)
    requires
        rows_sorted(row_views(old(v)@)),
    ensures
        rows_sorted(row_views(final(v)@)),
        row_views(final(v)@) == row_views(old(v)@).insert(insertion_point(row_views(old(v)@), row@), row@),
        0 <= insertion_point(row_views(old(v)@), row@) <= old(v)@.len(),
{
    let ghost old_s = row_views(v@);
    let ghost x = row@;
    let mut i: usize = 0;
    while i < v.len()
        invariant
            i <= v@.len(),
            row_views(v@) == old_s,
            x == row@,
            rows_sorted(old_s),
            forall|k: int| 0 <= k < i ==> !row_lt(x, #[trigger] old_s[k]),
        ensures
            i <= v@.len(),
            row_views(v@) == old_s,
            forall|k: int| 0 <= k < i ==> !row_lt(x, #[trigger] old_s[k]),
            i < v@.len() ==> row_lt(x, old_s[i as int]),
        decreases v@.len() - i,
    {
        let before = row_before(&row, &v[i]);
        assert(old_s[i as int] == v@[i as int]@);
        if before {
            break;
        }
        i = i + 1;
    }
    proof {
        assert forall|k: int| i <= k < old_s.len() implies !row_lt(#[trigger] old_s[k], x) by {
            lemma_row_lt_laws(old_s[k], x, old_s[i as int]);
        }
    }
    proof {
        lemma_insertion_point_at(old_s, x, i as int);
    }
    v.insert(i, row);
    let ghost new_s = row_views(v@);
    assert(new_s =~= old_s.insert(i as int, x));
    assert forall|a: int, b: int| 0 <= a < b < new_s.len() implies !row_lt(#[trigger] new_s[b], #[trigger] new_s[a]) by {
        if b < i {
        } else if b == i {
        } else if a > i {
        } else if a == i {
        } else {
            assert(new_s[a] == old_s[a] && new_s[b] == old_s[b - 1]);
        }
    }
}

impl FlowMatrix {
    /// The rows of the exported matrix: one per flow, its counters merged
    /// across tunnels (packets added, bytes added with saturation, latest
    /// time kept), its per-tunnel split written in `encap_id`, its files of
    /// origin sorted and joined in `origin`, the labels of its ends resolved
    /// and escaped; sorted by the row order, so that two exports of the same
    /// state give the same rows.
    pub fn to_flat_vec(&self) -> (r: Vec<FlowMatrixRow>)
        requires
            self.wf(),
            self.counts_fit(),
        ensures
            row_views(r@) == sorted_rows(self.flow_rows()),
            rows_sorted(row_views(r@)),
            row_views(r@).to_multiset() == self.flow_rows().to_multiset(),
    {
        let mut out: Vec<FlowMatrixRow> = Vec::new();
        assert(row_views(out@) =~= Seq::<FlowMatrixRowSpec>::empty());
        assert(self.flow_rows().take(0) =~= Seq::<FlowMatrixRowSpec>::empty());
        let mut i: usize = 0;
        while i < self.matrix.len()
            invariant
                self.wf(),
                self.counts_fit(),
                i <= self.matrix@.len(),
                rows_sorted(row_views(out@)),
                row_views(out@) == sorted_rows(self.flow_rows().take(i as int)),
                row_views(out@).to_multiset() == self.flow_rows().take(i as int).to_multiset(),
            decreases self.matrix@.len() - i,
        {
            let row = self.row_of(i);
            let ghost x = row@;
            let ghost before = row_views(out@);
            insert_row_sorted(&mut out, row);
            proof {
                let p = insertion_point(before, x);
                vstd::seq_lib::to_multiset_insert(before, p, x);
                assert(self.flow_rows().take(i + 1) =~= self.flow_rows().take(i as int).push(x));
                assert(self.flow_rows().take(i + 1).drop_last() =~= self.flow_rows().take(i as int));
                vstd::seq_lib::to_multiset_build(self.flow_rows().take(i as int), x);
            }
            i = i + 1;
        }
        assert(self.flow_rows().take(i as int) =~= self.flow_rows());
        out
    }
}

// ---------------------------------------------------------------------------
// Determinism of the export
// ---------------------------------------------------------------------------

/// No two different rows of `ms` tie in the export order.
pub open spec fn rows_never_tie(ms: Multiset<FlowMatrixRowSpec>) -> bool {
    forall|x: FlowMatrixRowSpec, y: FlowMatrixRowSpec|
        ms.contains(x) && ms.contains(y) && x != y ==> #[trigger] row_lt(x, y) || #[trigger] row_lt(y, x)
}

/// Two sequences of the same rows, both in export order, are equal when no
/// two different rows tie in that order.
pub proof fn lemma_sorted_rows_unique(a: Seq<FlowMatrixRowSpec>, b: Seq<FlowMatrixRowSpec>)
    requires
        rows_sorted(a),
        rows_sorted(b),
        a.to_multiset() == b.to_multiset(),
        rows_never_tie(a.to_multiset()),
    ensures
        a == b,
    decreases a.len(),
{
    broadcast use vstd::seq_lib::group_to_multiset_ensures;
    broadcast use vstd::multiset::group_multiset_axioms;

    assert(a.to_multiset().len() == a.len());
    assert(b.to_multiset().len() == b.len());
    if a.len() == 0 {
        assert(b.len() == 0);
        assert(a =~= b);
    } else {
        assert(b.len() == a.len());
        assert(a.contains(a[0]));
        assert(b.to_multiset().count(a[0]) > 0);
        assert(b.contains(a[0]));
        let k = choose|k: int| 0 <= k < b.len() && b[k] == a[0];
        assert(b.contains(b[0]));
        assert(a.to_multiset().count(b[0]) > 0);
        assert(a.contains(b[0]));
        let m = choose|m: int| 0 <= m < a.len() && a[m] == b[0];
        if a[0] != b[0] {
            assert(k > 0 && m > 0);
            assert(!row_lt(b[k], b[0]));
            assert(!row_lt(a[m], a[0]));
            assert(a.to_multiset().contains(a[0]) && a.to_multiset().contains(b[0]));
            assert(row_lt(a[0], b[0]) || row_lt(b[0], a[0]));
        }
        let ta = a.drop_first();
        let tb = b.drop_first();
        assert(a.remove(0) =~= ta);
        assert(b.remove(0) =~= tb);
        assert(ta.to_multiset() =~= a.to_multiset().remove(a[0]));
        assert(tb.to_multiset() =~= b.to_multiset().remove(b[0]));
        assert forall|x: FlowMatrixRowSpec, y: FlowMatrixRowSpec|
            ta.to_multiset().contains(x) && ta.to_multiset().contains(y) && x != y implies #[trigger] row_lt(x, y)
                || #[trigger] row_lt(y, x) by {
            assert(a.to_multiset().contains(x));
            assert(a.to_multiset().contains(y));
        }
        assert forall|i: int, j: int| 0 <= i < j < ta.len() implies !row_lt(#[trigger] ta[j], #[trigger] ta[i]) by {
            assert(ta[i] == a[i + 1] && ta[j] == a[j + 1]);
        }
        assert forall|i: int, j: int| 0 <= i < j < tb.len() implies !row_lt(#[trigger] tb[j], #[trigger] tb[i]) by {
            assert(tb[i] == b[i + 1] && tb[j] == b[j + 1]);
        }
        lemma_sorted_rows_unique(ta, tb);
        assert(a =~= seq![a[0]] + ta);
        assert(b =~= seq![b[0]] + tb);
        assert(a =~= b);
    }
}

/// Two exports of the same matrix give the same rows in the same order,
/// sorted by the export order, and they are the matrix's rows.
pub proof fn lemma_export_is_deterministic(m: FlowMatrix, r1: Seq<FlowMatrixRowSpec>, r2: Seq<FlowMatrixRowSpec>)
    requires
        r1 == sorted_rows(m.flow_rows()),
        r2 == sorted_rows(m.flow_rows()),
    ensures
        r1 == r2,
        rows_sorted(r1),
        r1.to_multiset() == m.flow_rows().to_multiset(),
{
    lemma_sorted_rows_sorted(m.flow_rows());
}

/// The rows put in export order are sorted and are the same rows.
pub proof fn lemma_sorted_rows_sorted(s: Seq<FlowMatrixRowSpec>)
    ensures
        rows_sorted(sorted_rows(s)),
        sorted_rows(s).to_multiset() == s.to_multiset(),
        sorted_rows(s).len() == s.len(),
    decreases s.len(),
{
    broadcast use vstd::seq_lib::group_to_multiset_ensures;

    if s.len() > 0 {
        let t = sorted_rows(s.drop_last());
        let x = s.last();
        lemma_sorted_rows_sorted(s.drop_last());
        let i = insertion_point(t, x);
        lemma_insertion_point_facts(t, x);
        vstd::seq_lib::to_multiset_insert(t, i, x);
        assert(s =~= s.drop_last().push(x));
        vstd::seq_lib::to_multiset_build(s.drop_last(), x);
        let n = t.insert(i, x);
        assert forall|a: int, b: int| 0 <= a < b < n.len() implies !row_lt(#[trigger] n[b], #[trigger] n[a]) by {
            if b < i {
            } else if b == i {
                assert(!row_lt(x, t[a]));
            } else if a > i {
                assert(n[a] == t[a - 1] && n[b] == t[b - 1]);
            } else if a == i {
                assert(n[b] == t[b - 1]);
                lemma_row_lt_laws(t[b - 1], x, t[i]);
            } else {
                assert(n[a] == t[a] && n[b] == t[b - 1]);
            }
        }
    }
}

/// The insertion point lies within the rows, `x` sorts after none of the
/// rows before it, and strictly before the row at it, if any.
proof fn lemma_insertion_point_facts(t: Seq<FlowMatrixRowSpec>, x: FlowMatrixRowSpec)
    ensures
        0 <= insertion_point(t, x) <= t.len(),
        forall|k: int| 0 <= k < insertion_point(t, x) ==> !row_lt(x, #[trigger] t[k]),
        insertion_point(t, x) < t.len() ==> row_lt(x, t[insertion_point(t, x)]),
    decreases t.len(),
{
    if t.len() > 0 && !row_lt(x, t[0]) {
        lemma_insertion_point_facts(t.drop_first(), x);
        assert forall|k: int| 0 <= k < insertion_point(t, x) implies !row_lt(x, #[trigger] t[k]) by {
            if k > 0 {
                assert(t[k] == t.drop_first()[k - 1]);
            }
        }
    }
}

/// The export of a matrix depends only on its content: any two sequences
/// that [`FlowMatrix::to_flat_vec`] may return for it are equal, as long as
/// no two different rows tie in the export order.
pub proof fn lemma_flat_rows_are_determined(m: FlowMatrix, r1: Seq<FlowMatrixRowSpec>, r2: Seq<FlowMatrixRowSpec>)
    requires
        rows_sorted(r1),
        rows_sorted(r2),
        r1.to_multiset() == m.flow_rows().to_multiset(),
        r2.to_multiset() == m.flow_rows().to_multiset(),
        rows_never_tie(m.flow_rows().to_multiset()),
    ensures
        r1 == r2,
{
    lemma_sorted_rows_unique(r1, r2);
}

} // verus!
