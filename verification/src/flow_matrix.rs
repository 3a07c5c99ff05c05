//! The flow matrix: per-flow statistics split by tunnel, labels resolved by
//! `(mac, ip)` key, and the files each flow was read from.

use vstd::prelude::*;

use crate::link::{LinkView, LinkViewSpec};
use crate::matrix::{entries_count, FlowStats, Timestamp, TunnelEntry};
use crate::order::{names_sorted, name_set, insert_name_sorted};
use crate::error::SonarCoreError;
use crate::text::{is_blank, trim};

verus! {

// ---------------------------------------------------------------------------
// Flow identity
// ---------------------------------------------------------------------------

/// Network layer of a flow, as text.
#[derive(Debug)]
pub struct InternetKey {
    pub source_ip: Option<String>,
    pub ip_source_type: Option<String>,
    pub destination_ip: Option<String>,
    pub ip_destination_type: Option<String>,
    pub protocol: String,
}

/// Transport layer of a flow.
#[derive(Debug)]
pub struct TransportKey {
    pub source_port: Option<u16>,
    pub destination_port: Option<u16>,
    pub protocol: String,
}

/// Identity of a flow in the matrix: the link, network, transport and
/// application layers of its packets, as the matrix reads them (the
/// encapsulated flow of a tunnel is not part of it).
#[derive(Debug)]
pub struct FlowKey {
    pub link: LinkView,
    pub internet: Option<InternetKey>,
    pub transport: Option<TransportKey>,
    pub application: Option<String>,
}

pub struct InternetKeySpec {
    pub source_ip: Option<Seq<char>>,
    pub ip_source_type: Option<Seq<char>>,
    pub destination_ip: Option<Seq<char>>,
    pub ip_destination_type: Option<Seq<char>>,
    pub protocol: Seq<char>,
}

pub struct TransportKeySpec {
    pub source_port: Option<u16>,
    pub destination_port: Option<u16>,
    pub protocol: Seq<char>,
}

pub struct FlowKeySpec {
    pub link: LinkViewSpec,
    pub internet: Option<InternetKeySpec>,
    pub transport: Option<TransportKeySpec>,
    pub application: Option<Seq<char>>,
}

pub open spec fn opt_text(o: Option<String>) -> Option<Seq<char>> {
    match o {
        Some(s) => Some(s@),
        None => None,
    }
}

impl View for InternetKey {
    type V = InternetKeySpec;

    open spec fn view(&self) -> InternetKeySpec {
        InternetKeySpec {
            source_ip: opt_text(self.source_ip),
            ip_source_type: opt_text(self.ip_source_type),
            destination_ip: opt_text(self.destination_ip),
            ip_destination_type: opt_text(self.ip_destination_type),
            protocol: self.protocol@,
        }
    }
}

impl View for TransportKey {
    type V = TransportKeySpec;

    open spec fn view(&self) -> TransportKeySpec {
        TransportKeySpec {
            source_port: self.source_port,
            destination_port: self.destination_port,
            protocol: self.protocol@,
        }
    }
}

impl View for FlowKey {
    type V = FlowKeySpec;

    open spec fn view(&self) -> FlowKeySpec {
        FlowKeySpec {
            link: self.link@,
            internet: match self.internet {
                Some(i) => Some(i@),
                None => None,
            },
            transport: match self.transport {
                Some(t) => Some(t@),
                None => None,
            },
            application: opt_text(self.application),
        }
    }
}

/// Equality of optional strings, by their characters.
pub fn same_opt_text(a: &Option<String>, b: &Option<String>) -> (r: bool)
    ensures
        r == (opt_text(*a) == opt_text(*b)),
{
    match (a, b) {
        (Some(x), Some(y)) => *x == *y,
        (None, None) => true,
        _ => false,
    }
}

/// A copy of an optional string.
pub fn copy_opt_text(a: &Option<String>) -> (r: Option<String>)
    ensures
        opt_text(r) == opt_text(*a),
{
    match a {
        Some(x) => Some(x.clone()),
        None => None,
    }
}

impl InternetKey {
    pub fn same_as(&self, other: &InternetKey) -> (r: bool)
        ensures
            r == (self@ == other@),
    {
        same_opt_text(&self.source_ip, &other.source_ip) && same_opt_text(
            &self.ip_source_type,
            &other.ip_source_type,
        ) && same_opt_text(&self.destination_ip, &other.destination_ip) && same_opt_text(
            &self.ip_destination_type,
            &other.ip_destination_type,
        ) && self.protocol == other.protocol
    }

    pub fn duplicate(&self) -> (r: InternetKey)
        ensures
            r@ == self@,
    {
        InternetKey {
            source_ip: copy_opt_text(&self.source_ip),
            ip_source_type: copy_opt_text(&self.ip_source_type),
            destination_ip: copy_opt_text(&self.destination_ip),
            ip_destination_type: copy_opt_text(&self.ip_destination_type),
            protocol: self.protocol.clone(),
        }
    }
}

impl TransportKey {
    pub fn same_as(&self, other: &TransportKey) -> (r: bool)
        ensures
            r == (self@ == other@),
    {
        self.source_port == other.source_port && self.destination_port == other.destination_port
            && self.protocol == other.protocol
    }

    pub fn duplicate(&self) -> (r: TransportKey)
        ensures
            r@ == self@,
    {
        TransportKey {
            source_port: self.source_port,
            destination_port: self.destination_port,
            protocol: self.protocol.clone(),
        }
    }
}

impl FlowKey {
    /// Whether two keys designate the same flow.
    pub fn same_as(&self, other: &FlowKey) -> (r: bool)
        ensures
            r == (self@ == other@),
    {
        let internet = match (&self.internet, &other.internet) {
            (Some(a), Some(b)) => a.same_as(b),
            (None, None) => true,
            _ => false,
        };
        let transport = match (&self.transport, &other.transport) {
            (Some(a), Some(b)) => a.same_as(b),
            (None, None) => true,
            _ => false,
        };
        self.link.same_as(&other.link) && internet && transport && same_opt_text(
            &self.application,
            &other.application,
        )
    }

    /// A copy of the key.
    pub fn duplicate(&self) -> (r: FlowKey)
        ensures
            r@ == self@,
    {
        FlowKey {
            link: self.link.duplicate(),
            internet: match &self.internet {
                Some(i) => Some(i.duplicate()),
                None => None,
            },
            transport: match &self.transport {
                Some(t) => Some(t.duplicate()),
                None => None,
            },
            application: copy_opt_text(&self.application),
        }
    }
}


// ---------------------------------------------------------------------------
// Labels
// ---------------------------------------------------------------------------

/// A stored label: `(mac, ip, label)`.
pub type LabelEntry = (String, String, String);

/// Whether no two stored labels share their `(mac, ip)` key.
pub open spec fn labels_distinct(s: Seq<LabelEntry>) -> bool {
    forall|i: int, j: int|
        0 <= i < j < s.len() ==> (#[trigger] s[i].0@, s[i].1@) != (#[trigger] s[j].0@, s[j].1@)
}

/// The label stored for key `(mac, ip)`, if any.
pub open spec fn label_lookup(s: Seq<LabelEntry>, mac: Seq<char>, ip: Seq<char>) -> Option<Seq<char>> {
    if exists|i: int| 0 <= i < s.len() && (#[trigger] s[i].0@, s[i].1@) == (mac, ip) {
        Some(s[choose|i: int| 0 <= i < s.len() && (#[trigger] s[i].0@, s[i].1@) == (mac, ip)].2@)
    } else {
        None
    }
}

/// The stored labels as a map from `(mac, ip)` to label.
pub open spec fn labels_map(s: Seq<LabelEntry>) -> Map<(Seq<char>, Seq<char>), Seq<char>> {
    Map::new(
        |k: (Seq<char>, Seq<char>)| label_lookup(s, k.0, k.1) is Some,
        |k: (Seq<char>, Seq<char>)| label_lookup(s, k.0, k.1)->0,
    )
}

/// Label resolution by precedence: the exact `(mac, ip)` key, then the
/// IP-only label `("", ip)`, then the MAC-only label `(mac, "")`.
pub open spec fn resolve_label(labels: Map<(Seq<char>, Seq<char>), Seq<char>>, mac: Seq<char>, ip: Seq<char>) -> Option<Seq<char>> {
    let empty = Seq::<char>::empty();
    if labels.contains_key((mac, ip)) {
        Some(labels[(mac, ip)])
    } else if labels.contains_key((empty, ip)) {
        Some(labels[(empty, ip)])
    } else if labels.contains_key((mac, empty)) {
        Some(labels[(mac, empty)])
    } else {
        None
    }
}

/// A label written for `(mac, ip)` is what that key reads back; a key that
/// already had its own label keeps reading it.
pub proof fn lemma_label_read_after_write(
    labels: Map<(Seq<char>, Seq<char>), Seq<char>>,
    mac: Seq<char>,
    ip: Seq<char>,
    label: Seq<char>,
    other_mac: Seq<char>,
    other_ip: Seq<char>,
)
    ensures
        resolve_label(labels.insert((mac, ip), label), mac, ip) == Some(label),
        labels.contains_key((other_mac, other_ip)) && (other_mac, other_ip) != (mac, ip) ==> resolve_label(
            labels.insert((mac, ip), label),
            other_mac,
            other_ip,
        ) == resolve_label(labels, other_mac, other_ip),
{
}

pub proof fn lemma_label_lookup_at(s: Seq<LabelEntry>, i: int)
    requires
        labels_distinct(s),
        0 <= i < s.len(),
    ensures
        label_lookup(s, s[i].0@, s[i].1@) == Some(s[i].2@),
{
    let k = (s[i].0@, s[i].1@);
    assert((s[i].0@, s[i].1@) == k);
    let c = choose|j: int| 0 <= j < s.len() && (#[trigger] s[j].0@, s[j].1@) == k;
    if c != i {
        if c < i {
            assert((s[c].0@, s[c].1@) != (s[i].0@, s[i].1@));
        } else {
            assert((s[i].0@, s[i].1@) != (s[c].0@, s[c].1@));
        }
    }
}

/// Index of the label stored for `(mac, ip)`.
fn find_label(s: &Vec<LabelEntry>, mac: &str, ip: &str) -> (r: Option<usize>)
    requires
        labels_distinct(s@),
    ensures
        match r {
            Some(i) => i < s@.len() && (s@[i as int].0@, s@[i as int].1@) == (mac@, ip@)
                && label_lookup(s@, mac@, ip@) == Some(s@[i as int].2@),
            None => label_lookup(s@, mac@, ip@) is None,
        },
{
    let mut i: usize = 0;
    while i < s.len()
        invariant
            i <= s@.len(),
            labels_distinct(s@),
            forall|j: int| 0 <= j < i ==> (#[trigger] s@[j].0@, s@[j].1@) != (mac@, ip@),
        decreases s@.len() - i,
    {
        if crate::text::str_eq(s[i].0.as_str(), mac) && crate::text::str_eq(s[i].1.as_str(), ip) {
            proof {
                lemma_label_lookup_at(s@, i as int);
            }
            return Some(i);
        }
        i = i + 1;
    }
    None
}

/// The flow matrix: statistics per flow, split by tunnel; labels resolved
/// by `(mac, ip)` key; files of origin per flow; link type of the survey.
pub struct FlowMatrix {
    /// One entry per flow (keys distinct): its statistics per tunnel
    /// (`None`: packets seen outside any tunnel).
    pub matrix: Vec<(FlowKey, Vec<TunnelEntry>)>,
    /// Labels by `(mac, ip)` key (keys distinct).
    pub label: Vec<LabelEntry>,
    /// Files of origin of the flows read from matrix files (names sorted,
    /// without repetition; keys distinct).
    pub origins: Vec<(FlowKey, Vec<String>)>,
    /// Link type (`LINKTYPE_*` code) of the survey, fixed by its first
    /// source (`None`: empty matrix).
    pub link_type: Option<u32>,
}

impl FlowMatrix {
    /// The labels, as a map.
    pub open spec fn labels(&self) -> Map<(Seq<char>, Seq<char>), Seq<char>> {
        labels_map(self.label@)
    }

    /// Well-formedness: no key twice in any of the maps.
    pub open spec fn wf(&self) -> bool {
        &&& labels_distinct(self.label@)
        &&& keys_distinct(self.matrix@)
        &&& forall|i: int| 0 <= i < self.matrix@.len() ==> entry_ids_distinct(#[trigger] self.matrix@[i].1@)
        &&& keys_distinct(self.origins@)
        &&& forall|i: int| 0 <= i < self.origins@.len() ==> names_sorted(#[trigger] self.origins@[i].1@)
    }

    /// An empty matrix.
    pub fn new() -> (r: FlowMatrix)
        ensures
            r.wf(),
            r.matrix@.len() == 0,
            r.label@.len() == 0,
            r.origins@.len() == 0,
            r.link_type is None,
            r.labels() == Map::<(Seq<char>, Seq<char>), Seq<char>>::empty(),
    {
        let r = FlowMatrix {
            matrix: Vec::new(),
            label: Vec::new(),
            origins: Vec::new(),
            link_type: None,
        };
        assert(r.labels() =~= Map::<(Seq<char>, Seq<char>), Seq<char>>::empty());
        r
    }

    /// Sets the label of key `(mac, ip)`, replacing the previous one.
    pub fn add_label(&mut self, mac: String, ip: String, label: String)
        requires
            old(self).wf(),
        ensures
            final(self).wf(),
            final(self).labels() == old(self).labels().insert((mac@, ip@), label@),
            final(self).matrix@ == old(self).matrix@,
            final(self).origins@ == old(self).origins@,
            final(self).link_type == old(self).link_type,
    {
        let ghost old_s = self.label@;
        match find_label(&self.label, mac.as_str(), ip.as_str()) {
            Some(i) => {
                self.label.set(i, (mac, ip, label));
                let ghost new_s = self.label@;
                assert(labels_distinct(new_s)) by {
                    assert forall|a: int, b: int| 0 <= a < b < new_s.len() implies (
                    #[trigger] new_s[a].0@, new_s[a].1@) != (#[trigger] new_s[b].0@, new_s[b].1@) by {
                        assert((old_s[a].0@, old_s[a].1@) != (old_s[b].0@, old_s[b].1@));
                    }
                }
                proof {
                    lemma_label_lookup_at(new_s, i as int);
                }
                assert forall|k: (Seq<char>, Seq<char>)| k != (mac@, ip@) implies label_lookup(
                    new_s,
                    k.0,
                    k.1,
                ) == label_lookup(old_s, k.0, k.1) by {
                    if exists|j: int| 0 <= j < old_s.len() && (#[trigger] old_s[j].0@, old_s[j].1@) == k {
                        let j = choose|j: int| 0 <= j < old_s.len() && (#[trigger] old_s[j].0@, old_s[j].1@) == k;
                        assert(j != i);
                        lemma_label_lookup_at(old_s, j);
                        assert(new_s[j] == old_s[j]);
                        lemma_label_lookup_at(new_s, j);
                    } else {
                        assert forall|j: int| 0 <= j < new_s.len() implies (#[trigger] new_s[j].0@, new_s[j].1@) != k by {
                            if j != i {
                                assert(new_s[j] == old_s[j]);
                            }
                        }
                    }
                }
            },
            None => {
                self.label.push((mac, ip, label));
                let ghost new_s = self.label@;
                let ghost n = old_s.len() as int;
                assert(labels_distinct(new_s)) by {
                    assert forall|a: int, b: int| 0 <= a < b < new_s.len() implies (
                    #[trigger] new_s[a].0@, new_s[a].1@) != (#[trigger] new_s[b].0@, new_s[b].1@) by {
                        if b == n {
                            assert(new_s[a] == old_s[a]);
                            if (old_s[a].0@, old_s[a].1@) == (mac@, ip@) {
                                assert(label_lookup(old_s, mac@, ip@) is Some);
                            }
                        } else {
                            assert((old_s[a].0@, old_s[a].1@) != (old_s[b].0@, old_s[b].1@));
                        }
                    }
                }
                proof {
                    lemma_label_lookup_at(new_s, n);
                }
                assert forall|k: (Seq<char>, Seq<char>)| k != (mac@, ip@) implies label_lookup(
                    new_s,
                    k.0,
                    k.1,
                ) == label_lookup(old_s, k.0, k.1) by {
                    if exists|j: int| 0 <= j < old_s.len() && (#[trigger] old_s[j].0@, old_s[j].1@) == k {
                        let j = choose|j: int| 0 <= j < old_s.len() && (#[trigger] old_s[j].0@, old_s[j].1@) == k;
                        lemma_label_lookup_at(old_s, j);
                        assert(new_s[j] == old_s[j]);
                        lemma_label_lookup_at(new_s, j);
                    } else {
                        assert forall|j: int| 0 <= j < new_s.len() implies (#[trigger] new_s[j].0@, new_s[j].1@) != k by {
                            if j < n {
                                assert(new_s[j] == old_s[j]);
                            }
                        }
                    }
                }
            },
        }
        assert(self.labels() =~= old(self).labels().insert((mac@, ip@), label@));
    }

    /// The label stored for exactly `(mac, ip)`.
    fn stored_label(&self, mac: &str, ip: &str) -> (r: Option<String>)
        requires
            self.wf(),
        ensures
            opt_text(r) == label_lookup(self.label@, mac@, ip@),
    {
        match find_label(&self.label, mac, ip) {
            Some(i) => Some(self.label[i].2.clone()),
            None => None,
        }
    }

    /// Label of an endpoint: the exact `(mac, ip)` label, else the IP-only
    /// label, else the MAC-only label.
    pub fn get_label(&self, mac: &str, ip: &str) -> (r: Option<String>)
        requires
            self.wf(),
        ensures
            opt_text(r) == resolve_label(self.labels(), mac@, ip@),
    {
        proof {
            reveal_strlit("");
            assert(""@ =~= Seq::<char>::empty());
        }
        let exact = self.stored_label(mac, ip);
        if exact.is_some() {
            return exact;
        }
        let by_ip = self.stored_label("", ip);
        if by_ip.is_some() {
            return by_ip;
        }
        self.stored_label(mac, "")
    }

    /// Number of rows of the exported matrix (one per distinct flow).
    pub fn row_count(&self) -> (r: usize)
        ensures
            r == self.matrix@.len(),
    {
        self.matrix.len()
    }

    /// Empties the matrix: flows, labels, origins and link type.
    pub fn clear(&mut self)
        ensures
            final(self).wf(),
            final(self).matrix@.len() == 0,
            final(self).label@.len() == 0,
            final(self).origins@.len() == 0,
            final(self).link_type is None,
            final(self).labels() == Map::<(Seq<char>, Seq<char>), Seq<char>>::empty(),
    {
        self.matrix.clear();
        self.label.clear();
        self.origins.clear();
        self.link_type = None;
        assert(self.labels() =~= Map::<(Seq<char>, Seq<char>), Seq<char>>::empty());
    }
}

// ---------------------------------------------------------------------------
// Tables keyed by flow
// ---------------------------------------------------------------------------

/// Whether no two entries of a table keyed by flow share their key.
pub open spec fn keys_distinct<V>(s: Seq<(FlowKey, V)>) -> bool {
    forall|i: int, j: int| 0 <= i < j < s.len() ==> (#[trigger] s[i].0@) != (#[trigger] s[j].0@)
}

/// The value stored for flow `k`, if any.
pub open spec fn keyed_lookup<V>(s: Seq<(FlowKey, V)>, k: FlowKeySpec) -> Option<V> {
    if exists|i: int| 0 <= i < s.len() && (#[trigger] s[i].0@) == k {
        Some(s[choose|i: int| 0 <= i < s.len() && (#[trigger] s[i].0@) == k].1)
    } else {
        None
    }
}

pub proof fn lemma_keyed_lookup_at<V>(s: Seq<(FlowKey, V)>, i: int)
    requires
        keys_distinct(s),
        0 <= i < s.len(),
    ensures
        keyed_lookup(s, s[i].0@) == Some(s[i].1),
{
    let k = s[i].0@;
    let c = choose|j: int| 0 <= j < s.len() && (#[trigger] s[j].0@) == k;
    if c != i {
        if c < i {
            assert(s[c].0@ != s[i].0@);
        } else {
            assert(s[i].0@ != s[c].0@);
        }
    }
}

/// Replacing the value at index `i` changes the lookup of that key only.
pub proof fn lemma_keyed_update<V>(s: Seq<(FlowKey, V)>, i: int, key: FlowKey, v: V)
    requires
        keys_distinct(s),
        0 <= i < s.len(),
        key@ == s[i].0@,
    ensures
        keys_distinct(s.update(i, (key, v))),
        keyed_lookup(s.update(i, (key, v)), key@) == Some(v),
        forall|k: FlowKeySpec| k != key@ ==> #[trigger] keyed_lookup(s.update(i, (key, v)), k) == keyed_lookup(s, k),
{
    let t = s.update(i, (key, v));
    assert forall|a: int, b: int| 0 <= a < b < t.len() implies (#[trigger] t[a].0@) != (#[trigger] t[b].0@) by {
        assert(s[a].0@ != s[b].0@);
    }
    lemma_keyed_lookup_at(t, i);
    assert forall|k: FlowKeySpec| k != key@ implies #[trigger] keyed_lookup(t, k) == keyed_lookup(s, k) by {
        if exists|j: int| 0 <= j < s.len() && (#[trigger] s[j].0@) == k {
            let j = choose|j: int| 0 <= j < s.len() && (#[trigger] s[j].0@) == k;
            lemma_keyed_lookup_at(s, j);
            assert(t[j] == s[j]);
            lemma_keyed_lookup_at(t, j);
        } else {
            assert forall|j: int| 0 <= j < t.len() implies (#[trigger] t[j].0@) != k by {
                if j != i {
                    assert(t[j] == s[j]);
                }
            }
        }
    }
}

/// Appending a new key adds it and leaves the other lookups unchanged.
pub proof fn lemma_keyed_push<V>(s: Seq<(FlowKey, V)>, key: FlowKey, v: V)
    requires
        keys_distinct(s),
        keyed_lookup(s, key@) is None,
    ensures
        keys_distinct(s.push((key, v))),
        keyed_lookup(s.push((key, v)), key@) == Some(v),
        forall|k: FlowKeySpec| k != key@ ==> #[trigger] keyed_lookup(s.push((key, v)), k) == keyed_lookup(s, k),
{
    let t = s.push((key, v));
    let n = s.len() as int;
    assert forall|a: int, b: int| 0 <= a < b < t.len() implies (#[trigger] t[a].0@) != (#[trigger] t[b].0@) by {
        assert(t[a] == s[a]);
        if b < n {
            assert(s[a].0@ != s[b].0@);
        } else {
            if s[a].0@ == key@ {
                assert(exists|i: int| 0 <= i < s.len() && (#[trigger] s[i].0@) == key@);
            }
        }
    }
    lemma_keyed_lookup_at(t, n);
    assert forall|k: FlowKeySpec| k != key@ implies #[trigger] keyed_lookup(t, k) == keyed_lookup(s, k) by {
        if exists|j: int| 0 <= j < s.len() && (#[trigger] s[j].0@) == k {
            let j = choose|j: int| 0 <= j < s.len() && (#[trigger] s[j].0@) == k;
            lemma_keyed_lookup_at(s, j);
            assert(t[j] == s[j]);
            lemma_keyed_lookup_at(t, j);
        } else {
            assert forall|j: int| 0 <= j < t.len() implies (#[trigger] t[j].0@) != k by {
                if j < n {
                    assert(t[j] == s[j]);
                }
            }
        }
    }
}

/// Index of flow `key` in a table keyed by flow.
pub fn find_flow<V>(s: &Vec<(FlowKey, V)>, key: &FlowKey) -> (r: Option<usize>)
    requires
        keys_distinct(s@),
    ensures
        match r {
            Some(i) => i < s@.len() && s@[i as int].0@ == key@ && keyed_lookup(s@, key@) == Some(
                s@[i as int].1,
            ),
            None => keyed_lookup(s@, key@) is None,
        },
{
    let mut i: usize = 0;
    while i < s.len()
        invariant
            i <= s@.len(),
            keys_distinct(s@),
            forall|j: int| 0 <= j < i ==> (#[trigger] s@[j].0@) != key@,
        decreases s@.len() - i,
    {
        if s[i].0.same_as(key) {
            proof {
                lemma_keyed_lookup_at(s@, i as int);
            }
            return Some(i);
        }
        i = i + 1;
    }
    None
}


// ---------------------------------------------------------------------------
// Per-tunnel entries
// ---------------------------------------------------------------------------

/// No two entries of a flow are for the same tunnel.
pub open spec fn entry_ids_distinct(es: Seq<TunnelEntry>) -> bool {
    forall|i: int, j: int| 0 <= i < j < es.len() ==> (#[trigger] es[i].0) != (#[trigger] es[j].0)
}

/// `a + b`, saturated at `u64::MAX`.
pub open spec fn sat_add(a: u64, b: u64) -> u64 {
    if a + b > u64::MAX {
        u64::MAX
    } else {
        (a + b) as u64
    }
}

/// The later of two instants (`b` when they are equal).
pub open spec fn later(a: Timestamp, b: Timestamp) -> Timestamp {
    if a.secs > b.secs || (a.secs == b.secs && a.nanos > b.nanos) {
        a
    } else {
        b
    }
}

/// Statistics `old` with `add` accumulated: counts added, bytes added
/// (saturating), latest time kept.
pub open spec fn merged_stats(old: FlowStats, add: FlowStats) -> FlowStats {
    FlowStats {
        count: (old.count + add.count) as u64,
        total_bytes: sat_add(old.total_bytes, add.total_bytes),
        last_seen: later(add.last_seen, old.last_seen),
    }
}

/// Index of the entry of tunnel `encap`, if any.
pub open spec fn entry_index(es: Seq<TunnelEntry>, encap: Option<u64>) -> Option<int> {
    if exists|j: int| 0 <= j < es.len() && (#[trigger] es[j]).0 == encap {
        Some(choose|j: int| 0 <= j < es.len() && (#[trigger] es[j]).0 == encap)
    } else {
        None
    }
}

/// The entries with `stats` accumulated into the entry of tunnel `encap`,
/// or a new entry for that tunnel at the end.
pub open spec fn merge_entry(es: Seq<TunnelEntry>, encap: Option<u64>, stats: FlowStats) -> Seq<TunnelEntry> {
    match entry_index(es, encap) {
        Some(j) => es.update(j, (encap, merged_stats(es[j].1, stats))),
        None => es.push((encap, stats)),
    }
}

/// Whether accumulating `stats` into tunnel `encap` keeps its packet
/// count within `u64`.
pub open spec fn merge_fits(es: Seq<TunnelEntry>, encap: Option<u64>, stats: FlowStats) -> bool {
    match entry_index(es, encap) {
        Some(j) => es[j].1.count + stats.count <= u64::MAX,
        None => true,
    }
}

pub(crate) proof fn lemma_entry_index_at(es: Seq<TunnelEntry>, j: int)
    requires
        entry_ids_distinct(es),
        0 <= j < es.len(),
    ensures
        entry_index(es, es[j].0) == Some(j),
{
    let c = choose|i: int| 0 <= i < es.len() && (#[trigger] es[i]).0 == es[j].0;
    if c != j {
        if c < j {
            assert(es[c].0 != es[j].0);
        } else {
            assert(es[j].0 != es[c].0);
        }
    }
}

/// `a` is not later than `b`.
pub open spec fn not_after(a: Timestamp, b: Timestamp) -> bool {
    a.secs < b.secs || (a.secs == b.secs && a.nanos <= b.nanos)
}

proof fn lemma_entries_count_update(es: Seq<TunnelEntry>, j: int, e: TunnelEntry)
    requires
        0 <= j < es.len(),
    ensures
        entries_count(es.update(j, e)) == entries_count(es) - es[j].1.count + e.1.count,
    decreases es.len(),
{
    if j == es.len() - 1 {
        assert(es.update(j, e).drop_last() =~= es.drop_last());
    } else {
        assert(es.update(j, e).drop_last() =~= es.drop_last().update(j, e));
        lemma_entries_count_update(es.drop_last(), j, e);
    }
}

/// Merging statistics into a flow adds exactly their packets to the
/// flow's total, and the tunnel's latest time never moves back: it is the
/// later of the time it had and the time merged in.
pub proof fn lemma_merge_entry_conserves(es: Seq<TunnelEntry>, encap: Option<u64>, stats: FlowStats)
    requires
        merge_fits(es, encap, stats),
    ensures
        entries_count(merge_entry(es, encap, stats)) == entries_count(es) + stats.count,
        match entry_index(es, encap) {
            Some(j) => not_after(es[j].1.last_seen, merge_entry(es, encap, stats)[j].1.last_seen)
                && not_after(stats.last_seen, merge_entry(es, encap, stats)[j].1.last_seen),
            None => merge_entry(es, encap, stats).last() == (encap, stats),
        },
{
    match entry_index(es, encap) {
        Some(j) => {
            lemma_entries_count_update(es, j, (encap, merged_stats(es[j].1, stats)));
        },
        None => {
            assert(es.push((encap, stats)).drop_last() =~= es);
        },
    }
}

fn later_of(a: Timestamp, b: Timestamp) -> (r: Timestamp)
    ensures
        r == later(a, b),
{
    if a.is_after(&b) {
        a
    } else {
        b
    }
}

/// The entries `es` with `stats` merged into tunnel `encap`.
fn merged_entries(es: &Vec<TunnelEntry>, encap: Option<u64>, stats: FlowStats) -> (r: Vec<TunnelEntry>)
    requires
        entry_ids_distinct(es@),
        merge_fits(es@, encap, stats),
    ensures
        r@ == merge_entry(es@, encap, stats),
        entry_ids_distinct(r@),
{
    let mut r: Vec<TunnelEntry> = Vec::new();
    let mut found: Option<usize> = None;
    let mut i: usize = 0;
    while i < es.len()
        invariant
            i <= es@.len(),
            entry_ids_distinct(es@),
            merge_fits(es@, encap, stats),
            r@.len() == i,
            found matches Some(j) ==> j < i && es@[j as int].0 == encap,
            found is None ==> forall|k: int| 0 <= k < i ==> (#[trigger] es@[k]).0 != encap,
            forall|k: int|
                0 <= k < i ==> #[trigger] r@[k] == if es@[k].0 == encap {
                    (encap, merged_stats(es@[k].1, stats))
                } else {
                    es@[k]
                },
        decreases es@.len() - i,
    {
        let (id, st) = es[i];
        if id == encap {
            proof {
                lemma_entry_index_at(es@, i as int);
            }
            let merged = FlowStats {
                count: st.count + stats.count,
                total_bytes: st.total_bytes.saturating_add(stats.total_bytes),
                last_seen: later_of(stats.last_seen, st.last_seen),
            };
            r.push((encap, merged));
            found = Some(i);
        } else {
            r.push((id, st));
        }
        i = i + 1;
    }
    match found {
        Some(j) => {
            proof {
                lemma_entry_index_at(es@, j as int);
            }
            assert(r@ =~= es@.update(j as int, (encap, merged_stats(es@[j as int].1, stats)))) by {
                assert forall|k: int| 0 <= k < r@.len() implies r@[k] == es@.update(
                    j as int,
                    (encap, merged_stats(es@[j as int].1, stats)),
                )[k] by {
                    if k != j && es@[k].0 == encap {
                        if k < j {
                            assert(es@[k].0 != es@[j as int].0);
                        } else {
                            assert(es@[j as int].0 != es@[k].0);
                        }
                    }
                }
            }
        },
        None => {
            assert(r@ =~= es@);
            r.push((encap, stats));
        },
    }
    r
}

// ---------------------------------------------------------------------------
// Captured packets and their accumulation
// ---------------------------------------------------------------------------

/// `UNIX_EPOCH + Duration::new(tv_sec as u64, (tv_usec * 1000) as u32)`:
/// the nanoseconds beyond a second carry into the seconds.
pub open spec fn timeval_instant(tv_sec: i64, tv_usec: i64) -> Timestamp {
    let nanos = (tv_usec * 1000) as u32;
    Timestamp {
        secs: ((tv_sec as u64) + nanos / 1_000_000_000) as u64,
        nanos: (nanos % 1_000_000_000) as u32,
    }
}

/// Whether a pcap timestamp converts without overflow.
pub open spec fn timeval_fits(tv_sec: i64, tv_usec: i64) -> bool {
    &&& i64::MIN <= tv_usec * 1000 <= i64::MAX
    &&& (tv_sec as u64) + ((tv_usec * 1000) as u32) / 1_000_000_000 <= i64::MAX
}

/// Whether a pcap timestamp converts without overflow (the condition of
/// [`timeval_to_systemtime`] and of [`FlowMatrix::update_flow`]).
pub fn timeval_converts(tv_sec: i64, tv_usec: i64) -> (r: bool)
    ensures
        r == timeval_fits(tv_sec, tv_usec),
{
    if tv_usec < i64::MIN / 1000 || tv_usec > i64::MAX / 1000 {
        return false;
    }
    let nanos = (tv_usec * 1000) as u32;
    let carry = (nanos / 1_000_000_000) as u64;
    let secs = tv_sec as u64;
    secs <= i64::MAX as u64 && carry <= i64::MAX as u64 - secs
}

/// Converts a pcap timestamp (`tv_sec`, `tv_usec`) to an instant.
pub fn timeval_to_systemtime(tv_sec: i64, tv_usec: i64) -> (r: Timestamp)
    requires
        timeval_fits(tv_sec, tv_usec),
    ensures
        r == timeval_instant(tv_sec, tv_usec),
        r.nanos < 1_000_000_000,
{
    let nanos = (tv_usec * 1000) as u32;
    let secs = tv_sec as u64;
    Timestamp { secs: secs + (nanos / 1_000_000_000) as u64, nanos: nanos % 1_000_000_000 }
}

/// A packet as the matrix consumes it: capture header, flow identity and
/// enclosing tunnel.
pub struct CapturedPacketOwned {
    pub ts_sec: i64,
    pub ts_usec: i64,
    pub caplen: u32,
    pub len: u32,
    pub flow: FlowKey,
    /// Id of the enclosing tunnel (`None` outside any tunnel).
    pub encap_id: Option<u64>,
}

/// The statistics one packet contributes.
pub open spec fn packet_stats(pkt: CapturedPacketOwned) -> FlowStats {
    FlowStats { count: 1, total_bytes: pkt.len as u64, last_seen: timeval_instant(pkt.ts_sec, pkt.ts_usec) }
}

impl FlowMatrix {
    /// The statistics per flow, as a map.
    pub open spec fn flows(&self) -> Map<FlowKeySpec, Seq<TunnelEntry>> {
        Map::new(
            |k: FlowKeySpec| keyed_lookup(self.matrix@, k) is Some,
            |k: FlowKeySpec| keyed_lookup(self.matrix@, k)->0@,
        )
    }

    /// Entries of flow `k` (none for an unknown flow).
    pub open spec fn entries_of(&self, k: FlowKeySpec) -> Seq<TunnelEntry> {
        if self.flows().contains_key(k) {
            self.flows()[k]
        } else {
            Seq::empty()
        }
    }

    /// Accumulates already aggregated statistics into flow `flow`, tunnel
    /// `encap_id`.
    fn accumulate(&mut self, flow: &FlowKey, encap_id: Option<u64>, stats: FlowStats)
        requires
            old(self).wf(),
            merge_fits(old(self).entries_of(flow@), encap_id, stats),
        ensures
            final(self).wf(),
            final(self).flows() == old(self).flows().insert(
                flow@,
                merge_entry(old(self).entries_of(flow@), encap_id, stats),
            ),
            final(self).labels() == old(self).labels(),
            final(self).label@ == old(self).label@,
            final(self).origins@ == old(self).origins@,
            final(self).link_type == old(self).link_type,
    {
        let ghost old_m = self.matrix@;
        let ghost target = merge_entry(old(self).entries_of(flow@), encap_id, stats);
        match find_flow(&self.matrix, flow) {
            Some(i) => {
                let (key, entries) = self.matrix.remove(i);
                assert(old(self).entries_of(flow@) == entries@);
                assert(entry_ids_distinct(old_m[i as int].1@));
                let new_entries = merged_entries(&entries, encap_id, stats);
                let ghost v = new_entries;
                self.matrix.insert(i, (key, new_entries));
                proof {
                    assert(self.matrix@ =~= old_m.update(i as int, (key, v)));
                    lemma_keyed_update(old_m, i as int, key, v);
                    assert forall|j: int| 0 <= j < self.matrix@.len() implies entry_ids_distinct(#[trigger] self.matrix@[j].1@) by {
                        if j != i {
                            assert(self.matrix@[j] == old_m[j]);
                        }
                    }
                }
            },
            None => {
                assert(old(self).entries_of(flow@) =~= Seq::<TunnelEntry>::empty());
                let mut es: Vec<TunnelEntry> = Vec::new();
                es.push((encap_id, stats));
                assert(es@ =~= target);
                let key = flow.duplicate();
                let ghost v = es;
                proof {
                    lemma_keyed_push(old_m, key, v);
                }
                self.matrix.push((key, es));
                proof {
                    assert forall|j: int| 0 <= j < self.matrix@.len() implies entry_ids_distinct(#[trigger] self.matrix@[j].1@) by {
                        if j < old_m.len() {
                            assert(self.matrix@[j] == old_m[j]);
                        }
                    }
                }
            },
        }
        assert(self.flows() =~= old(self).flows().insert(flow@, target));
    }
}


impl FlowMatrix {
    /// Counts one packet in its flow and tunnel: the entry of that tunnel
    /// gains one packet and the packet's bytes (saturating), and keeps the
    /// latest time seen (an older packet never moves it back); an unknown
    /// flow or tunnel gets a new entry.
    pub fn update_flow(&mut self, pkt: &CapturedPacketOwned)
        requires
            old(self).wf(),
            timeval_fits(pkt.ts_sec, pkt.ts_usec),
            merge_fits(old(self).entries_of(pkt.flow@), pkt.encap_id, packet_stats(*pkt)),
        ensures
            final(self).wf(),
            final(self).flows() == old(self).flows().insert(
                pkt.flow@,
                merge_entry(old(self).entries_of(pkt.flow@), pkt.encap_id, packet_stats(*pkt)),
            ),
            entries_count(final(self).entries_of(pkt.flow@)) == entries_count(old(self).entries_of(pkt.flow@)) + 1,
            final(self).labels() == old(self).labels(),
            final(self).origins@ == old(self).origins@,
            final(self).link_type == old(self).link_type,
    {
        let ts = timeval_to_systemtime(pkt.ts_sec, pkt.ts_usec);
        let stats = FlowStats { count: 1, total_bytes: pkt.len as u64, last_seen: ts };
        proof {
            lemma_merge_entry_conserves(old(self).entries_of(pkt.flow@), pkt.encap_id, stats);
        }
        self.accumulate(&pkt.flow, pkt.encap_id, stats);
        assert(self.entries_of(pkt.flow@) == merge_entry(old(self).entries_of(pkt.flow@), pkt.encap_id, stats));
    }

    /// Merges an already aggregated row (matrix import): adds the counters
    /// into the entry of `(flow, tunnel)` if it exists, creates it otherwise.
    pub fn merge_row(&mut self, flow: FlowKey, encap_id: Option<u64>, stats: FlowStats)
        requires
            old(self).wf(),
            merge_fits(old(self).entries_of(flow@), encap_id, stats),
        ensures
            final(self).wf(),
            final(self).flows() == old(self).flows().insert(
                flow@,
                merge_entry(old(self).entries_of(flow@), encap_id, stats),
            ),
            entries_count(final(self).entries_of(flow@)) == entries_count(old(self).entries_of(flow@)) + stats.count,
            final(self).labels() == old(self).labels(),
            final(self).origins@ == old(self).origins@,
            final(self).link_type == old(self).link_type,
    {
        proof {
            lemma_merge_entry_conserves(old(self).entries_of(flow@), encap_id, stats);
        }
        self.accumulate(&flow, encap_id, stats);
        assert(self.entries_of(flow@) == merge_entry(old(self).entries_of(flow@), encap_id, stats));
    }

    /// Whether merging `stats` into `(flow, encap_id)` keeps the packet
    /// count of that entry within `u64` (the precondition of
    /// [`Self::merge_row`] and [`Self::update_flow`]).
    pub fn merge_fits_in(&self, flow: &FlowKey, encap_id: Option<u64>, stats: &FlowStats) -> (r: bool)
        requires
            self.wf(),
        ensures
            r == merge_fits(self.entries_of(flow@), encap_id, *stats),
    {
        match find_flow(&self.matrix, flow) {
            None => true,
            Some(i) => {
                let es = &self.matrix[i].1;
                assert(entry_ids_distinct(es@));
                assert(es@ == self.entries_of(flow@));
                let mut j: usize = 0;
                while j < es.len()
                    invariant
                        j <= es@.len(),
                        entry_ids_distinct(es@),
                        es@ == self.entries_of(flow@),
                        forall|k: int| 0 <= k < j ==> (#[trigger] es@[k]).0 != encap_id,
                    decreases es@.len() - j,
                {
                    if es[j].0 == encap_id {
                        proof {
                            lemma_entry_index_at(es@, j as int);
                        }
                        return es[j].1.count <= u64::MAX - stats.count;
                    }
                    j = j + 1;
                }
                true
            },
        }
    }
}


/// The names of `names` that are not blank, as a set.
pub open spec fn kept_names(names: Seq<String>) -> Set<Seq<char>> {
    Set::new(|t: Seq<char>| exists|i: int| 0 <= i < names.len() && (#[trigger] names[i])@ == t && trim(t).len() > 0)
}

impl FlowMatrix {
    /// The files of origin of each flow, as sets of names.
    pub open spec fn origin_sets(&self) -> Map<FlowKeySpec, Set<Seq<char>>> {
        Map::new(
            |k: FlowKeySpec| keyed_lookup(self.origins@, k) is Some,
            |k: FlowKeySpec| name_set(keyed_lookup(self.origins@, k)->0@),
        )
    }

    /// Names of origin of flow `k` (none for an unknown flow).
    pub open spec fn origins_of(&self, k: FlowKeySpec) -> Set<Seq<char>> {
        if self.origin_sets().contains_key(k) {
            self.origin_sets()[k]
        } else {
            Set::empty()
        }
    }

    /// Fixes the link type of the survey, or checks that a new source
    /// (`origin`) has the same one: a merge only concerns surveys of one
    /// network, hence of one link type.
    pub fn bind_link_type(&mut self, link_type: u32, origin: &str) -> (r: Result<(), SonarCoreError>)
        ensures
            final(self).matrix@ == old(self).matrix@,
            final(self).label@ == old(self).label@,
            final(self).origins@ == old(self).origins@,
            match old(self).link_type {
                None => r is Ok && final(self).link_type == Some(link_type),
                Some(existing) => final(self).link_type == old(self).link_type && if existing
                    == link_type {
                    r is Ok
                } else {
                    match r {
                        Err(SonarCoreError::MixedLinkTypes { path, found, expected }) => path@
                            == origin@ && found == link_type && expected == existing,
                        _ => false,
                    }
                },
            },
    {
        match self.link_type {
            None => {
                self.link_type = Some(link_type);
                Ok(())
            },
            Some(existing) => {
                if existing == link_type {
                    Ok(())
                } else {
                    Err(
                        SonarCoreError::MixedLinkTypes {
                            path: origin.to_owned(),
                            found: link_type,
                            expected: existing,
                        },
                    )
                }
            },
        }
    }

    /// The stored labels, in storage order.
    pub fn get_label_list(&self) -> (r: Vec<String>)
        ensures
            r@.len() == self.label@.len(),
            forall|i: int| 0 <= i < r@.len() ==> (#[trigger] r@[i])@ == self.label@[i].2@,
    {
        let mut r: Vec<String> = Vec::new();
        let mut i: usize = 0;
        while i < self.label.len()
            invariant
                i <= self.label@.len(),
                r@.len() == i,
                forall|j: int| 0 <= j < i ==> (#[trigger] r@[j])@ == self.label@[j].2@,
            decreases self.label@.len() - i,
        {
            r.push(self.label[i].2.clone());
            i = i + 1;
        }
        r
    }

    /// Records the files of origin of a flow (matrix import): the names add
    /// to those already known for it; blank names are ignored, and a list
    /// of blank names changes nothing.
    pub fn add_flow_origins(&mut self, flow: &FlowKey, origins: Vec<String>)
        requires
            old(self).wf(),
        ensures
            final(self).wf(),
            kept_names(origins@).is_empty() ==> final(self).origins@ == old(self).origins@,
            !kept_names(origins@).is_empty() ==> final(self).origin_sets() == old(
                self,
            ).origin_sets().insert(flow@, old(self).origins_of(flow@).union(kept_names(origins@))),
            final(self).matrix@ == old(self).matrix@,
            final(self).label@ == old(self).label@,
            final(self).link_type == old(self).link_type,
    {
        let ghost kept = kept_names(origins@);
        let mut any = false;
        let mut i: usize = 0;
        while i < origins.len()
            invariant
                i <= origins@.len(),
                any == exists|j: int| 0 <= j < i && trim((#[trigger] origins@[j])@).len() > 0,
            decreases origins@.len() - i,
        {
            if !is_blank(origins[i].as_str()) {
                any = true;
            }
            i = i + 1;
        }
        if !any {
            assert(kept =~= Set::<Seq<char>>::empty());
            return;
        }
        proof {
            let j = choose|j: int| 0 <= j < origins@.len() && trim((#[trigger] origins@[j])@).len() > 0;
            assert(kept.contains(origins@[j]@));
        }
        let ghost old_m = self.origins@;
        let ghost old_set = old(self).origins_of(flow@);
        let found = find_flow(&self.origins, flow);
        let (key, mut names) = match found {
            Some(k) => {
                assert(names_sorted(old_m[k as int].1@));
                self.origins.remove(k)
            },
            None => {
                assert(name_set(Seq::<String>::empty()) =~= Set::<Seq<char>>::empty());
                (flow.duplicate(), Vec::new())
            },
        };
        assert(name_set(names@) == old_set);
        assert(names_sorted(names@));
        let mut i: usize = 0;
        while i < origins.len()
            invariant
                i <= origins@.len(),
                names_sorted(names@),
                name_set(names@) == old_set.union(
                    Set::new(|t: Seq<char>| exists|j: int| 0 <= j < i && (#[trigger] origins@[j])@ == t && trim(t).len() > 0),
                ),
            decreases origins@.len() - i,
        {
            if !is_blank(origins[i].as_str()) {
                insert_name_sorted(&mut names, origins[i].clone());
            }
            i = i + 1;
        }
        assert(name_set(names@) =~= old_set.union(kept));
        let ghost v = names;
        let ghost new_val = (key, v);
        match found {
            Some(k) => {
                self.origins.insert(k, (key, names));
                proof {
                    assert(self.origins@ =~= old_m.update(k as int, new_val));
                    lemma_keyed_update(old_m, k as int, key, v);
                    assert forall|j: int| 0 <= j < self.origins@.len() implies names_sorted(#[trigger] self.origins@[j].1@) by {
                        if j != k {
                            assert(self.origins@[j] == old_m[j]);
                        }
                    }
                }
            },
            None => {
                proof {
                    lemma_keyed_push(old_m, key, v);
                }
                self.origins.push((key, names));
                proof {
                    assert forall|j: int| 0 <= j < self.origins@.len() implies names_sorted(#[trigger] self.origins@[j].1@) by {
                        if j < old_m.len() {
                            assert(self.origins@[j] == old_m[j]);
                        }
                    }
                }
            },
        }
        assert(self.origin_sets() =~= old(self).origin_sets().insert(flow@, old_set.union(kept)));
    }
}

} // verus!
