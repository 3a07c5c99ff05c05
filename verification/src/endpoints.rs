//! The endpoints a matrix observed, and the label file exported from it:
//! one label resolved per real endpoint, completed by the stored labels of
//! devices absent from the matrix.

use vstd::prelude::*;

use crate::flow_matrix::{opt_text, FlowKey, FlowKeySpec, FlowMatrix, label_lookup, lemma_label_lookup_at, resolve_label};
use crate::matrix::{is_non_unicast_mac, is_placeholder_ip, non_unicast_mac, placeholder_ip};
use crate::order::{
    contains_pair, contains_text, insert_name, insert_pair_sorted, insert_triple_sorted, name_set, pair_set, pair_view,
    pairs_sorted, triple_set, triples_sorted,
};

verus! {

/// The text of an optional address (empty when absent).
pub open spec fn text_or_empty(o: Option<Seq<char>>) -> Seq<char> {
    match o {
        Some(t) => t,
        None => Seq::empty(),
    }
}

/// Source IP of a flow, as text (empty without network layer).
pub open spec fn source_ip_text(k: FlowKeySpec) -> Seq<char> {
    match k.internet {
        Some(i) => text_or_empty(i.source_ip),
        None => Seq::empty(),
    }
}

/// Destination IP of a flow, as text (empty without network layer).
pub open spec fn destination_ip_text(k: FlowKeySpec) -> Seq<char> {
    match k.internet {
        Some(i) => text_or_empty(i.destination_ip),
        None => Seq::empty(),
    }
}

/// A real device: a unicast MAC and an IP that is not a placeholder, both
/// present.
pub open spec fn real_endpoint(mac: Seq<char>, ip: Seq<char>) -> bool {
    mac.len() > 0 && ip.len() > 0 && !non_unicast_mac(mac) && !placeholder_ip(ip)
}

/// `e` is the source or the destination `(mac, ip)` of flow `k`, and a real
/// device.
pub open spec fn flow_has_endpoint(k: FlowKeySpec, e: (Seq<char>, Seq<char>)) -> bool {
    &&& (e == (k.link.source_mac, source_ip_text(k)) || e == (k.link.destination_mac, destination_ip_text(k)))
    &&& real_endpoint(e.0, e.1)
}

/// The MAC of a stored label once a broadcast/multicast MAC is dropped.
pub open spec fn effective_mac(mac: Seq<char>) -> Seq<char> {
    if non_unicast_mac(mac) {
        Seq::empty()
    } else {
        mac
    }
}

/// The IP of a stored label once a placeholder IP is dropped.
pub open spec fn effective_ip(ip: Seq<char>) -> Seq<char> {
    if placeholder_ip(ip) {
        Seq::empty()
    } else {
        ip
    }
}

/// Source IP of a flow, as text.
pub fn source_ip_text_of(k: &FlowKey) -> (r: String)
    ensures
        r@ == source_ip_text(k@),
{
    proof {
        reveal_strlit("");
    }
    match &k.internet {
        Some(i) => match &i.source_ip {
            Some(t) => t.clone(),
            None => String::new(),
        },
        None => String::new(),
    }
}

/// Destination IP of a flow, as text.
pub fn destination_ip_text_of(k: &FlowKey) -> (r: String)
    ensures
        r@ == destination_ip_text(k@),
{
    match &k.internet {
        Some(i) => match &i.destination_ip {
            Some(t) => t.clone(),
            None => String::new(),
        },
        None => String::new(),
    }
}

fn is_real_endpoint(mac: &str, ip: &str) -> (r: bool)
    ensures
        r == real_endpoint(mac@, ip@),
{
    !mac.is_empty() && !ip.is_empty() && !is_non_unicast_mac(mac) && !is_placeholder_ip(ip)
}

impl FlowMatrix {
    /// The real devices seen in the matrix: the `(mac, ip)` ends of its
    /// flows that are real endpoints.
    pub open spec fn endpoints(&self) -> Set<(Seq<char>, Seq<char>)> {
        Set::new(
            |e: (Seq<char>, Seq<char>)|
                exists|k: FlowKeySpec| self.flows().contains_key(k) && #[trigger] flow_has_endpoint(k, e),
        )
    }

    /// Real endpoints observed in the matrix: pairs (unicast MAC, IP that is
    /// not a placeholder), sorted, without repetition.
    pub fn observed_endpoints(&self) -> (r: Vec<(String, String)>)
        ensures
            pairs_sorted(r@),
            pair_set(r@) == self.endpoints(),
    {
        let mut out: Vec<(String, String)> = Vec::new();
        let mut i: usize = 0;
        while i < self.matrix.len()
            invariant
                i <= self.matrix@.len(),
                pairs_sorted(out@),
                pair_set(out@) == Set::new(
                    |e: (Seq<char>, Seq<char>)|
                        exists|j: int| 0 <= j < i && #[trigger] flow_has_endpoint(self.matrix@[j].0@, e),
                ),
            decreases self.matrix@.len() - i,
        {
            let ghost before = pair_set(out@);
            let key = &self.matrix[i].0;
            let src_ip = source_ip_text_of(key);
            let dst_ip = destination_ip_text_of(key);
            let src = (key.link.source_mac.clone(), src_ip);
            let dst = (key.link.destination_mac.clone(), dst_ip);
            let ghost sv = pair_view(src);
            let ghost dv = pair_view(dst);
            let src_real = is_real_endpoint(src.0.as_str(), src.1.as_str());
            let dst_real = is_real_endpoint(dst.0.as_str(), dst.1.as_str());
            if src_real {
                insert_pair_sorted(&mut out, src);
            }
            if dst_real {
                insert_pair_sorted(&mut out, dst);
            }
            let ghost k = self.matrix@[i as int].0@;
            assert(pair_set(out@) =~= Set::new(
                |e: (Seq<char>, Seq<char>)|
                    exists|j: int| 0 <= j < i + 1 && #[trigger] flow_has_endpoint(self.matrix@[j].0@, e),
            )) by {
                assert forall|e: (Seq<char>, Seq<char>)| #[trigger] pair_set(out@).contains(e) implies exists|j: int|
                    0 <= j < i + 1 && #[trigger] flow_has_endpoint(self.matrix@[j].0@, e) by {
                    if !before.contains(e) {
                        assert(flow_has_endpoint(self.matrix@[i as int].0@, e));
                    }
                }
                assert forall|e: (Seq<char>, Seq<char>)| (exists|j: int|
                    0 <= j < i + 1 && #[trigger] flow_has_endpoint(self.matrix@[j].0@, e)) implies #[trigger] pair_set(out@).contains(e) by {
                    let j = choose|j: int| 0 <= j < i + 1 && #[trigger] flow_has_endpoint(self.matrix@[j].0@, e);
                    if j < i {
                        assert(before.contains(e));
                    }
                }
            }
            i = i + 1;
        }
        assert(pair_set(out@) =~= self.endpoints()) by {
            assert forall|e: (Seq<char>, Seq<char>)| #[trigger] pair_set(out@).contains(e) implies self.endpoints().contains(e) by {
                let j = choose|j: int| 0 <= j < self.matrix@.len() && #[trigger] flow_has_endpoint(self.matrix@[j].0@, e);
                assert(self.flows().contains_key(self.matrix@[j].0@));
            }
            assert forall|e: (Seq<char>, Seq<char>)| self.endpoints().contains(e) implies #[trigger] pair_set(out@).contains(e) by {
                let k = choose|k: FlowKeySpec| self.flows().contains_key(k) && #[trigger] flow_has_endpoint(k, e);
                let j = choose|j: int| 0 <= j < self.matrix@.len() && (#[trigger] self.matrix@[j].0@) == k;
                assert(flow_has_endpoint(self.matrix@[j].0@, e));
            }
        }
        out
    }
}


impl FlowMatrix {
    /// Whether some observed endpoint with this IP has a label.
    pub open spec fn ip_covered(&self, ip: Seq<char>) -> bool {
        exists|mac: Seq<char>| #[trigger] self.endpoints().contains((mac, ip)) && resolve_label(self.labels(), mac, ip) is Some
    }

    /// Whether some observed endpoint with this MAC has a label.
    pub open spec fn mac_covered(&self, mac: Seq<char>) -> bool {
        exists|ip: Seq<char>| #[trigger] self.endpoints().contains((mac, ip)) && resolve_label(self.labels(), mac, ip) is Some
    }

    /// Row `t` of the export comes from the stored label `l` of key `k`: the
    /// key once cleared of a non-unicast MAC and a placeholder IP, kept when
    /// the endpoints do not already give it a label.
    pub open spec fn stored_label_row(&self, k: (Seq<char>, Seq<char>), l: Seq<char>, t: (Seq<char>, Seq<char>, Seq<char>)) -> bool {
        let m = effective_mac(k.0);
        let i = effective_ip(k.1);
        if m.len() > 0 && i.len() > 0 {
            !self.endpoints().contains((m, i)) && t == (m, i, l)
        } else if i.len() > 0 {
            !self.ip_covered(i) && t == (m, i, l)
        } else if m.len() > 0 {
            !self.mac_covered(m) && t == (m, i, l)
        } else {
            false
        }
    }

    /// The rows of the exported label file: the label resolved for each
    /// observed endpoint, then the stored labels of devices absent from the
    /// matrix.
    pub open spec fn export_label_rows(&self) -> Set<(Seq<char>, Seq<char>, Seq<char>)> {
        Set::new(
            |t: (Seq<char>, Seq<char>, Seq<char>)|
                (self.endpoints().contains((t.0, t.1)) && resolve_label(self.labels(), t.0, t.1) == Some(t.2))
                || exists|k: (Seq<char>, Seq<char>)| #[trigger] self.labels().contains_key(k) && self.stored_label_row(k, self.labels()[k], t),
        )
    }

    /// Label rows `(mac, ip, label)` ready for export: one label resolved
    /// per real endpoint of the matrix (the same precedence as
    /// [`Self::get_label`], exact > IP only > MAC only), so that partial
    /// labels are completed without two labels for one key; then the stored
    /// labels that match no current endpoint, their placeholder fields
    /// cleared. Sorted, without repetition.
    pub fn export_labels(&self) -> (r: Vec<(String, String, String)>)
        requires
            self.wf(),
        ensures
            triples_sorted(r@),
            triple_set(r@) == self.export_label_rows(),
    {
        let endpoints = self.observed_endpoints();
        let ghost eps = self.endpoints();
        let mut rows: Vec<(String, String, String)> = Vec::new();
        let mut covered_ips: Vec<String> = Vec::new();
        let mut covered_macs: Vec<String> = Vec::new();
        let mut i: usize = 0;
        while i < endpoints.len()
            invariant
                self.wf(),
                i <= endpoints@.len(),
                pair_set(endpoints@) == eps,
                eps == self.endpoints(),
                triples_sorted(rows@),
                triple_set(rows@) == Set::new(
                    |t: (Seq<char>, Seq<char>, Seq<char>)|
                        exists|j: int| 0 <= j < i && #[trigger] pair_view(endpoints@[j]) == (t.0, t.1)
                            && resolve_label(self.labels(), t.0, t.1) == Some(t.2),
                ),
                name_set(covered_ips@) == Set::new(
                    |ip: Seq<char>|
                        exists|j: int| 0 <= j < i && (#[trigger] endpoints@[j]).1@ == ip
                            && resolve_label(self.labels(), endpoints@[j].0@, ip) is Some,
                ),
                name_set(covered_macs@) == Set::new(
                    |mac: Seq<char>|
                        exists|j: int| 0 <= j < i && (#[trigger] endpoints@[j]).0@ == mac
                            && resolve_label(self.labels(), mac, endpoints@[j].1@) is Some,
                ),
            decreases endpoints@.len() - i,
        {
            let ghost rows_before = triple_set(rows@);
            let ghost ips_before = name_set(covered_ips@);
            let ghost macs_before = name_set(covered_macs@);
            let ghost ep = pair_view(endpoints@[i as int]);
            let mac = &endpoints[i].0;
            let ip = &endpoints[i].1;
            match self.get_label(mac.as_str(), ip.as_str()) {
                Some(label) => {
                    let ghost lv = label@;
                    insert_triple_sorted(&mut rows, (mac.clone(), ip.clone(), label));
                    insert_name(&mut covered_ips, ip.clone());
                    insert_name(&mut covered_macs, mac.clone());
                    assert(triple_set(rows@) =~= Set::new(
                        |t: (Seq<char>, Seq<char>, Seq<char>)|
                            exists|j: int| 0 <= j < i + 1 && #[trigger] pair_view(endpoints@[j]) == (t.0, t.1)
                                && resolve_label(self.labels(), t.0, t.1) == Some(t.2),
                    )) by {
                        assert forall|t: (Seq<char>, Seq<char>, Seq<char>)| #[trigger] triple_set(rows@).contains(t) implies exists|j: int|
                            0 <= j < i + 1 && #[trigger] pair_view(endpoints@[j]) == (t.0, t.1)
                                && resolve_label(self.labels(), t.0, t.1) == Some(t.2) by {
                            if !rows_before.contains(t) {
                                assert(pair_view(endpoints@[i as int]) == (t.0, t.1));
                            }
                        }
                        assert forall|t: (Seq<char>, Seq<char>, Seq<char>)| (exists|j: int|
                            0 <= j < i + 1 && #[trigger] pair_view(endpoints@[j]) == (t.0, t.1)
                                && resolve_label(self.labels(), t.0, t.1) == Some(t.2)) implies #[trigger] triple_set(rows@).contains(t) by {
                            let j = choose|j: int| 0 <= j < i + 1 && #[trigger] pair_view(endpoints@[j]) == (t.0, t.1)
                                && resolve_label(self.labels(), t.0, t.1) == Some(t.2);
                            if j < i {
                                assert(rows_before.contains(t));
                            }
                        }
                    }
                    assert(name_set(covered_ips@) =~= Set::new(
                        |x: Seq<char>|
                            exists|j: int| 0 <= j < i + 1 && (#[trigger] endpoints@[j]).1@ == x
                                && resolve_label(self.labels(), endpoints@[j].0@, x) is Some,
                    ));
                    assert(name_set(covered_macs@) =~= Set::new(
                        |x: Seq<char>|
                            exists|j: int| 0 <= j < i + 1 && (#[trigger] endpoints@[j]).0@ == x
                                && resolve_label(self.labels(), x, endpoints@[j].1@) is Some,
                    ));
                },
                None => {
                    assert(triple_set(rows@) =~= Set::new(
                        |t: (Seq<char>, Seq<char>, Seq<char>)|
                            exists|j: int| 0 <= j < i + 1 && #[trigger] pair_view(endpoints@[j]) == (t.0, t.1)
                                && resolve_label(self.labels(), t.0, t.1) == Some(t.2),
                    )) by {
                        assert forall|t: (Seq<char>, Seq<char>, Seq<char>)| (exists|j: int|
                            0 <= j < i + 1 && #[trigger] pair_view(endpoints@[j]) == (t.0, t.1)
                                && resolve_label(self.labels(), t.0, t.1) == Some(t.2)) implies #[trigger] triple_set(rows@).contains(t) by {
                            let j = choose|j: int| 0 <= j < i + 1 && #[trigger] pair_view(endpoints@[j]) == (t.0, t.1)
                                && resolve_label(self.labels(), t.0, t.1) == Some(t.2);
                            if j < i {
                                assert(rows_before.contains(t));
                            }
                        }
                    }
                    assert(name_set(covered_ips@) =~= Set::new(
                        |x: Seq<char>|
                            exists|j: int| 0 <= j < i + 1 && (#[trigger] endpoints@[j]).1@ == x
                                && resolve_label(self.labels(), endpoints@[j].0@, x) is Some,
                    ));
                    assert(name_set(covered_macs@) =~= Set::new(
                        |x: Seq<char>|
                            exists|j: int| 0 <= j < i + 1 && (#[trigger] endpoints@[j]).0@ == x
                                && resolve_label(self.labels(), x, endpoints@[j].1@) is Some,
                    ));
                },
            }
            i = i + 1;
        }
        let ghost r1 = triple_set(rows@);
        assert(r1 =~= Set::new(
            |t: (Seq<char>, Seq<char>, Seq<char>)|
                self.endpoints().contains((t.0, t.1)) && resolve_label(self.labels(), t.0, t.1) == Some(t.2),
        )) by {
            assert forall|t: (Seq<char>, Seq<char>, Seq<char>)| self.endpoints().contains((t.0, t.1))
                && resolve_label(self.labels(), t.0, t.1) == Some(t.2) implies r1.contains(t) by {
                assert(pair_set(endpoints@).contains((t.0, t.1)));
                let j = choose|j: int| 0 <= j < endpoints@.len() && #[trigger] pair_view(endpoints@[j]) == (t.0, t.1);
            }
            assert forall|t: (Seq<char>, Seq<char>, Seq<char>)| r1.contains(t) implies self.endpoints().contains((t.0, t.1)) by {
                let j = choose|j: int| 0 <= j < endpoints@.len() && #[trigger] pair_view(endpoints@[j]) == (t.0, t.1)
                    && resolve_label(self.labels(), t.0, t.1) == Some(t.2);
                assert(pair_set(endpoints@).contains(pair_view(endpoints@[j])));
            }
        }
        assert forall|x: Seq<char>| name_set(covered_ips@).contains(x) == self.ip_covered(x) by {
            if name_set(covered_ips@).contains(x) {
                let j = choose|j: int| 0 <= j < endpoints@.len() && (#[trigger] endpoints@[j]).1@ == x
                    && resolve_label(self.labels(), endpoints@[j].0@, x) is Some;
                assert(pair_set(endpoints@).contains(pair_view(endpoints@[j])));
                assert(self.endpoints().contains((endpoints@[j].0@, x)));
            }
            if self.ip_covered(x) {
                let mac = choose|mac: Seq<char>| #[trigger] self.endpoints().contains((mac, x)) && resolve_label(self.labels(), mac, x) is Some;
                assert(pair_set(endpoints@).contains((mac, x)));
                let j = choose|j: int| 0 <= j < endpoints@.len() && #[trigger] pair_view(endpoints@[j]) == (mac, x);
                assert(endpoints@[j].1@ == x);
            }
        }
        assert forall|x: Seq<char>| name_set(covered_macs@).contains(x) == self.mac_covered(x) by {
            if name_set(covered_macs@).contains(x) {
                let j = choose|j: int| 0 <= j < endpoints@.len() && (#[trigger] endpoints@[j]).0@ == x
                    && resolve_label(self.labels(), x, endpoints@[j].1@) is Some;
                assert(pair_set(endpoints@).contains(pair_view(endpoints@[j])));
                assert(self.endpoints().contains((x, endpoints@[j].1@)));
            }
            if self.mac_covered(x) {
                let ip = choose|ip: Seq<char>| #[trigger] self.endpoints().contains((x, ip)) && resolve_label(self.labels(), x, ip) is Some;
                assert(pair_set(endpoints@).contains((x, ip)));
                let j = choose|j: int| 0 <= j < endpoints@.len() && #[trigger] pair_view(endpoints@[j]) == (x, ip);
                assert(endpoints@[j].0@ == x);
            }
        }
        proof {
            reveal_strlit("");
        }
        let mut j: usize = 0;
        while j < self.label.len()
            invariant
                self.wf(),
                j <= self.label@.len(),
                pair_set(endpoints@) == self.endpoints(),
                triples_sorted(rows@),
                forall|x: Seq<char>| name_set(covered_ips@).contains(x) == self.ip_covered(x),
                forall|x: Seq<char>| name_set(covered_macs@).contains(x) == self.mac_covered(x),
                triple_set(rows@) == r1.union(Set::new(
                    |t: (Seq<char>, Seq<char>, Seq<char>)|
                        exists|n: int| 0 <= n < j && self.stored_label_row(
                            ((#[trigger] self.label@[n]).0@, self.label@[n].1@),
                            self.label@[n].2@,
                            t,
                        ),
                )),
            decreases self.label@.len() - j,
        {
            let ghost before = triple_set(rows@);
            let ghost key = (self.label@[j as int].0@, self.label@[j as int].1@);
            let ghost lv = self.label@[j as int].2@;
            let entry = &self.label[j];
            proof {
                reveal_strlit("");
                assert(""@ =~= Seq::<char>::empty());
            }
            let m: &str = if is_non_unicast_mac(entry.0.as_str()) {
                ""
            } else {
                entry.0.as_str()
            };
            let ip: &str = if is_placeholder_ip(entry.1.as_str()) {
                ""
            } else {
                entry.1.as_str()
            };
            assert(m@ == effective_mac(key.0));
            assert(ip@ == effective_ip(key.1));
            let keep = if !m.is_empty() && !ip.is_empty() {
                !contains_pair(&endpoints, m, ip)
            } else if !ip.is_empty() {
                !contains_text(&covered_ips, ip)
            } else if !m.is_empty() {
                !contains_text(&covered_macs, m)
            } else {
                false
            };
            let ghost row = (m@, ip@, lv);
            assert(keep == self.stored_label_row(key, lv, row));
            assert(forall|t: (Seq<char>, Seq<char>, Seq<char>)| self.stored_label_row(key, lv, t) ==> t == row);
            if keep {
                insert_triple_sorted(&mut rows, (m.to_owned(), ip.to_owned(), entry.2.clone()));
            }
            assert(triple_set(rows@) =~= r1.union(Set::new(
                |t: (Seq<char>, Seq<char>, Seq<char>)|
                    exists|n: int| 0 <= n < j + 1 && self.stored_label_row(
                        ((#[trigger] self.label@[n]).0@, self.label@[n].1@),
                        self.label@[n].2@,
                        t,
                    ),
            ))) by {
                assert forall|t: (Seq<char>, Seq<char>, Seq<char>)| triple_set(rows@).contains(t) implies r1.union(Set::new(
                    |t: (Seq<char>, Seq<char>, Seq<char>)|
                        exists|n: int| 0 <= n < j + 1 && self.stored_label_row(
                            ((#[trigger] self.label@[n]).0@, self.label@[n].1@),
                            self.label@[n].2@,
                            t,
                        ),
                )).contains(t) by {
                    if !before.contains(t) {
                        assert(self.stored_label_row(((self.label@[j as int]).0@, self.label@[j as int].1@), self.label@[j as int].2@, t));
                    } else if !r1.contains(t) {
                        let n = choose|n: int| 0 <= n < j && self.stored_label_row(
                            ((#[trigger] self.label@[n]).0@, self.label@[n].1@),
                            self.label@[n].2@,
                            t,
                        );
                        assert(0 <= n < j + 1);
                    }
                }
                assert forall|t: (Seq<char>, Seq<char>, Seq<char>)| r1.union(Set::new(
                    |t: (Seq<char>, Seq<char>, Seq<char>)|
                        exists|n: int| 0 <= n < j + 1 && self.stored_label_row(
                            ((#[trigger] self.label@[n]).0@, self.label@[n].1@),
                            self.label@[n].2@,
                            t,
                        ),
                )).contains(t) implies triple_set(rows@).contains(t) by {
                    if !r1.contains(t) {
                        let n = choose|n: int| 0 <= n < j + 1 && self.stored_label_row(
                            ((#[trigger] self.label@[n]).0@, self.label@[n].1@),
                            self.label@[n].2@,
                            t,
                        );
                        if n < j {
                            assert(before.contains(t));
                        }
                    }
                }
            }
            j = j + 1;
        }
        assert(triple_set(rows@) =~= self.export_label_rows()) by {
            let s2 = Set::new(
                |t: (Seq<char>, Seq<char>, Seq<char>)|
                    exists|n: int| 0 <= n < self.label@.len() && self.stored_label_row(
                        ((#[trigger] self.label@[n]).0@, self.label@[n].1@),
                        self.label@[n].2@,
                        t,
                    ),
            );
            assert forall|t: (Seq<char>, Seq<char>, Seq<char>)| s2.contains(t) == (exists|k: (Seq<char>, Seq<char>)|
                #[trigger] self.labels().contains_key(k) && self.stored_label_row(k, self.labels()[k], t)) by {
                if s2.contains(t) {
                    let n = choose|n: int| 0 <= n < self.label@.len() && self.stored_label_row(
                        ((#[trigger] self.label@[n]).0@, self.label@[n].1@),
                        self.label@[n].2@,
                        t,
                    );
                    lemma_label_lookup_at(self.label@, n);
                    let k = (self.label@[n].0@, self.label@[n].1@);
                    assert(self.labels().contains_key(k));
                }
                if exists|k: (Seq<char>, Seq<char>)| #[trigger] self.labels().contains_key(k) && self.stored_label_row(k, self.labels()[k], t) {
                    let k = choose|k: (Seq<char>, Seq<char>)| #[trigger] self.labels().contains_key(k) && self.stored_label_row(k, self.labels()[k], t);
                    assert(label_lookup(self.label@, k.0, k.1) is Some);
                    let n = choose|n: int| 0 <= n < self.label@.len() && (#[trigger] self.label@[n].0@, self.label@[n].1@) == (k.0, k.1);
                    lemma_label_lookup_at(self.label@, n);
                    assert(self.stored_label_row(((self.label@[n]).0@, self.label@[n].1@), self.label@[n].2@, t));
                }
            }
        }
        rows
    }
}

// ---------------------------------------------------------------------------
// Observed or dormant labels
// ---------------------------------------------------------------------------

/// A stored label with whether the current matrix observes its key.
#[derive(Debug)]
pub struct LabelRowStatus {
    pub mac: String,
    pub ip: String,
    pub label: String,
    pub observed: bool,
}

/// Whether a label key matches an observed endpoint: the exact pair for a
/// full key, the MAC alone or the IP alone for a partial key, nothing for
/// an empty key.
pub open spec fn key_observed(eps: Set<(Seq<char>, Seq<char>)>, mac: Seq<char>, ip: Seq<char>) -> bool {
    if mac.len() > 0 && ip.len() > 0 {
        eps.contains((mac, ip))
    } else if mac.len() > 0 {
        exists|e: (Seq<char>, Seq<char>)| eps.contains(e) && e.0 == mac
    } else if ip.len() > 0 {
        exists|e: (Seq<char>, Seq<char>)| eps.contains(e) && e.1 == ip
    } else {
        false
    }
}

/// Whether some pair of `v` has `a` as first (`first`) or second element.
fn some_pair_has(v: &Vec<(String, String)>, a: &str, first: bool) -> (r: bool)
    ensures
        r == exists|e: (Seq<char>, Seq<char>)| pair_set(v@).contains(e) && (if first {
            e.0 == a@
        } else {
            e.1 == a@
        }),
{
    let mut i: usize = 0;
    while i < v.len()
        invariant
            i <= v@.len(),
            forall|j: int| 0 <= j < i ==> (if first {
                (#[trigger] v@[j]).0@ != a@
            } else {
                v@[j].1@ != a@
            }),
        decreases v@.len() - i,
    {
        let hit = if first {
            crate::text::str_eq(v[i].0.as_str(), a)
        } else {
            crate::text::str_eq(v[i].1.as_str(), a)
        };
        if hit {
            assert(pair_set(v@).contains(pair_view(v@[i as int])));
            return true;
        }
        i = i + 1;
    }
    assert forall|e: (Seq<char>, Seq<char>)| pair_set(v@).contains(e) implies !(if first {
        e.0 == a@
    } else {
        e.1 == a@
    }) by {
        let j = choose|j: int| 0 <= j < v@.len() && pair_view(#[trigger] v@[j]) == e;
        assert(v@[j].0@ == e.0 && v@[j].1@ == e.1);
    }
    false
}

impl FlowMatrix {
    /// The stored labels, each marked observed when a real endpoint of the
    /// matrix matches its key (the exact pair, or the MAC alone or the IP
    /// alone for a partial label), dormant otherwise.
    pub fn labels_with_status(&self, labels: &[(String, String, String)]) -> (r: Vec<LabelRowStatus>)
        ensures
            r@.len() == labels@.len(),
            forall|i: int| 0 <= i < r@.len() ==> {
                let s = #[trigger] r@[i];
                &&& s.mac@ == labels@[i].0@
                &&& s.ip@ == labels@[i].1@
                &&& s.label@ == labels@[i].2@
                &&& s.observed == key_observed(self.endpoints(), labels@[i].0@, labels@[i].1@)
            },
    {
        let endpoints = self.observed_endpoints();
        let mut out: Vec<LabelRowStatus> = Vec::new();
        let mut i: usize = 0;
        while i < labels.len()
            invariant
                i <= labels@.len(),
                out@.len() == i,
                pair_set(endpoints@) == self.endpoints(),
                forall|j: int| 0 <= j < i ==> {
                    let s = #[trigger] out@[j];
                    &&& s.mac@ == labels@[j].0@
                    &&& s.ip@ == labels@[j].1@
                    &&& s.label@ == labels@[j].2@
                    &&& s.observed == key_observed(self.endpoints(), labels@[j].0@, labels@[j].1@)
                },
            decreases labels@.len() - i,
        {
            let (mac, ip, label) = (&labels[i].0, &labels[i].1, &labels[i].2);
            let observed = if !mac.as_str().is_empty() && !ip.as_str().is_empty() {
                contains_pair(&endpoints, mac.as_str(), ip.as_str())
            } else if !mac.as_str().is_empty() {
                some_pair_has(&endpoints, mac.as_str(), true)
            } else if !ip.as_str().is_empty() {
                some_pair_has(&endpoints, ip.as_str(), false)
            } else {
                false
            };
            out.push(LabelRowStatus { mac: mac.clone(), ip: ip.clone(), label: label.clone(), observed });
            i = i + 1;
        }
        out
    }
}

impl FlowMatrix {
    /// Labels of the two ends of a flow, each resolved by the label
    /// precedence on its MAC and IP (an end without IP uses the empty IP).
    pub fn flow_labels(&self, flow: &FlowKey) -> (r: (Option<String>, Option<String>))
        requires
            self.wf(),
        ensures
            opt_text(r.0) == resolve_label(self.labels(), flow@.link.source_mac, source_ip_text(flow@)),
            opt_text(r.1) == resolve_label(self.labels(), flow@.link.destination_mac, destination_ip_text(flow@)),
    {
        let source_ip = source_ip_text_of(flow);
        let destination_ip = destination_ip_text_of(flow);
        (
            self.get_label(flow.link.source_mac.as_str(), source_ip.as_str()),
            self.get_label(flow.link.destination_mac.as_str(), destination_ip.as_str()),
        )
    }
}

} // verus!
