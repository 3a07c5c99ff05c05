//! Tunnel accounting across the rows of a matrix: a tunneled packet is
//! counted in its tunnel once in the row of its outer flow and once in the
//! row of its inner flow, so that the packets the outer rows attribute to a
//! tunnel are those the inner rows attribute to it.

use vstd::prelude::*;

use crate::flow_matrix::{FlowKeySpec, entry_ids_distinct, entry_index, lemma_entry_index_at, merge_entry, merge_fits, merged_stats};
use crate::import::entries_in;
use crate::matrix::{FlowStats, TunnelEntry};

verus! {

/// Packets of tunnel `t` in the entries of a flow.
pub open spec fn tunnel_packets(es: Seq<TunnelEntry>, t: u64) -> nat {
    match entry_index(es, Some(t)) {
        Some(j) => es[j].1.count as nat,
        None => 0,
    }
}

/// Packets of tunnel `t` in the rows of the flows `ks`.
pub open spec fn tunnel_sum(f: Map<FlowKeySpec, Seq<TunnelEntry>>, ks: Seq<FlowKeySpec>, t: u64) -> nat
    decreases ks.len(),
{
    if ks.len() == 0 {
        0
    } else {
        tunnel_sum(f, ks.drop_last(), t) + tunnel_packets(entries_in(f, ks.last()), t)
    }
}

/// The flows once `stats` is counted in flow `k`, tunnel `encap`.
pub open spec fn counted(f: Map<FlowKeySpec, Seq<TunnelEntry>>, k: FlowKeySpec, encap: Option<u64>, stats: FlowStats) -> Map<
    FlowKeySpec,
    Seq<TunnelEntry>,
> {
    f.insert(k, merge_entry(entries_in(f, k), encap, stats))
}

/// A tunneled packet as the matrix counts it: the flow of its outer level,
/// the flow of its inner level, the tunnel that carries it, and what each
/// level contributes.
pub struct TunneledPacket {
    pub outer: FlowKeySpec,
    pub inner: FlowKeySpec,
    pub tunnel: u64,
    pub outer_stats: FlowStats,
    pub inner_stats: FlowStats,
}

/// The flows once the outer then the inner level of packet `p` are
/// counted.
pub open spec fn packet_counted(f: Map<FlowKeySpec, Seq<TunnelEntry>>, p: TunneledPacket) -> Map<FlowKeySpec, Seq<TunnelEntry>> {
    counted(counted(f, p.outer, Some(p.tunnel), p.outer_stats), p.inner, Some(p.tunnel), p.inner_stats)
}

/// The flows once the packets `ps` are counted in order.
pub open spec fn packets_counted(f: Map<FlowKeySpec, Seq<TunnelEntry>>, ps: Seq<TunneledPacket>) -> Map<FlowKeySpec, Seq<TunnelEntry>>
    decreases ps.len(),
{
    if ps.len() == 0 {
        f
    } else {
        packet_counted(packets_counted(f, ps.drop_last()), ps.last())
    }
}

/// No count overflows while the packets `ps` are counted in order (the
/// condition under which the matrix counts each of them).
pub open spec fn packets_fit(f: Map<FlowKeySpec, Seq<TunnelEntry>>, ps: Seq<TunneledPacket>) -> bool
    decreases ps.len(),
{
    if ps.len() == 0 {
        true
    } else {
        let g = packets_counted(f, ps.drop_last());
        let p = ps.last();
        &&& packets_fit(f, ps.drop_last())
        &&& merge_fits(entries_in(g, p.outer), Some(p.tunnel), p.outer_stats)
        &&& merge_fits(entries_in(counted(g, p.outer, Some(p.tunnel), p.outer_stats), p.inner), Some(p.tunnel), p.inner_stats)
    }
}

/// Every flow has its entries for distinct tunnels.
pub open spec fn ids_distinct_everywhere(f: Map<FlowKeySpec, Seq<TunnelEntry>>) -> bool {
    forall|k: FlowKeySpec| #[trigger] entry_ids_distinct(entries_in(f, k))
}

/// Counting into tunnel `encap` adds the packets to that tunnel, leaves
/// the other tunnels as they were, and keeps the tunnels distinct.
proof fn lemma_merge_entry_tunnels(es: Seq<TunnelEntry>, encap: Option<u64>, stats: FlowStats)
    requires
        entry_ids_distinct(es),
        merge_fits(es, encap, stats),
    ensures
        entry_ids_distinct(merge_entry(es, encap, stats)),
        forall|u: u64| #[trigger] tunnel_packets(merge_entry(es, encap, stats), u) == tunnel_packets(es, u) + if encap == Some(u) {
            stats.count as nat
        } else {
            0
        },
{
    let r = merge_entry(es, encap, stats);
    match entry_index(es, encap) {
        Some(j) => {
            assert(es[j].0 == encap);
            assert(r == es.update(j, (encap, merged_stats(es[j].1, stats))));
            assert forall|a: int, b: int| 0 <= a < b < r.len() implies (#[trigger] r[a].0) != (#[trigger] r[b].0) by {
                assert(es[a].0 != es[b].0);
            }
            assert forall|u: u64| #[trigger] tunnel_packets(r, u) == tunnel_packets(es, u) + if encap == Some(u) {
                stats.count as nat
            } else {
                0
            } by {
                if exists|x: int| 0 <= x < es.len() && (#[trigger] es[x]).0 == Some(u) {
                    let x = choose|x: int| 0 <= x < es.len() && (#[trigger] es[x]).0 == Some(u);
                    lemma_entry_index_at(es, x);
                    lemma_entry_index_at(r, x);
                } else {
                    assert forall|x: int| 0 <= x < r.len() implies (#[trigger] r[x]).0 != Some(u) by {
                        assert(r[x].0 == es[x].0);
                    }
                }
            }
        },
        None => {
            assert(r == es.push((encap, stats)));
            assert forall|a: int, b: int| 0 <= a < b < r.len() implies (#[trigger] r[a].0) != (#[trigger] r[b].0) by {
                if b < es.len() {
                    assert(es[a].0 != es[b].0);
                } else {
                    assert(r[a] == es[a]);
                }
            }
            assert forall|u: u64| #[trigger] tunnel_packets(r, u) == tunnel_packets(es, u) + if encap == Some(u) {
                stats.count as nat
            } else {
                0
            } by {
                let last = es.len() as int;
                if encap == Some(u) {
                    lemma_entry_index_at(r, last);
                } else {
                    if exists|x: int| 0 <= x < es.len() && (#[trigger] es[x]).0 == Some(u) {
                        let x = choose|x: int| 0 <= x < es.len() && (#[trigger] es[x]).0 == Some(u);
                        lemma_entry_index_at(es, x);
                        assert(r[x] == es[x]);
                        lemma_entry_index_at(r, x);
                    } else {
                        assert forall|x: int| 0 <= x < r.len() implies (#[trigger] r[x]).0 != Some(u) by {
                            if x < es.len() {
                                assert(r[x] == es[x]);
                            }
                        }
                    }
                }
            }
        },
    }
}

/// Changing the entries of a flow that `ks` does not name leaves the sum
/// over `ks` unchanged.
proof fn lemma_sum_other_flow(f: Map<FlowKeySpec, Seq<TunnelEntry>>, ks: Seq<FlowKeySpec>, t: u64, k: FlowKeySpec, v: Seq<TunnelEntry>)
    requires
        !ks.contains(k),
    ensures
        tunnel_sum(f.insert(k, v), ks, t) == tunnel_sum(f, ks, t),
    decreases ks.len(),
{
    if ks.len() > 0 {
        assert(!ks.drop_last().contains(k)) by {
            if ks.drop_last().contains(k) {
                let x = choose|x: int| 0 <= x < ks.drop_last().len() && ks.drop_last()[x] == k;
                assert(ks[x] == k);
            }
        }
        lemma_sum_other_flow(f, ks.drop_last(), t, k, v);
        assert(ks.last() != k) by {
            assert(ks[ks.len() - 1] == ks.last());
        }
        assert(entries_in(f.insert(k, v), ks.last()) == entries_in(f, ks.last()));
    }
}

/// Adding `c` packets of tunnel `t` to one flow that `ks` names once adds
/// `c` to the sum over `ks`.
proof fn lemma_sum_one_flow(
    f: Map<FlowKeySpec, Seq<TunnelEntry>>,
    ks: Seq<FlowKeySpec>,
    t: u64,
    k: FlowKeySpec,
    v: Seq<TunnelEntry>,
)
    requires
        ks.no_duplicates(),
        ks.contains(k),
    ensures
        tunnel_sum(f.insert(k, v), ks, t) == tunnel_sum(f, ks, t) + tunnel_packets(v, t) - tunnel_packets(entries_in(f, k), t),
    decreases ks.len(),
{
    let init = ks.drop_last();
    assert(init.no_duplicates()) by {
        assert forall|a: int, b: int| 0 <= a < init.len() && 0 <= b < init.len() && a != b implies init[a] != init[b] by {
            assert(init[a] == ks[a] && init[b] == ks[b]);
        }
    }
    if ks.last() == k {
        assert(!init.contains(k)) by {
            if init.contains(k) {
                let x = choose|x: int| 0 <= x < init.len() && init[x] == k;
                assert(ks[x] == ks[ks.len() - 1]);
            }
        }
        lemma_sum_other_flow(f, init, t, k, v);
        assert(entries_in(f.insert(k, v), k) == v);
    } else {
        assert(init.contains(k)) by {
            let x = choose|x: int| 0 <= x < ks.len() && ks[x] == k;
            assert(x != ks.len() - 1);
            assert(init[x] == k);
        }
        lemma_sum_one_flow(f, init, t, k, v);
        assert(entries_in(f.insert(k, v), ks.last()) == entries_in(f, ks.last()));
    }
}

/// Counting into one flow changes the sum of tunnel `t` over `ks` by what
/// that flow gains in tunnel `t` if `ks` names it, and not at all otherwise.
proof fn lemma_sum_counted(
    f: Map<FlowKeySpec, Seq<TunnelEntry>>,
    ks: Seq<FlowKeySpec>,
    t: u64,
    k: FlowKeySpec,
    encap: Option<u64>,
    stats: FlowStats,
)
    requires
        ks.no_duplicates(),
        ids_distinct_everywhere(f),
        merge_fits(entries_in(f, k), encap, stats),
    ensures
        ids_distinct_everywhere(counted(f, k, encap, stats)),
        tunnel_sum(counted(f, k, encap, stats), ks, t) == tunnel_sum(f, ks, t) + if ks.contains(k) && encap == Some(t) {
            stats.count as nat
        } else {
            0
        },
{
    let es = entries_in(f, k);
    let v = merge_entry(es, encap, stats);
    assert(entry_ids_distinct(es));
    lemma_merge_entry_tunnels(es, encap, stats);
    assert(tunnel_packets(v, t) == tunnel_packets(es, t) + if encap == Some(t) { stats.count as nat } else { 0 });
    let g = counted(f, k, encap, stats);
    assert forall|q: FlowKeySpec| #[trigger] entry_ids_distinct(entries_in(g, q)) by {
        if q != k {
            assert(entries_in(g, q) == entries_in(f, q));
        } else {
            assert(entries_in(g, q) == v);
        }
    }
    if ks.contains(k) {
        lemma_sum_one_flow(f, ks, t, k, v);
    } else {
        lemma_sum_other_flow(f, ks, t, k, v);
    }
}

/// Counting tunneled packets keeps the tunnel accounts balanced: when
/// every packet has its outer flow among `outer` and its inner flow among
/// `inner` (two lists of distinct flows with none in common), and both of
/// its levels count the same packets, the packets that the rows of
/// `outer` gain in any tunnel `t` are those the rows of `inner` gain in it.
pub proof fn lemma_tunnel_counts_balance(
    f: Map<FlowKeySpec, Seq<TunnelEntry>>,
    ps: Seq<TunneledPacket>,
    outer: Seq<FlowKeySpec>,
    inner: Seq<FlowKeySpec>,
    t: u64,
)
    requires
        outer.no_duplicates(),
        inner.no_duplicates(),
        outer.disjoint(inner),
        forall|i: int| 0 <= i < ps.len() ==> outer.contains((#[trigger] ps[i]).outer) && inner.contains(ps[i].inner)
            && ps[i].outer_stats.count == ps[i].inner_stats.count,
        ids_distinct_everywhere(f),
        packets_fit(f, ps),
    ensures
        ids_distinct_everywhere(packets_counted(f, ps)),
        tunnel_sum(packets_counted(f, ps), outer, t) - tunnel_sum(f, outer, t) == tunnel_sum(packets_counted(f, ps), inner, t)
            - tunnel_sum(f, inner, t),
    decreases ps.len(),
{
    if ps.len() > 0 {
        let init = ps.drop_last();
        assert forall|i: int| 0 <= i < init.len() implies outer.contains((#[trigger] init[i]).outer) && inner.contains(init[i].inner)
            && init[i].outer_stats.count == init[i].inner_stats.count by {
            assert(init[i] == ps[i]);
        }
        lemma_tunnel_counts_balance(f, init, outer, inner, t);
        let g = packets_counted(f, init);
        let p = ps.last();
        assert(outer.contains(ps[ps.len() - 1].outer));
        let g1 = counted(g, p.outer, Some(p.tunnel), p.outer_stats);
        lemma_sum_counted(g, outer, t, p.outer, Some(p.tunnel), p.outer_stats);
        lemma_sum_counted(g, inner, t, p.outer, Some(p.tunnel), p.outer_stats);
        lemma_sum_counted(g1, outer, t, p.inner, Some(p.tunnel), p.inner_stats);
        lemma_sum_counted(g1, inner, t, p.inner, Some(p.tunnel), p.inner_stats);
        assert(!inner.contains(p.outer)) by {
            if inner.contains(p.outer) {
                let a = choose|a: int| 0 <= a < outer.len() && outer[a] == p.outer;
                let b = choose|b: int| 0 <= b < inner.len() && inner[b] == p.outer;
            }
        }
        assert(!outer.contains(p.inner)) by {
            if outer.contains(p.inner) {
                let a = choose|a: int| 0 <= a < outer.len() && outer[a] == p.inner;
                let b = choose|b: int| 0 <= b < inner.len() && inner[b] == p.inner;
            }
        }
    }
}

} // verus!
