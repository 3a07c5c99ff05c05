//! The relation graph of the matrix view: one node per private or public IP
//! address, one edge per pair of addresses and network protocol, whichever
//! the direction, named `edgeN` when created.

use vstd::prelude::*;

use crate::packet_graph::{NodeSpec, Node, insert_node_if_absent, node_keys_distinct, node_map, with_node};
use crate::packet_key::{PacketKey, color_of, determine_color, graphable, is_valid_ip};
use crate::flow_matrix::opt_text;
use crate::text::{dec_digits, str_eq};

verus! {

/// An edge of the matrix graph.
#[derive(Debug)]
pub struct Edge {
    pub source: String,
    pub target: String,
    pub label: String,
}

/// Whether a named edge joins `a` and `b`, in either direction, with `label`.
pub open spec fn named_joins(e: (String, Edge), a: Seq<char>, b: Seq<char>, label: Seq<char>) -> bool {
    (e.1.source@ == a && e.1.target@ == b && e.1.label@ == label) || (e.1.source@ == b && e.1.target@ == a
        && e.1.label@ == label)
}

/// The graph data: nodes by address, edges by name.
#[derive(Debug)]
pub struct GraphData {
    pub nodes: Vec<(String, Node)>,
    pub edges: Vec<(String, Edge)>,
}

/// Builds the graph packet by packet.
#[derive(Debug)]
pub struct GraphBuilder {
    pub nodes: Vec<(String, Node)>,
    pub edges: Vec<(String, Edge)>,
    /// Number of the next edge.
    pub edge_counter: u32,
}

/// No two edges join the same two addresses, in either direction, with
/// the same label.
pub open spec fn edges_distinct(es: Seq<(String, Edge)>) -> bool {
    forall|i: int, j: int|
        0 <= i < j < es.len() ==> !named_joins(#[trigger] es[j], (#[trigger] es[i]).1.source@, es[i].1.target@, es[i].1.label@)
}

/// The text of a named edge: name, source, target, label.
pub open spec fn edge_text(e: (String, Edge)) -> (Seq<char>, Seq<char>, Seq<char>, Seq<char>) {
    (e.0@, e.1.source@, e.1.target@, e.1.label@)
}

impl GraphBuilder {
    /// Whether the packet adds a new edge: both its addresses are present
    /// and private or public, and no edge joins them yet with its label.
    pub open spec fn adds_edge(&self, packet: PacketKey) -> bool {
        let l3 = packet.layer_3_infos;
        &&& opt_text(l3.ip_source) is Some
        &&& opt_text(l3.ip_destination) is Some
        &&& graphable(l3.ip_source_type)
        &&& graphable(l3.ip_destination_type)
        &&& !exists|i: int| 0 <= i < self.edges@.len() && named_joins(
            #[trigger] self.edges@[i],
            opt_text(l3.ip_source)->0,
            opt_text(l3.ip_destination)->0,
            packet.l_3_protocol@,
        )
    }

    /// Well-formedness: one node per address.
    pub open spec fn wf(&self) -> bool {
        node_keys_distinct(self.nodes@)
    }

    /// An empty graph whose first edge is `edge1`.
    pub fn new() -> (r: GraphBuilder)
        ensures
            r.wf(),
            node_map(r.nodes@) == Map::<Seq<char>, NodeSpec>::empty(),
            r.edges@.len() == 0,
            r.edge_counter == 1,
    {
        let r = GraphBuilder { nodes: Vec::new(), edges: Vec::new(), edge_counter: 1 };
        assert(node_map(r.nodes@) =~= Map::<Seq<char>, NodeSpec>::empty());
        r
    }

    /// Whether an edge already joins `source_ip` and `target_ip` with
    /// `label`, in either direction.
    pub fn edge_exists(&self, source_ip: &String, target_ip: &String, label: &String) -> (r: bool)
        ensures
            r == exists|i: int| 0 <= i < self.edges@.len() && named_joins(#[trigger] self.edges@[i], source_ip@, target_ip@, label@),
    {
        let mut i: usize = 0;
        while i < self.edges.len()
            invariant
                i <= self.edges@.len(),
                forall|j: int| 0 <= j < i ==> !named_joins(#[trigger] self.edges@[j], source_ip@, target_ip@, label@),
            decreases self.edges@.len() - i,
        {
            let e = &self.edges[i].1;
            if (str_eq(e.source.as_str(), source_ip.as_str()) && str_eq(e.target.as_str(), target_ip.as_str()) && str_eq(e.label.as_str(), label.as_str()))
                || (str_eq(e.source.as_str(), target_ip.as_str()) && str_eq(e.target.as_str(), source_ip.as_str()) && str_eq(e.label.as_str(), label.as_str())) {
                assert(named_joins(self.edges@[i as int], source_ip@, target_ip@, label@));
                return true;
            }
            i = i + 1;
        }
        false
    }

    /// Adds a packet: when both its addresses are present and private or
    /// public, their nodes are created if absent, and an edge labelled by
    /// its network protocol is added, named `edgeN` with the next number,
    /// unless one already joins the two addresses with that label.
    pub fn add_edge(&mut self, packet: &PacketKey)
        requires
            old(self).wf(),
            old(self).adds_edge(*packet) ==> old(self).edge_counter < u32::MAX,
        ensures
            final(self).wf(),
            edges_distinct(old(self).edges@) ==> edges_distinct(final(self).edges@),
            ({
                let l3 = packet.layer_3_infos;
                let src = opt_text(l3.ip_source);
                let dst = opt_text(l3.ip_destination);
                if src is Some && dst is Some && graphable(l3.ip_source_type) && graphable(l3.ip_destination_type) {
                    let s = src->0;
                    let t = dst->0;
                    let label = packet.l_3_protocol@;
                    &&& node_map(final(self).nodes@) == with_node(
                        with_node(node_map(old(self).nodes@), s, NodeSpec { name: s, color: color_of(l3.ip_source_type), mac: packet.mac_address_source@ }),
                        t,
                        NodeSpec { name: t, color: color_of(l3.ip_destination_type), mac: packet.mac_address_destination@ },
                    )
                    &&& if exists|i: int| 0 <= i < old(self).edges@.len() && named_joins(#[trigger] old(self).edges@[i], s, t, label) {
                        final(self).edges@ == old(self).edges@ && final(self).edge_counter == old(self).edge_counter
                    } else {
                        &&& final(self).edges@.len() == old(self).edges@.len() + 1
                        &&& final(self).edges@.take(old(self).edges@.len() as int) == old(self).edges@
                        &&& edge_text(final(self).edges@.last()) == ("edge"@ + dec_digits(old(self).edge_counter as nat), s, t, label)
                        &&& final(self).edge_counter == old(self).edge_counter + 1
                    }
                } else {
                    &&& final(self).nodes@ == old(self).nodes@
                    &&& final(self).edges@ == old(self).edges@
                    &&& final(self).edge_counter == old(self).edge_counter
                }
            }),
    {
        let l3 = &packet.layer_3_infos;
        match (&l3.ip_source, &l3.ip_destination) {
            (Some(source_ip), Some(target_ip)) => {
                if !is_valid_ip(&l3.ip_source_type) || !is_valid_ip(&l3.ip_destination_type) {
                    return;
                }
                let source_node = Node {
                    name: source_ip.clone(),
                    color: determine_color(&l3.ip_source_type),
                    mac: packet.mac_address_source.clone(),
                };
                insert_node_if_absent(&mut self.nodes, source_ip, source_node);
                let target_node = Node {
                    name: target_ip.clone(),
                    color: determine_color(&l3.ip_destination_type),
                    mac: packet.mac_address_destination.clone(),
                };
                insert_node_if_absent(&mut self.nodes, target_ip, target_node);
                let label = &packet.l_3_protocol;
                if !self.edge_exists(source_ip, target_ip, label) {
                    let name = crate::text::concat2("edge", crate::error::decimal_text(self.edge_counter as u64).as_str());
                    let ghost before = self.edges@;
                    self.edges.push((name, Edge { source: source_ip.clone(), target: target_ip.clone(), label: label.clone() }));
                    assert(self.edges@.take(before.len() as int) =~= before);
                    proof {
                        if edges_distinct(before) {
                            assert forall|i: int, j: int| 0 <= i < j < self.edges@.len() implies !named_joins(
                                #[trigger] self.edges@[j],
                                (#[trigger] self.edges@[i]).1.source@,
                                self.edges@[i].1.target@,
                                self.edges@[i].1.label@,
                            ) by {
                                if j == before.len() {
                                    assert(self.edges@[i] == before[i]);
                                    if named_joins(self.edges@[j], before[i].1.source@, before[i].1.target@, before[i].1.label@) {
                                        assert(named_joins(before[i], source_ip@, target_ip@, label@));
                                    }
                                } else {
                                    assert(self.edges@[i] == before[i] && self.edges@[j] == before[j]);
                                }
                            }
                        }
                    }
                    self.edge_counter = self.edge_counter + 1;
                }
            },
            _ => {},
        }
    }

    /// The graph data: the nodes and the named edges.
    pub fn build_graph_data(self) -> (r: GraphData)
        ensures
            r.nodes@ == self.nodes@,
            r.edges@ == self.edges@,
    {
        GraphData { nodes: self.nodes, edges: self.edges }
    }
}

} // verus!
