//! The relation graph of captured packets: one node per private or public
//! IP address (the first packet naming it fixes its MAC and colour), one
//! edge per pair of addresses and protocol, whichever the direction.

use vstd::prelude::*;

use crate::flow_matrix::{copy_opt_text, opt_text};
use crate::packet_key::{PacketKey, color_of, determine_color, graphable, is_valid_ip};
use crate::text::{dec_digits, str_eq};

verus! {

/// A node of the graph.
#[derive(Debug)]
pub struct Node {
    pub name: String,
    pub color: String,
    pub mac: String,
}

/// An edge of the graph.
#[derive(Debug)]
pub struct Edge {
    pub source: String,
    pub target: String,
    pub label: String,
    pub source_port: Option<String>,
    pub destination_port: Option<String>,
}

/// Spec value of a node.
pub struct NodeSpec {
    pub name: Seq<char>,
    pub color: Seq<char>,
    pub mac: Seq<char>,
}

/// Spec value of an edge.
pub struct EdgeSpec {
    pub source: Seq<char>,
    pub target: Seq<char>,
    pub label: Seq<char>,
    pub source_port: Option<Seq<char>>,
    pub destination_port: Option<Seq<char>>,
}

impl View for Node {
    type V = NodeSpec;

    open spec fn view(&self) -> NodeSpec {
        NodeSpec { name: self.name@, color: self.color@, mac: self.mac@ }
    }
}

impl View for Edge {
    type V = EdgeSpec;

    open spec fn view(&self) -> EdgeSpec {
        EdgeSpec {
            source: self.source@,
            target: self.target@,
            label: self.label@,
            source_port: opt_text(self.source_port),
            destination_port: opt_text(self.destination_port),
        }
    }
}

/// The graph data sent to the front end: nodes by address, edges by name.
#[derive(Debug)]
pub struct GraphData {
    pub nodes: Vec<(String, Node)>,
    pub edges: Vec<(String, Edge)>,
}

/// Builds the graph packet by packet.
#[derive(Debug)]
pub struct GraphBuilder {
    pub nodes: Vec<(String, Node)>,
    pub edges: Vec<Edge>,
}

/// Whether no two nodes share their address.
pub open spec fn node_keys_distinct(s: Seq<(String, Node)>) -> bool {
    forall|i: int, j: int| 0 <= i < j < s.len() ==> (#[trigger] s[i].0@) != (#[trigger] s[j].0@)
}

/// The nodes as a map from address to node.
pub open spec fn node_map(s: Seq<(String, Node)>) -> Map<Seq<char>, NodeSpec> {
    Map::new(
        |k: Seq<char>| exists|i: int| 0 <= i < s.len() && (#[trigger] s[i].0@) == k,
        |k: Seq<char>| s[choose|i: int| 0 <= i < s.len() && (#[trigger] s[i].0@) == k].1@,
    )
}

/// The nodes once `k` is added with node `n` if absent.
pub open spec fn with_node(m: Map<Seq<char>, NodeSpec>, k: Seq<char>, n: NodeSpec) -> Map<Seq<char>, NodeSpec> {
    if m.contains_key(k) {
        m
    } else {
        m.insert(k, n)
    }
}

/// Whether an edge joins `a` and `b`, in either direction, with `label`.
pub open spec fn joins(e: EdgeSpec, a: Seq<char>, b: Seq<char>, label: Seq<char>) -> bool {
    (e.source == a && e.target == b && e.label == label) || (e.source == b && e.target == a && e.label == label)
}

/// The label of a packet's edge: its application protocol, else its
/// transport protocol, else its network protocol.
pub open spec fn edge_label(p: PacketKey) -> Seq<char> {
    match opt_text(p.layer_3_infos.layer_4_infos.l_7_protocol) {
        Some(l) => l,
        None => match opt_text(p.layer_3_infos.l_4_protocol) {
            Some(l) => l,
            None => p.l_3_protocol@,
        },
    }
}

/// Adds node `node` under address `key` unless a node has that address.
pub fn insert_node_if_absent(nodes: &mut Vec<(String, Node)>, key: &String, node: Node)
    requires
        node_keys_distinct(old(nodes)@),
    ensures
        node_keys_distinct(final(nodes)@),
        node_map(final(nodes)@) == with_node(node_map(old(nodes)@), key@, node@),
{
    let ghost old_s = nodes@;
    let mut i: usize = 0;
    while i < nodes.len()
        invariant
            i <= nodes@.len(),
            nodes@ == old_s,
            node_keys_distinct(old_s),
            forall|j: int| 0 <= j < i ==> (#[trigger] old_s[j].0@) != key@,
        decreases nodes@.len() - i,
    {
        if str_eq(nodes[i].0.as_str(), key.as_str()) {
            assert(node_map(old_s).contains_key(key@)) by {
                assert(old_s[i as int].0@ == key@);
            }
            return;
        }
        i = i + 1;
    }
    let ghost nv = node@;
    nodes.push((key.clone(), node));
    let ghost new_s = nodes@;
    assert(node_keys_distinct(new_s)) by {
        assert forall|a: int, b: int| 0 <= a < b < new_s.len() implies (#[trigger] new_s[a].0@) != (#[trigger] new_s[b].0@) by {
            assert(new_s[a] == old_s[a]);
            if b < old_s.len() {
                assert(new_s[b] == old_s[b]);
            }
        }
    }
    assert(!node_map(old_s).contains_key(key@));
    assert(node_map(new_s) =~= node_map(old_s).insert(key@, nv)) by {
        assert forall|k: Seq<char>| node_map(new_s).contains_key(k) == node_map(old_s).insert(key@, nv).contains_key(k) by {
            if node_map(new_s).contains_key(k) {
                let j = choose|j: int| 0 <= j < new_s.len() && (#[trigger] new_s[j].0@) == k;
                if j < old_s.len() {
                    assert(new_s[j] == old_s[j]);
                }
            }
            if node_map(old_s).contains_key(k) {
                let j = choose|j: int| 0 <= j < old_s.len() && (#[trigger] old_s[j].0@) == k;
                assert(new_s[j] == old_s[j]);
            }
            if k == key@ {
                assert(new_s[old_s.len() as int].0@ == k);
            }
        }
        assert forall|k: Seq<char>| #[trigger] node_map(new_s).contains_key(k) implies node_map(new_s)[k] == node_map(old_s).insert(key@, nv)[k] by {
            let c = choose|j: int| 0 <= j < new_s.len() && (#[trigger] new_s[j].0@) == k;
            if k == key@ {
                assert(c == old_s.len());
            } else {
                let d = choose|j: int| 0 <= j < old_s.len() && (#[trigger] old_s[j].0@) == k;
                assert(new_s[d] == old_s[d]);
                assert(c == d) by {
                    if c < d {
                        assert(new_s[c] == old_s[c]);
                    } else if c > d && c < old_s.len() {
                        assert(new_s[c] == old_s[c]);
                    }
                }
            }
        }
    }
}


impl GraphBuilder {
    /// The nodes, by address.
    pub open spec fn node_view(&self) -> Map<Seq<char>, NodeSpec> {
        node_map(self.nodes@)
    }

    /// The edges, in order of creation.
    pub open spec fn edge_view(&self) -> Seq<EdgeSpec> {
        self.edges@.map_values(|e: Edge| e@)
    }

    /// Well-formedness: one node per address.
    pub open spec fn wf(&self) -> bool {
        node_keys_distinct(self.nodes@)
    }

    /// An empty graph.
    pub fn new() -> (r: GraphBuilder)
        ensures
            r.wf(),
            r.node_view() == Map::<Seq<char>, NodeSpec>::empty(),
            r.edge_view() == Seq::<EdgeSpec>::empty(),
    {
        let r = GraphBuilder { nodes: Vec::new(), edges: Vec::new() };
        assert(r.node_view() =~= Map::<Seq<char>, NodeSpec>::empty());
        assert(r.edge_view() =~= Seq::<EdgeSpec>::empty());
        r
    }

    /// Whether an edge joins `source` and `target` with `label`, in either
    /// direction.
    pub fn edge_exists(&self, source: &str, target: &str, label: &str) -> (r: bool)
        ensures
            r == exists|i: int| 0 <= i < self.edges@.len() && joins(#[trigger] self.edges@[i]@, source@, target@, label@),
    {
        let mut i: usize = 0;
        while i < self.edges.len()
            invariant
                i <= self.edges@.len(),
                forall|j: int| 0 <= j < i ==> !joins(#[trigger] self.edges@[j]@, source@, target@, label@),
            decreases self.edges@.len() - i,
        {
            let e = &self.edges[i];
            if (str_eq(e.source.as_str(), source) && str_eq(e.target.as_str(), target) && str_eq(e.label.as_str(), label))
                || (str_eq(e.source.as_str(), target) && str_eq(e.target.as_str(), source) && str_eq(e.label.as_str(), label)) {
                assert(joins(self.edges@[i as int]@, source@, target@, label@));
                return true;
            }
            i = i + 1;
        }
        false
    }

    /// Adds a packet to the graph: when both its addresses are present and
    /// private or public, their nodes are created if absent (MAC and colour
    /// of this packet), and an edge labelled by its highest protocol is
    /// added unless one already joins the two addresses with that label.
    pub fn add_edge(&mut self, packet: &PacketKey)
        requires
            old(self).wf(),
        ensures
            final(self).wf(),
            ({
                let l3 = packet.layer_3_infos;
                let src = opt_text(l3.ip_source);
                let dst = opt_text(l3.ip_destination);
                if src is Some && dst is Some && graphable(l3.ip_source_type) && graphable(l3.ip_destination_type) {
                    let s = src->0;
                    let t = dst->0;
                    let label = edge_label(*packet);
                    &&& final(self).node_view() == with_node(
                        with_node(old(self).node_view(), s, NodeSpec { name: s, color: color_of(l3.ip_source_type), mac: packet.mac_address_source@ }),
                        t,
                        NodeSpec { name: t, color: color_of(l3.ip_destination_type), mac: packet.mac_address_destination@ },
                    )
                    &&& final(self).edge_view() == if exists|i: int| 0 <= i < old(self).edges@.len() && joins(#[trigger] old(self).edges@[i]@, s, t, label) {
                        old(self).edge_view()
                    } else {
                        old(self).edge_view().push(EdgeSpec {
                            source: s,
                            target: t,
                            label,
                            source_port: opt_text(l3.layer_4_infos.port_source),
                            destination_port: opt_text(l3.layer_4_infos.port_destination),
                        })
                    }
                } else {
                    &&& final(self).node_view() == old(self).node_view()
                    &&& final(self).edge_view() == old(self).edge_view()
                }
            }),
    {
        let l3 = &packet.layer_3_infos;
        match (&l3.ip_source, &l3.ip_destination) {
            (Some(source_ip), Some(target_ip)) => {
                if !is_valid_ip(&l3.ip_source_type) || !is_valid_ip(&l3.ip_destination_type) {
                    return;
                }
                let source_node = Node {
                    name: source_ip.clone(),
                    color: determine_color(&l3.ip_source_type),
                    mac: packet.mac_address_source.clone(),
                };
                insert_node_if_absent(&mut self.nodes, source_ip, source_node);
                let target_node = Node {
                    name: target_ip.clone(),
                    color: determine_color(&l3.ip_destination_type),
                    mac: packet.mac_address_destination.clone(),
                };
                insert_node_if_absent(&mut self.nodes, target_ip, target_node);
                let label = match &l3.layer_4_infos.l_7_protocol {
                    Some(l) => l.clone(),
                    None => match &l3.l_4_protocol {
                        Some(l) => l.clone(),
                        None => packet.l_3_protocol.clone(),
                    },
                };
                let ghost old_edges = self.edge_view();
                if !self.edge_exists(source_ip.as_str(), target_ip.as_str(), label.as_str()) {
                    let e = Edge {
                        source: source_ip.clone(),
                        target: target_ip.clone(),
                        label,
                        source_port: copy_opt_text(&l3.layer_4_infos.port_source),
                        destination_port: copy_opt_text(&l3.layer_4_infos.port_destination),
                    };
                    let ghost ev = e@;
                    self.edges.push(e);
                    assert(self.edge_view() =~= old_edges.push(ev));
                }
            },
            _ => {},
        }
    }

    /// The graph data: the nodes, and the edges named `edge1`, `edge2`, ...
    /// in order of creation.
    pub fn build_graph_data(self) -> (r: GraphData)
        ensures
            r.nodes@ == self.nodes@,
            r.edges@.len() == self.edges@.len(),
            forall|i: int| 0 <= i < r.edges@.len() ==> (#[trigger] r.edges@[i]).0@ == "edge"@ + dec_digits((i + 1) as nat)
                && r.edges@[i].1 == self.edges@[i],
    {
        let GraphBuilder { nodes, edges } = self;
        let ghost es = edges@;
        let mut named: Vec<(String, Edge)> = Vec::new();
        let mut edges = edges;
        let total = edges.len();
        assert(total == es.len());
        let mut i: usize = 0;
        while edges.len() > 0
            invariant
                es.len() <= usize::MAX,
                i + edges@.len() == es.len(),
                edges@ == es.skip(i as int),
                named@.len() == i,
                forall|k: int| 0 <= k < i ==> (#[trigger] named@[k]).0@ == "edge"@ + dec_digits((k + 1) as nat)
                    && named@[k].1 == es[k],
            decreases edges@.len(),
        {
            let e = edges.remove(0);
            assert(e == es[i as int]);
            assert(edges@ =~= es.skip(i + 1));
            let name = crate::text::concat2("edge", crate::error::decimal_text((i + 1) as u64).as_str());
            named.push((name, e));
            i = i + 1;
        }
        GraphData { nodes, edges: named }
    }
}

} // verus!
