//! Helpers of the Graphviz export of the relation graph: layout engines,
//! node identifiers and labels, and escaping of DOT strings.

use vstd::prelude::*;

use crate::flow_matrix::opt_text;
use crate::order::{lemma_text_lt_irreflexive, lemma_text_lt_total, lemma_text_lt_transitive, text_less, text_lt};
use crate::rows::{join_names, join_texts, texts_of};
use crate::text::{dec_digits, is_blank, str_eq, trim};

verus! {

/// Graphviz layout engine used for SVG and PNG output.
#[derive(Debug, Clone, Copy, PartialEq, Eq, Structural)]
pub enum GraphEngine {
    Dot,
    Neato,
    Fdp,
    Sfdp,
    Circo,
}

/// Name of the executable of an engine.
pub open spec fn engine_name(e: GraphEngine) -> Seq<char> {
    match e {
        GraphEngine::Dot => "dot"@,
        GraphEngine::Neato => "neato"@,
        GraphEngine::Fdp => "fdp"@,
        GraphEngine::Sfdp => "sfdp"@,
        GraphEngine::Circo => "circo"@,
    }
}

impl GraphEngine {
    /// The Graphviz executable that runs this engine.
    pub fn executable(self) -> (r: &'static str)
        ensures
            r@ == engine_name(self),
    {
        match self {
            GraphEngine::Dot => "dot",
            GraphEngine::Neato => "neato",
            GraphEngine::Fdp => "fdp",
            GraphEngine::Sfdp => "sfdp",
            GraphEngine::Circo => "circo",
        }
    }
}

/// Text displayed on nodes.
#[derive(Debug, Clone, Copy, PartialEq, Eq, Structural)]
pub enum NodeLabels {
    Ip,
    Mac,
    Label,
}

/// Options of the graph export.
#[derive(Debug, Clone, Copy)]
pub struct GraphOptions {
    /// Relations carrying fewer bytes are ignored.
    pub min_bytes: u64,
    /// At most this many nodes are kept, ranked by incident traffic.
    pub max_nodes: usize,
    pub labels: NodeLabels,
    pub engine: GraphEngine,
}

/// A node of the relation graph, as the export reads it.
#[derive(Debug)]
pub struct GraphNode {
    pub id: String,
    pub name: String,
    pub ip: String,
    pub mac: String,
    pub label: Option<String>,
    pub color: String,
}

/// The value when it is not blank.
pub open spec fn non_blank(v: Seq<char>) -> Option<Seq<char>> {
    if trim(v).len() == 0 {
        None
    } else {
        Some(v)
    }
}

/// `value` unless it is empty or only whitespace.
pub fn non_empty(value: &str) -> (r: Option<&str>)
    ensures
        match r {
            Some(v) => non_blank(value@) == Some(v@),
            None => non_blank(value@) is None,
        },
{
    if is_blank(value) {
        None
    } else {
        Some(value)
    }
}

/// Identifier of a node in the DOT file: its IP, else its MAC, else its
/// name.
pub open spec fn node_id_text(n: GraphNode) -> Seq<char> {
    match non_blank(n.ip@) {
        Some(v) => v,
        None => match non_blank(n.mac@) {
            Some(v) => v,
            None => n.name@,
        },
    }
}

/// Stable identifier of a node: its IP, else its MAC, else its name.
pub fn stable_node_id(node: &GraphNode) -> (r: &str)
    ensures
        r@ == node_id_text(*node),
{
    match non_empty(node.ip.as_str()) {
        Some(v) => v,
        None => match non_empty(node.mac.as_str()) {
            Some(v) => v,
            None => node.name.as_str(),
        },
    }
}

/// Text displayed on a node for the chosen labels.
pub open spec fn node_label_text(n: GraphNode, labels: NodeLabels) -> Seq<char> {
    match labels {
        NodeLabels::Ip => match non_blank(n.ip@) {
            Some(v) => v,
            None => n.name@,
        },
        NodeLabels::Mac => match non_blank(n.mac@) {
            Some(v) => v,
            None => n.name@,
        },
        NodeLabels::Label => match opt_text(n.label) {
            Some(l) => match non_blank(l) {
                Some(v) => v,
                None => match non_blank(n.ip@) {
                    Some(v) => v,
                    None => n.name@,
                },
            },
            None => match non_blank(n.ip@) {
                Some(v) => v,
                None => n.name@,
            },
        },
    }
}

/// Text displayed on a node: its IP, its MAC or its label (each falling
/// back, when blank, to the IP and then the name).
pub fn node_label(node: &GraphNode, labels: NodeLabels) -> (r: &str)
    ensures
        r@ == node_label_text(*node, labels),
{
    match labels {
        NodeLabels::Ip => match non_empty(node.ip.as_str()) {
            Some(v) => v,
            None => node.name.as_str(),
        },
        NodeLabels::Mac => match non_empty(node.mac.as_str()) {
            Some(v) => v,
            None => node.name.as_str(),
        },
        NodeLabels::Label => {
            let from_label = match &node.label {
                Some(l) => non_empty(l.as_str()),
                None => None,
            };
            match from_label {
                Some(v) => v,
                None => match non_empty(node.ip.as_str()) {
                    Some(v) => v,
                    None => node.name.as_str(),
                },
            }
        },
    }
}

/// The escape of one character in a DOT string: `\` and `"` escaped, a new
/// line written `\n`, a carriage return dropped.
pub open spec fn dot_char(c: char) -> Seq<char> {
    if c == '\\' {
        seq!['\\', '\\']
    } else if c == '"' {
        seq!['\\', '"']
    } else if c == '\n' {
        seq!['\\', 'n']
    } else if c == '\r' {
        Seq::empty()
    } else {
        seq![c]
    }
}

/// A text escaped for a DOT string.
pub open spec fn dot_text(v: Seq<char>) -> Seq<char>
    decreases v.len(),
{
    if v.len() == 0 {
        Seq::empty()
    } else {
        dot_text(v.drop_last()) + dot_char(v.last())
    }
}

/// Escapes a text for a DOT string.
pub fn dot_escape(value: &str) -> (r: String)
    ensures
        r@ == dot_text(value@),
{
    let v = crate::text::chars_of(value);
    let mut out: Vec<char> = Vec::new();
    let mut i: usize = 0;
    while i < v.len()
        invariant
            i <= v@.len(),
            v@ == value@,
            out@ == dot_text(v@.take(i as int)),
        decreases v@.len() - i,
    {
        assert(v@.take(i + 1).drop_last() =~= v@.take(i as int));
        let c = v[i];
        let ghost before = out@;
        if c == '\\' {
            out.push('\\');
            out.push('\\');
        } else if c == '"' {
            out.push('\\');
            out.push('"');
        } else if c == '\n' {
            out.push('\\');
            out.push('n');
        } else if c == '\r' {
        } else {
            out.push(c);
        }
        assert(out@ =~= before + dot_char(c));
        i = i + 1;
    }
    assert(v@.take(i as int) =~= v@);
    crate::text::string_of(&out)
}

// ---------------------------------------------------------------------------
// Filtering the relations to draw
// ---------------------------------------------------------------------------

/// A relation of the graph, as the export reads it.
#[derive(Debug)]
pub struct GraphEdge {
    pub id: String,
    pub source: String,
    pub target: String,
    pub label: String,
    pub total_bytes: u64,
    pub ports: Vec<u16>,
    pub bidir: bool,
}

/// Spec value of a [`GraphEdge`].
pub struct GraphEdgeSpec {
    pub id: Seq<char>,
    pub source: Seq<char>,
    pub target: Seq<char>,
    pub label: Seq<char>,
    pub total_bytes: u64,
    pub ports: Seq<u16>,
    pub bidir: bool,
}

impl View for GraphEdge {
    type V = GraphEdgeSpec;

    open spec fn view(&self) -> GraphEdgeSpec {
        GraphEdgeSpec {
            id: self.id@,
            source: self.source@,
            target: self.target@,
            label: self.label@,
            total_bytes: self.total_bytes,
            ports: self.ports@,
            bidir: self.bidir,
        }
    }
}

/// The values of a sequence of relations.
pub open spec fn edge_views(es: Seq<GraphEdge>) -> Seq<GraphEdgeSpec> {
    es.map_values(|e: GraphEdge| e@)
}

/// The relations carrying at least `min` bytes, in order.
pub open spec fn heavy_edges(es: Seq<GraphEdgeSpec>, min: u64) -> Seq<GraphEdgeSpec>
    decreases es.len(),
{
    if es.len() == 0 {
        Seq::empty()
    } else if es.last().total_bytes >= min {
        heavy_edges(es.drop_last(), min).push(es.last())
    } else {
        heavy_edges(es.drop_last(), min)
    }
}

/// Bytes of the relations incident to node `n` (a loop counts twice).
pub open spec fn incident_bytes(es: Seq<GraphEdgeSpec>, n: Seq<char>) -> nat
    decreases es.len(),
{
    if es.len() == 0 {
        0
    } else {
        let e = es.last();
        incident_bytes(es.drop_last(), n) + (if e.source == n {
            e.total_bytes as nat
        } else {
            0
        }) + (if e.target == n {
            e.total_bytes as nat
        } else {
            0
        })
    }
}

/// Traffic of node `n`: its incident bytes, saturated to `u64`.
pub open spec fn traffic(es: Seq<GraphEdgeSpec>, n: Seq<char>) -> u64 {
    if incident_bytes(es, n) > u64::MAX {
        u64::MAX
    } else {
        incident_bytes(es, n) as u64
    }
}

/// `l` with `n` appended unless it already holds it.
pub open spec fn add_node(l: Seq<Seq<char>>, n: Seq<char>) -> Seq<Seq<char>> {
    if l.contains(n) {
        l
    } else {
        l.push(n)
    }
}

/// The nodes of the relations, each once, in order of first appearance.
pub open spec fn node_list(es: Seq<GraphEdgeSpec>) -> Seq<Seq<char>>
    decreases es.len(),
{
    if es.len() == 0 {
        Seq::empty()
    } else {
        add_node(add_node(node_list(es.drop_last()), es.last().source), es.last().target)
    }
}

/// Node `m` ranks before node `n`: more traffic, or as much and a smaller
/// identifier.
pub open spec fn ranks_before(es: Seq<GraphEdgeSpec>, m: Seq<char>, n: Seq<char>) -> bool {
    traffic(es, m) > traffic(es, n) || (traffic(es, m) == traffic(es, n) && text_lt(m, n))
}

/// Number of the nodes of `l` ranking before `n`.
pub open spec fn rank_in(es: Seq<GraphEdgeSpec>, l: Seq<Seq<char>>, n: Seq<char>) -> nat
    decreases l.len(),
{
    if l.len() == 0 {
        0
    } else {
        rank_in(es, l.drop_last(), n) + if ranks_before(es, l.last(), n) {
            1nat
        } else {
            0nat
        }
    }
}

/// Node `n` is among the `max` best ranked nodes of the relations `es`.
pub open spec fn retained(es: Seq<GraphEdgeSpec>, max: usize, n: Seq<char>) -> bool {
    node_list(es).contains(n) && rank_in(es, node_list(es), n) < max
}

/// The relations of `sub` whose two ends are retained among `es`.
pub open spec fn between_retained(es: Seq<GraphEdgeSpec>, sub: Seq<GraphEdgeSpec>, max: usize) -> Seq<GraphEdgeSpec>
    decreases sub.len(),
{
    if sub.len() == 0 {
        Seq::empty()
    } else if retained(es, max, sub.last().source) && retained(es, max, sub.last().target) {
        between_retained(es, sub.drop_last(), max).push(sub.last())
    } else {
        between_retained(es, sub.drop_last(), max)
    }
}

/// The relations drawn: those carrying at least `min` bytes whose two ends
/// are among the `max` nodes of most traffic (ties broken by identifier).
pub open spec fn drawn_edges(es: Seq<GraphEdgeSpec>, min: u64, max: usize) -> Seq<GraphEdgeSpec> {
    between_retained(heavy_edges(es, min), heavy_edges(es, min), max)
}

/// Whether the list `l` holds `n`.
fn list_has(l: &Vec<String>, n: &str) -> (r: bool)
    ensures
        r == l@.map_values(|s: String| s@).contains(n@),
{
    let ghost v = l@.map_values(|s: String| s@);
    let mut i: usize = 0;
    while i < l.len()
        invariant
            i <= l@.len(),
            v == l@.map_values(|s: String| s@),
            forall|j: int| 0 <= j < i ==> v[j] != n@,
        decreases l@.len() - i,
    {
        if str_eq(l[i].as_str(), n) {
            assert(v[i as int] == n@);
            return true;
        }
        i = i + 1;
    }
    false
}

impl GraphEdge {
    /// A copy of the relation.
    pub fn duplicate(&self) -> (r: GraphEdge)
        ensures
            r@ == self@,
    {
        let mut ports: Vec<u16> = Vec::new();
        let mut i: usize = 0;
        while i < self.ports.len()
            invariant
                i <= self.ports@.len(),
                ports@ == self.ports@.take(i as int),
            decreases self.ports@.len() - i,
        {
            ports.push(self.ports[i]);
            assert(self.ports@.take(i + 1) =~= self.ports@.take(i as int).push(self.ports@[i as int]));
            i = i + 1;
        }
        assert(self.ports@.take(i as int) =~= self.ports@);
        GraphEdge {
            id: self.id.clone(),
            source: self.source.clone(),
            target: self.target.clone(),
            label: self.label.clone(),
            total_bytes: self.total_bytes,
            ports,
            bidir: self.bidir,
        }
    }
}

/// The texts of a list of strings.
pub open spec fn texts(l: Seq<String>) -> Seq<Seq<char>> {
    l.map_values(|s: String| s@)
}

/// Traffic of node `n` over the relations `es`.
fn traffic_of(es: &Vec<GraphEdge>, n: &str) -> (r: u64)
    ensures
        r == traffic(edge_views(es@), n@),
{
    let ghost v = edge_views(es@);
    let mut total: u64 = 0;
    let mut i: usize = 0;
    while i < es.len()
        invariant
            i <= es@.len(),
            v == edge_views(es@),
            total == traffic(v.take(i as int), n@),
        decreases es@.len() - i,
    {
        let e = &es[i];
        assert(v.take(i + 1).drop_last() =~= v.take(i as int));
        assert(v.take(i + 1).last() == e@);
        if str_eq(e.source.as_str(), n) {
            total = total.saturating_add(e.total_bytes);
        }
        if str_eq(e.target.as_str(), n) {
            total = total.saturating_add(e.total_bytes);
        }
        i = i + 1;
    }
    assert(v.take(i as int) =~= v);
    total
}

/// The nodes of the relations, each once, in order of first appearance.
fn nodes_of(es: &Vec<GraphEdge>) -> (r: Vec<String>)
    ensures
        texts(r@) == node_list(edge_views(es@)),
{
    let ghost v = edge_views(es@);
    let mut out: Vec<String> = Vec::new();
    let mut i: usize = 0;
    assert(texts(out@) =~= Seq::<Seq<char>>::empty());
    while i < es.len()
        invariant
            i <= es@.len(),
            v == edge_views(es@),
            texts(out@) == node_list(v.take(i as int)),
        decreases es@.len() - i,
    {
        let e = &es[i];
        assert(v.take(i + 1).drop_last() =~= v.take(i as int));
        assert(v.take(i + 1).last() == e@);
        if !list_has(&out, e.source.as_str()) {
            out.push(e.source.clone());
        }
        assert(texts(out@) =~= add_node(node_list(v.take(i as int)), e@.source));
        if !list_has(&out, e.target.as_str()) {
            out.push(e.target.clone());
        }
        assert(texts(out@) =~= node_list(v.take(i + 1)));
        i = i + 1;
    }
    assert(v.take(i as int) =~= v);
    out
}

/// For each node of `nodes`, whether it is among the `max` best ranked
/// nodes of `es`.
fn retained_flags(es: &Vec<GraphEdge>, nodes: &Vec<String>, max: usize) -> (r: Vec<bool>)
    requires
        texts(nodes@) == node_list(edge_views(es@)),
    ensures
        r@.len() == nodes@.len(),
        forall|i: int| 0 <= i < r@.len() ==> #[trigger] r@[i] == retained(edge_views(es@), max, nodes@[i]@),
{
    let ghost v = edge_views(es@);
    let ghost nl = texts(nodes@);
    let mut tr: Vec<u64> = Vec::new();
    let mut k: usize = 0;
    while k < nodes.len()
        invariant
            k <= nodes@.len(),
            v == edge_views(es@),
            nl == texts(nodes@),
            tr@.len() == k,
            forall|j: int| 0 <= j < k ==> #[trigger] tr@[j] == traffic(v, nl[j]),
        decreases nodes@.len() - k,
    {
        let t = traffic_of(es, nodes[k].as_str());
        tr.push(t);
        k = k + 1;
    }
    let mut out: Vec<bool> = Vec::new();
    let mut i: usize = 0;
    while i < nodes.len()
        invariant
            i <= nodes@.len(),
            v == edge_views(es@),
            nl == texts(nodes@),
            nl == node_list(v),
            tr@.len() == nodes@.len(),
            forall|j: int| 0 <= j < nodes@.len() ==> #[trigger] tr@[j] == traffic(v, nl[j]),
            out@.len() == i,
            forall|j: int| 0 <= j < i ==> #[trigger] out@[j] == retained(v, max, nodes@[j]@),
        decreases nodes@.len() - i,
    {
        let n = nodes[i].as_str();
        let mut rank: usize = 0;
        let mut j: usize = 0;
        while j < nodes.len()
            invariant
                j <= nodes@.len(),
                i < nodes@.len(),
                n@ == nl[i as int],
                nl == texts(nodes@),
                tr@.len() == nodes@.len(),
                forall|q: int| 0 <= q < nodes@.len() ==> #[trigger] tr@[q] == traffic(v, nl[q]),
                rank as nat == rank_in(v, nl.take(j as int), n@),
                rank <= j,
            decreases nodes@.len() - j,
        {
            assert(nl.take(j + 1).drop_last() =~= nl.take(j as int));
            assert(nl.take(j + 1).last() == nl[j as int]);
            let before = tr[j] > tr[i] || (tr[j] == tr[i] && text_less(nodes[j].as_str(), n));
            if before {
                rank = rank + 1;
            }
            j = j + 1;
        }
        assert(nl.take(j as int) =~= nl);
        assert(nl.contains(n@)) by {
            assert(nl[i as int] == n@);
        }
        out.push(rank < max);
        i = i + 1;
    }
    out
}

/// Whether `n` is retained, read from the flags of the nodes.
fn is_retained(nodes: &Vec<String>, flags: &Vec<bool>, n: &str, Ghost(v): Ghost<Seq<GraphEdgeSpec>>, max: usize) -> (r: bool)
    requires
        texts(nodes@) == node_list(v),
        flags@.len() == nodes@.len(),
        forall|i: int| 0 <= i < flags@.len() ==> #[trigger] flags@[i] == retained(v, max, nodes@[i]@),
    ensures
        r == retained(v, max, n@),
{
    let ghost nl = texts(nodes@);
    let mut i: usize = 0;
    while i < nodes.len()
        invariant
            i <= nodes@.len(),
            nl == texts(nodes@),
            flags@.len() == nodes@.len(),
            forall|j: int| 0 <= j < flags@.len() ==> #[trigger] flags@[j] == retained(v, max, nodes@[j]@),
            forall|j: int| 0 <= j < i ==> nl[j] != n@,
        decreases nodes@.len() - i,
    {
        if str_eq(nodes[i].as_str(), n) {
            assert(nl[i as int] == n@);
            assert(nodes@[i as int]@ == n@);
            return flags[i];
        }
        i = i + 1;
    }
    assert(!nl.contains(n@));
    false
}

/// The order of the drawn relations: by source, target, label, then id.
pub open spec fn edge_lt(a: GraphEdgeSpec, b: GraphEdgeSpec) -> bool {
    if a.source != b.source {
        text_lt(a.source, b.source)
    } else if a.target != b.target {
        text_lt(a.target, b.target)
    } else if a.label != b.label {
        text_lt(a.label, b.label)
    } else {
        text_lt(a.id, b.id)
    }
}

/// Relations in that order.
pub open spec fn edges_sorted(s: Seq<GraphEdgeSpec>) -> bool {
    forall|i: int, j: int| 0 <= i < j < s.len() ==> !edge_lt(#[trigger] s[j], #[trigger] s[i])
}

proof fn lemma_text_order(a: Seq<char>, b: Seq<char>, c: Seq<char>)
    ensures
        a != b ==> (text_lt(a, b) || text_lt(b, a)),
        !(text_lt(a, b) && text_lt(b, a)),
        text_lt(a, b) && text_lt(b, c) ==> text_lt(a, c),
{
    lemma_text_lt_total(a, b);
    if text_lt(a, b) && text_lt(b, c) {
        lemma_text_lt_transitive(a, b, c);
    }
}

/// The order of relations is asymmetric and transitive.
pub proof fn lemma_edge_lt_laws(a: GraphEdgeSpec, b: GraphEdgeSpec, c: GraphEdgeSpec)
    ensures
        !(edge_lt(a, b) && edge_lt(b, a)),
        edge_lt(a, b) && edge_lt(b, c) ==> edge_lt(a, c),
{
    lemma_text_order(a.source, b.source, c.source);
    lemma_text_order(b.source, c.source, a.source);
    lemma_text_order(c.source, a.source, b.source);
    lemma_text_order(a.target, b.target, c.target);
    lemma_text_order(b.target, c.target, a.target);
    lemma_text_order(c.target, a.target, b.target);
    lemma_text_order(a.label, b.label, c.label);
    lemma_text_order(b.label, c.label, a.label);
    lemma_text_order(c.label, a.label, b.label);
    lemma_text_order(a.id, b.id, c.id);
    lemma_text_order(b.id, c.id, a.id);
    lemma_text_order(c.id, a.id, b.id);
}

/// Whether relation `a` sorts before `b`.
fn edge_before(a: &GraphEdge, b: &GraphEdge) -> (r: bool)
    ensures
        r == edge_lt(a@, b@),
{
    if !str_eq(a.source.as_str(), b.source.as_str()) {
        text_less(a.source.as_str(), b.source.as_str())
    } else if !str_eq(a.target.as_str(), b.target.as_str()) {
        text_less(a.target.as_str(), b.target.as_str())
    } else if !str_eq(a.label.as_str(), b.label.as_str()) {
        text_less(a.label.as_str(), b.label.as_str())
    } else {
        text_less(a.id.as_str(), b.id.as_str())
    }
}

/// Inserts `e` after the relations that do not sort after it.
fn insert_edge_sorted(v: &mut Vec<GraphEdge>, e: GraphEdge)
    requires
        edges_sorted(edge_views(old(v)@)),
    ensures
        edges_sorted(edge_views(final(v)@)),
        exists|p: int| 0 <= p <= old(v)@.len() && edge_views(final(v)@) == edge_views(old(v)@).insert(p, e@),
{
    let ghost old_s = edge_views(v@);
    let ghost x = e@;
    let mut i: usize = 0;
    while i < v.len()
        invariant
            i <= v@.len(),
            edge_views(v@) == old_s,
            x == e@,
            edges_sorted(old_s),
            forall|k: int| 0 <= k < i ==> !edge_lt(x, #[trigger] old_s[k]),
        ensures
            i <= v@.len(),
            edge_views(v@) == old_s,
            forall|k: int| 0 <= k < i ==> !edge_lt(x, #[trigger] old_s[k]),
            i < v@.len() ==> edge_lt(x, old_s[i as int]),
        decreases v@.len() - i,
    {
        let before = edge_before(&e, &v[i]);
        assert(old_s[i as int] == v@[i as int]@);
        if before {
            break;
        }
        i = i + 1;
    }
    proof {
        assert forall|k: int| i <= k < old_s.len() implies !edge_lt(#[trigger] old_s[k], x) by {
            lemma_edge_lt_laws(old_s[k], x, old_s[i as int]);
        }
    }
    v.insert(i, e);
    let ghost new_s = edge_views(v@);
    assert(new_s =~= old_s.insert(i as int, x));
    assert forall|a: int, b: int| 0 <= a < b < new_s.len() implies !edge_lt(#[trigger] new_s[b], #[trigger] new_s[a]) by {
        if b < i {
        } else if b == i {
        } else if a > i {
        } else if a == i {
        } else {
            assert(new_s[a] == old_s[a] && new_s[b] == old_s[b - 1]);
        }
    }
}

/// The relations to draw, in a stable order: those carrying at least
/// `min_bytes`, restricted to the `max_nodes` nodes of most traffic (ties
/// broken by identifier) and the relations between them, sorted by source,
/// target, label and id.
pub fn filtered_edges(edges: &[GraphEdge], options: &GraphOptions) -> (r: Vec<GraphEdge>)
    ensures
        edges_sorted(edge_views(r@)),
        edge_views(r@).to_multiset() == drawn_edges(edge_views(edges@), options.min_bytes, options.max_nodes).to_multiset(),
{
    let ghost all = edge_views(edges@);
    let min = options.min_bytes;
    let max = options.max_nodes;
    let mut cands: Vec<GraphEdge> = Vec::new();
    let mut i: usize = 0;
    assert(edge_views(cands@) =~= Seq::<GraphEdgeSpec>::empty());
    while i < edges.len()
        invariant
            i <= edges@.len(),
            all == edge_views(edges@),
            edge_views(cands@) == heavy_edges(all.take(i as int), min),
        decreases edges@.len() - i,
    {
        assert(all.take(i + 1).drop_last() =~= all.take(i as int));
        assert(all.take(i + 1).last() == edges@[i as int]@);
        if edges[i].total_bytes >= min {
            let c = edges[i].duplicate();
            cands.push(c);
            assert(edge_views(cands@) =~= heavy_edges(all.take(i + 1), min));
        }
        i = i + 1;
    }
    assert(all.take(i as int) =~= all);
    let ghost cv = edge_views(cands@);
    let nodes = nodes_of(&cands);
    let flags = retained_flags(&cands, &nodes, max);
    let mut out: Vec<GraphEdge> = Vec::new();
    assert(edge_views(out@) =~= Seq::<GraphEdgeSpec>::empty());
    assert(between_retained(cv, cv.take(0), max) =~= Seq::<GraphEdgeSpec>::empty());
    let mut k: usize = 0;
    while k < cands.len()
        invariant
            k <= cands@.len(),
            cv == edge_views(cands@),
            texts(nodes@) == node_list(cv),
            flags@.len() == nodes@.len(),
            forall|q: int| 0 <= q < flags@.len() ==> #[trigger] flags@[q] == retained(cv, max, nodes@[q]@),
            edges_sorted(edge_views(out@)),
            edge_views(out@).to_multiset() == between_retained(cv, cv.take(k as int), max).to_multiset(),
        decreases cands@.len() - k,
    {
        let c = &cands[k];
        assert(cv.take(k + 1).drop_last() =~= cv.take(k as int));
        assert(cv.take(k + 1).last() == c@);
        let keep = is_retained(&nodes, &flags, c.source.as_str(), Ghost(cv), max) && is_retained(
            &nodes,
            &flags,
            c.target.as_str(),
            Ghost(cv),
            max,
        );
        if keep {
            let d = c.duplicate();
            let ghost x = d@;
            let ghost before = edge_views(out@);
            insert_edge_sorted(&mut out, d);
            proof {
                let p = choose|p: int| 0 <= p <= before.len() && edge_views(out@) == before.insert(p, x);
                vstd::seq_lib::to_multiset_insert(before, p, x);
                vstd::seq_lib::to_multiset_build(between_retained(cv, cv.take(k as int), max), x);
            }
        }
        k = k + 1;
    }
    assert(cv.take(k as int) =~= cv);
    out
}

// ---------------------------------------------------------------------------
// The DOT text
// ---------------------------------------------------------------------------

/// The opening of the DOT text: the graph and the defaults of its nodes
/// and relations.
pub open spec fn dot_header() -> Seq<char> {
    "digraph sonar {\n  graph [overlap=false, splines=true, outputorder=edgesfirst, bgcolor=\"white\", pad=0.35];\n  node [shape=circle, style=filled, fontname=\"sans-serif\", fontsize=10, fontcolor=\"#111827\", color=\"#334155\"];\n  edge [fontname=\"sans-serif\", fontsize=8, color=\"#64748b\", fontcolor=\"#334155\"];\n"@
}

/// Whether `id` is an end of the relation `e`.
pub open spec fn has_end(e: GraphEdgeSpec, id: Seq<char>) -> bool {
    e.source == id || e.target == id
}

/// Whether node `n` is an end of one of the relations `es`.
pub open spec fn is_drawn(n: GraphNode, es: Seq<GraphEdgeSpec>) -> bool {
    exists|j: int| 0 <= j < es.len() && #[trigger] has_end(es[j], n.id@)
}

/// The nodes that are an end of one of the relations, in their order.
pub open spec fn drawn_nodes(ns: Seq<GraphNode>, es: Seq<GraphEdgeSpec>) -> Seq<GraphNode>
    decreases ns.len(),
{
    if ns.len() == 0 {
        Seq::empty()
    } else if is_drawn(ns.last(), es) {
        drawn_nodes(ns.drop_last(), es).push(ns.last())
    } else {
        drawn_nodes(ns.drop_last(), es)
    }
}

/// Where node `x` goes among the nodes `t`: before the first node whose
/// identifier it sorts strictly before, after all nodes otherwise.
pub open spec fn node_point(t: Seq<GraphNode>, x: GraphNode) -> int
    decreases t.len(),
{
    if t.len() == 0 || text_lt(x.id@, t[0].id@) {
        0
    } else {
        1 + node_point(t.drop_first(), x)
    }
}

/// The nodes sorted by identifier, nodes of the same identifier in their
/// order.
pub open spec fn nodes_by_id(ns: Seq<GraphNode>) -> Seq<GraphNode>
    decreases ns.len(),
{
    if ns.len() == 0 {
        Seq::empty()
    } else {
        let t = nodes_by_id(ns.drop_last());
        t.insert(node_point(t, ns.last()), ns.last())
    }
}

/// The line of a node: its stable identifier, its label and its colour.
pub open spec fn node_line(n: GraphNode, labels: NodeLabels) -> Seq<char> {
    "  \""@ + dot_text(node_id_text(n)) + "\" [label=\""@ + dot_text(node_label_text(n, labels))
        + "\", fillcolor=\""@ + dot_text(n.color@) + "\"];\n"@
}

/// The lines of the nodes, in order.
pub open spec fn node_lines(ns: Seq<GraphNode>, labels: NodeLabels) -> Seq<char>
    decreases ns.len(),
{
    if ns.len() == 0 {
        Seq::empty()
    } else {
        node_lines(ns.drop_last(), labels) + node_line(ns.last(), labels)
    }
}

/// The last node of identifier `id`, if any.
pub open spec fn node_with_id(ns: Seq<GraphNode>, id: Seq<char>) -> Option<GraphNode>
    decreases ns.len(),
{
    if ns.len() == 0 {
        None
    } else if ns.last().id@ == id {
        Some(ns.last())
    } else {
        node_with_id(ns.drop_last(), id)
    }
}

/// The caption of a relation: its label, its ports joined by `,` when it
/// has any, and its volume, one per line.
pub open spec fn edge_caption(e: GraphEdgeSpec, volume: Seq<char>) -> Seq<char> {
    e.label + (if e.ports.len() > 0 {
        "\n"@ + join_texts(e.ports.map_values(|p: u16| dec_digits(p as nat)), ',')
    } else {
        Seq::empty()
    }) + "\n"@ + volume
}

/// The line of a relation between two nodes, with its volume and pen
/// width as texts.
pub open spec fn edge_line(src: GraphNode, tgt: GraphNode, e: GraphEdgeSpec, volume: Seq<char>, pen: Seq<char>) -> Seq<
    char,
> {
    "  \""@ + dot_text(node_id_text(src)) + "\" -> \""@ + dot_text(node_id_text(tgt)) + "\" [label=\""@ + dot_text(
        edge_caption(e, volume),
    ) + "\", dir="@ + (if e.bidir {
        "both"@
    } else {
        "forward"@
    }) + ", penwidth="@ + pen + "];\n"@
}

/// The lines of the relations whose two ends are nodes of `ns`, in order;
/// `marks` holds the volume and pen width texts of each relation.
pub open spec fn edge_lines(ns: Seq<GraphNode>, es: Seq<GraphEdgeSpec>, marks: Seq<(Seq<char>, Seq<char>)>) -> Seq<char>
    decreases es.len(),
{
    if es.len() == 0 {
        Seq::empty()
    } else {
        let k = es.len() - 1;
        let before = edge_lines(ns, es.drop_last(), marks);
        match (node_with_id(ns, es[k].source), node_with_id(ns, es[k].target)) {
            (Some(s), Some(t)) => before + edge_line(s, t, es[k], marks[k].0, marks[k].1),
            _ => before,
        }
    }
}

/// The DOT text of the relations `es` (with their `marks`) over the graph
/// nodes `ns`: the header, the nodes that are an end of a relation sorted
/// by identifier, the relations whose ends are known, and the closing brace.
pub open spec fn dot_text_of(
    ns: Seq<GraphNode>,
    es: Seq<GraphEdgeSpec>,
    marks: Seq<(Seq<char>, Seq<char>)>,
    labels: NodeLabels,
) -> Seq<char> {
    dot_header() + node_lines(nodes_by_id(drawn_nodes(ns, es)), labels) + edge_lines(ns, es, marks) + "}\n"@
}

/// The insertion point is the first node whose identifier `x` sorts
/// strictly before.
proof fn lemma_node_point_at(t: Seq<GraphNode>, x: GraphNode, i: int)
    requires
        0 <= i <= t.len(),
        forall|k: int| 0 <= k < i ==> !text_lt(x.id@, (#[trigger] t[k]).id@),
        i < t.len() ==> text_lt(x.id@, t[i].id@),
    ensures
        node_point(t, x) == i,
    decreases t.len(),
{
    if t.len() > 0 && i > 0 {
        assert(!text_lt(x.id@, t[0].id@));
        assert forall|k: int| 0 <= k < i - 1 implies !text_lt(x.id@, (#[trigger] t.drop_first()[k]).id@) by {
            assert(t.drop_first()[k] == t[k + 1]);
        }
        lemma_node_point_at(t.drop_first(), x, i - 1);
    }
}

/// Whether node `n` is an end of one of the relations.
fn is_drawn_exec(n: &GraphNode, edges: &[GraphEdge]) -> (r: bool)
    ensures
        r == is_drawn(*n, edge_views(edges@)),
{
    let ghost es = edge_views(edges@);
    let mut j: usize = 0;
    while j < edges.len()
        invariant
            j <= edges@.len(),
            es == edge_views(edges@),
            forall|q: int| 0 <= q < j ==> !#[trigger] has_end(es[q], n.id@),
        decreases edges@.len() - j,
    {
        assert(es[j as int] == edges@[j as int]@);
        if str_eq(edges[j].source.as_str(), n.id.as_str()) || str_eq(edges[j].target.as_str(), n.id.as_str()) {
            assert(has_end(es[j as int], n.id@));
            return true;
        }
        j = j + 1;
    }
    false
}

/// The indices of the drawn nodes, sorted by identifier.
fn drawn_order(nodes: &[GraphNode], edges: &[GraphEdge]) -> (r: Vec<usize>)
    ensures
        forall|q: int| 0 <= q < r@.len() ==> #[trigger] r@[q] < nodes@.len(),
        r@.map_values(|j: usize| nodes@[j as int]) == nodes_by_id(drawn_nodes(nodes@, edge_views(edges@))),
{
    let ghost es = edge_views(edges@);
    let mut order: Vec<usize> = Vec::new();
    let mut i: usize = 0;
    assert(order@.map_values(|j: usize| nodes@[j as int]) =~= Seq::<GraphNode>::empty());
    while i < nodes.len()
        invariant
            i <= nodes@.len(),
            es == edge_views(edges@),
            forall|q: int| 0 <= q < order@.len() ==> #[trigger] order@[q] < nodes@.len(),
            order@.map_values(|j: usize| nodes@[j as int]) == nodes_by_id(drawn_nodes(nodes@.take(i as int), es)),
        decreases nodes@.len() - i,
    {
        let ghost before = order@.map_values(|j: usize| nodes@[j as int]);
        assert(nodes@.take(i + 1).drop_last() =~= nodes@.take(i as int));
        assert(nodes@.take(i + 1).last() == nodes@[i as int]);
        let ghost d = drawn_nodes(nodes@.take(i as int), es);
        if is_drawn_exec(&nodes[i], edges) {
            assert(drawn_nodes(nodes@.take(i + 1), es) == d.push(nodes@[i as int]));
            assert(d.push(nodes@[i as int]).drop_last() =~= d);
            assert(d.push(nodes@[i as int]).last() == nodes@[i as int]);
            let mut k: usize = 0;
            while k < order.len()
                invariant
                    k <= order@.len(),
                    i < nodes@.len(),
                    forall|q: int| 0 <= q < order@.len() ==> #[trigger] order@[q] < nodes@.len(),
                    before == order@.map_values(|j: usize| nodes@[j as int]),
                    forall|q: int| 0 <= q < k ==> !text_lt(nodes@[i as int].id@, (#[trigger] before[q]).id@),
                ensures
                    k <= order@.len(),
                    before == order@.map_values(|j: usize| nodes@[j as int]),
                    forall|q: int| 0 <= q < order@.len() ==> #[trigger] order@[q] < nodes@.len(),
                    forall|q: int| 0 <= q < k ==> !text_lt(nodes@[i as int].id@, (#[trigger] before[q]).id@),
                    k < order@.len() ==> text_lt(nodes@[i as int].id@, before[k as int].id@),
                decreases order@.len() - k,
            {
                let j = order[k];
                assert(before[k as int] == nodes@[j as int]);
                if text_less(nodes[i].id.as_str(), nodes[j].id.as_str()) {
                    break;
                }
                k = k + 1;
            }
            proof {
                lemma_node_point_at(before, nodes@[i as int], k as int);
            }
            order.insert(k, i);
            assert(order@.map_values(|j: usize| nodes@[j as int]) =~= before.insert(k as int, nodes@[i as int]));
        } else {
            assert(drawn_nodes(nodes@.take(i + 1), es) == d);
        }
        i = i + 1;
    }
    assert(nodes@.take(i as int) =~= nodes@);
    order
}

/// The index of the last node of identifier `id`.
fn node_index(nodes: &[GraphNode], id: &str) -> (r: Option<usize>)
    ensures
        match r {
            Some(j) => j < nodes@.len() && node_with_id(nodes@, id@) == Some(nodes@[j as int]),
            None => node_with_id(nodes@, id@) is None,
        },
{
    let mut k: usize = nodes.len();
    assert(nodes@.take(k as int) =~= nodes@);
    while k > 0
        invariant
            k <= nodes@.len(),
            node_with_id(nodes@, id@) == node_with_id(nodes@.take(k as int), id@),
        decreases k,
    {
        assert(nodes@.take(k as int).drop_last() =~= nodes@.take(k - 1));
        assert(nodes@.take(k as int).last() == nodes@[k - 1]);
        if str_eq(nodes[k - 1].id.as_str(), id) {
            return Some(k - 1);
        }
        k = k - 1;
    }
    assert(nodes@.take(0) =~= Seq::<GraphNode>::empty());
    None
}

/// Appends the line of a node.
fn push_node_line(out: &mut String, n: &GraphNode, labels: NodeLabels)
    ensures
        final(out)@ == old(out)@ + node_line(*n, labels),
{
    out.append("  \"");
    out.append(dot_escape(stable_node_id(n)).as_str());
    out.append("\" [label=\"");
    out.append(dot_escape(node_label(n, labels)).as_str());
    out.append("\", fillcolor=\"");
    out.append(dot_escape(n.color.as_str()).as_str());
    out.append("\"];\n");
}

/// The caption of a relation.
fn edge_caption_text(e: &GraphEdge, volume: &str) -> (r: String)
    ensures
        r@ == edge_caption(e@, volume@),
{
    let mut label = e.label.clone();
    if e.ports.len() > 0 {
        let mut ports: Vec<String> = Vec::new();
        let mut i: usize = 0;
        while i < e.ports.len()
            invariant
                i <= e.ports@.len(),
                texts_of(ports@) == e.ports@.take(i as int).map_values(|p: u16| dec_digits(p as nat)),
            decreases e.ports@.len() - i,
        {
            let d = crate::error::decimal_text(e.ports[i] as u64);
            assert(d@ == dec_digits(e.ports@[i as int] as nat));
            let ghost before = texts_of(ports@);
            ports.push(d);
            assert(texts_of(ports@) =~= before.push(d@));
            assert(texts_of(ports@) =~= e.ports@.take(i + 1).map_values(|p: u16| dec_digits(p as nat)));
            i = i + 1;
        }
        assert(e.ports@.take(i as int) =~= e.ports@);
        label.append("\n");
        label.append(join_names(&ports, ',').as_str());
    }
    label.append("\n");
    label.append(volume);
    label
}

/// Appends the line of a relation between two nodes.
fn push_edge_line(out: &mut String, src: &GraphNode, tgt: &GraphNode, e: &GraphEdge, volume: &str, pen: &str)
    ensures
        final(out)@ == old(out)@ + edge_line(*src, *tgt, e@, volume@, pen@),
{
    out.append("  \"");
    out.append(dot_escape(stable_node_id(src)).as_str());
    out.append("\" -> \"");
    out.append(dot_escape(stable_node_id(tgt)).as_str());
    out.append("\" [label=\"");
    out.append(dot_escape(edge_caption_text(e, volume).as_str()).as_str());
    out.append("\", dir=");
    out.append(if e.bidir { "both" } else { "forward" });
    out.append(", penwidth=");
    out.append(pen);
    out.append("];\n");
}

/// The DOT text of the relations `edges` over the graph nodes `nodes`:
/// the header; the nodes that are an end of a relation, sorted by
/// identifier, each with its stable identifier, its label for `labels` and
/// its colour; the relations whose two ends are known nodes, in order, each
/// with its caption (label, ports, volume), its direction and its pen
/// width; and the closing brace. `marks` holds, for each relation, the text
/// of its volume and of its pen width.
pub fn render_dot(nodes: &[GraphNode], edges: &[GraphEdge], marks: &[(String, String)], labels: NodeLabels) -> (r: String)
    requires
        marks@.len() == edges@.len(),
    ensures
        r@ == dot_text_of(nodes@, edge_views(edges@), marks@.map_values(|m: (String, String)| (m.0@, m.1@)), labels),
{
    let ghost es = edge_views(edges@);
    let ghost ms = marks@.map_values(|m: (String, String)| (m.0@, m.1@));
    let mut out = String::new();
    out.append("digraph sonar {\n  graph [overlap=false, splines=true, outputorder=edgesfirst, bgcolor=\"white\", pad=0.35];\n  node [shape=circle, style=filled, fontname=\"sans-serif\", fontsize=10, fontcolor=\"#111827\", color=\"#334155\"];\n  edge [fontname=\"sans-serif\", fontsize=8, color=\"#64748b\", fontcolor=\"#334155\"];\n");
    assert(out@ == dot_header());
    let order = drawn_order(nodes, edges);
    let ghost sorted = order@.map_values(|j: usize| nodes@[j as int]);
    let mut i: usize = 0;
    while i < order.len()
        invariant
            i <= order@.len(),
            sorted == order@.map_values(|j: usize| nodes@[j as int]),
            forall|q: int| 0 <= q < order@.len() ==> #[trigger] order@[q] < nodes@.len(),
            out@ == dot_header() + node_lines(sorted.take(i as int), labels),
        decreases order@.len() - i,
    {
        assert(sorted.take(i + 1).drop_last() =~= sorted.take(i as int));
        assert(sorted.take(i + 1).last() == nodes@[order@[i as int] as int]);
        push_node_line(&mut out, &nodes[order[i]], labels);
        i = i + 1;
    }
    assert(sorted.take(i as int) =~= sorted);
    let ghost with_nodes = out@;
    let mut k: usize = 0;
    while k < edges.len()
        invariant
            k <= edges@.len(),
            marks@.len() == edges@.len(),
            es == edge_views(edges@),
            ms == marks@.map_values(|m: (String, String)| (m.0@, m.1@)),
            out@ == with_nodes + edge_lines(nodes@, es.take(k as int), ms),
        decreases edges@.len() - k,
    {
        let ghost t = es.take(k + 1);
        assert(t.drop_last() =~= es.take(k as int));
        assert(t[k as int] == edges@[k as int]@);
        proof {
            lemma_edge_lines_prefix(nodes@, t, ms, es.take(k as int));
        }
        let e = &edges[k];
        match (node_index(nodes, e.source.as_str()), node_index(nodes, e.target.as_str())) {
            (Some(a), Some(b)) => {
                assert(ms[k as int] == (marks@[k as int].0@, marks@[k as int].1@));
                push_edge_line(&mut out, &nodes[a], &nodes[b], e, marks[k].0.as_str(), marks[k].1.as_str());
            },
            _ => {},
        }
        k = k + 1;
    }
    assert(es.take(k as int) =~= es);
    out.append("}\n");
    out
}

/// The lines of the first relations do not depend on the marks of the
/// later ones: unfolding one step of [`edge_lines`].
proof fn lemma_edge_lines_prefix(
    ns: Seq<GraphNode>,
    t: Seq<GraphEdgeSpec>,
    marks: Seq<(Seq<char>, Seq<char>)>,
    front: Seq<GraphEdgeSpec>,
)
    requires
        t.len() > 0,
        t.drop_last() == front,
    ensures
        edge_lines(ns, t, marks) == (match (node_with_id(ns, t[t.len() - 1].source), node_with_id(ns, t[t.len() - 1].target)) {
            (Some(s), Some(g)) => edge_lines(ns, front, marks) + edge_line(s, g, t[t.len() - 1], marks[t.len() - 1].0, marks[t.len() - 1].1),
            _ => edge_lines(ns, front, marks),
        }),
{
}

} // verus!
