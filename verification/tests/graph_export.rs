use sonar_flows::graphviz::{filtered_edges, render_dot, GraphEdge, GraphEngine, GraphNode, GraphOptions, NodeLabels};

fn edge(id: &str, source: &str, target: &str, total_bytes: u64) -> GraphEdge {
    GraphEdge {
        id: id.to_string(),
        source: source.to_string(),
        target: target.to_string(),
        label: "TCP".to_string(),
        total_bytes,
        ports: vec![502],
        bidir: false,
    }
}

fn options(min_bytes: u64, max_nodes: usize) -> GraphOptions {
    GraphOptions { min_bytes, max_nodes, labels: NodeLabels::Ip, engine: GraphEngine::Sfdp }
}

fn ids(edges: &[GraphEdge]) -> Vec<String> {
    edges.iter().map(|e| e.id.clone()).collect()
}

#[test]
fn light_relations_are_dropped() {
    let edges = vec![edge("e1", "a", "b", 10), edge("e2", "b", "c", 1000)];
    assert_eq!(ids(&filtered_edges(&edges, &options(100, 10))), vec!["e2"]);
}

#[test]
fn only_the_busiest_nodes_and_their_relations_are_kept() {
    // Traffic: a = 1000 + 10, b = 1000 + 500, c = 500, d = 10.
    let edges = vec![
        edge("ab", "a", "b", 1000),
        edge("bc", "b", "c", 500),
        edge("ad", "a", "d", 10),
    ];
    assert_eq!(ids(&filtered_edges(&edges, &options(0, 2))), vec!["ab"]);
    assert_eq!(ids(&filtered_edges(&edges, &options(0, 3))), vec!["ab", "bc"]);
    assert_eq!(ids(&filtered_edges(&edges, &options(0, 4))), vec!["ab", "ad", "bc"]);
}

#[test]
fn ties_are_broken_by_node_identifier() {
    let edges = vec![edge("xy", "x", "y", 100), edge("uv", "u", "v", 100)];
    // Every node carries 100 bytes: u and v come first.
    assert_eq!(ids(&filtered_edges(&edges, &options(0, 2))), vec!["uv"]);
}

#[test]
fn relations_come_out_sorted_by_ends_label_and_id() {
    let edges = vec![edge("2", "b", "a", 5), edge("1", "a", "b", 5), edge("0", "a", "b", 5)];
    assert_eq!(ids(&filtered_edges(&edges, &options(0, 10))), vec!["0", "1", "2"]);
}

fn node(ip: &str, mac: &str, label: Option<&str>) -> GraphNode {
    GraphNode {
        id: if ip.is_empty() { mac.to_string() } else { ip.to_string() },
        name: format!("hôte {ip}"),
        ip: ip.to_string(),
        mac: mac.to_string(),
        label: label.map(str::to_string),
        color: "#93c5fd".to_string(),
    }
}

const DOT_HEADER: &str = "digraph sonar {\n  graph [overlap=false, splines=true, outputorder=edgesfirst, bgcolor=\"white\", pad=0.35];\n  node [shape=circle, style=filled, fontname=\"sans-serif\", fontsize=10, fontcolor=\"#111827\", color=\"#334155\"];\n  edge [fontname=\"sans-serif\", fontsize=8, color=\"#64748b\", fontcolor=\"#334155\"];\n";

#[test]
fn the_dot_text_lists_sorted_nodes_then_relations() {
    let nodes = vec![
        node("192.168.1.20", "", Some("serveur \"dns\"")),
        node("192.168.1.10", "aa:bb:cc:dd:ee:ff", None),
        node("192.168.1.99", "", None),
    ];
    let mut e = edge("e1", "192.168.1.10", "192.168.1.20", 46);
    e.label = "UDP".to_string();
    e.ports = vec![53];
    let marks = vec![("46 o".to_string(), "2.24".to_string())];
    let dot = render_dot(&nodes, &[e], &marks, NodeLabels::Label);
    let expected = format!(
        "{DOT_HEADER}  \"192.168.1.10\" [label=\"192.168.1.10\", fillcolor=\"#93c5fd\"];\n  \"192.168.1.20\" [label=\"serveur \\\"dns\\\"\", fillcolor=\"#93c5fd\"];\n  \"192.168.1.10\" -> \"192.168.1.20\" [label=\"UDP\\n53\\n46 o\", dir=forward, penwidth=2.24];\n}}\n"
    );
    assert_eq!(dot, expected);
    assert!(dot.contains("UDP\\n53\\n46 o"));
}

#[test]
fn a_relation_to_an_unknown_node_is_not_drawn() {
    let nodes = vec![node("10.0.0.1", "", None)];
    let mut e = edge("e1", "10.0.0.1", "10.0.0.9", 10);
    e.ports = vec![];
    e.bidir = true;
    let marks = vec![("10 o".to_string(), "1.76".to_string())];
    let dot = render_dot(&nodes, &[e], &marks, NodeLabels::Ip);
    assert_eq!(dot, format!("{DOT_HEADER}  \"10.0.0.1\" [label=\"10.0.0.1\", fillcolor=\"#93c5fd\"];\n}}\n"));
}

#[test]
fn a_node_without_ip_is_named_by_its_mac() {
    let nodes = vec![node("", "aa:bb:cc:dd:ee:01", None), node("", "aa:bb:cc:dd:ee:02", None)];
    let mut e = edge("e1", "aa:bb:cc:dd:ee:02", "aa:bb:cc:dd:ee:01", 2048);
    e.ports = vec![502, 503];
    e.bidir = true;
    let marks = vec![("2.0 Kio".to_string(), "3.43".to_string())];
    let dot = render_dot(&nodes, &[e], &marks, NodeLabels::Mac);
    assert!(dot.starts_with(DOT_HEADER));
    assert!(dot.contains("  \"aa:bb:cc:dd:ee:01\" [label=\"aa:bb:cc:dd:ee:01\", fillcolor=\"#93c5fd\"];\n  \"aa:bb:cc:dd:ee:02\""));
    assert!(dot.contains("  \"aa:bb:cc:dd:ee:02\" -> \"aa:bb:cc:dd:ee:01\" [label=\"TCP\\n502,503\\n2.0 Kio\", dir=both, penwidth=3.43];\n"));
    assert!(dot.ends_with("}\n"));
}
