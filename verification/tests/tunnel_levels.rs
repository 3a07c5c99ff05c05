use sonar_flows::flow_matrix::{FlowKey, FlowMatrix, InternetKey, TransportKey};
use sonar_flows::link::LinkView;
use sonar_flows::matrix::{FlowStats, Timestamp};
use sonar_flows::packets::{fnv1a, tunnel_pair_id, CapturedPacket, FlowLevel};

/// Outer flow of a CAPWAP frame: Ethernet, IPv4, UDP 8564 -> 5247.
fn capwap_outer() -> FlowKey {
    FlowKey {
        link: LinkView {
            source_mac: "44:2b:03:02:17:2c".to_string(),
            destination_mac: "c4:64:13:8f:9e:04".to_string(),
            protocol: "IPv4".to_string(),
            vlan_id: None,
        },
        internet: Some(InternetKey {
            source_ip: Some("172.24.8.106".to_string()),
            ip_source_type: Some("Privée".to_string()),
            destination_ip: Some("172.24.8.202".to_string()),
            ip_destination_type: Some("Privée".to_string()),
            protocol: "IPv4".to_string(),
        }),
        transport: Some(TransportKey {
            source_port: Some(8564),
            destination_port: Some(5247),
            protocol: "UDP".to_string(),
        }),
        application: Some("CAPWAP".to_string()),
    }
}

/// Inner conversation of that frame: IPv4, TCP 56699 -> 445.
fn capwap_inner() -> FlowKey {
    FlowKey {
        link: LinkView {
            source_mac: "00:0c:29:96:7c:a4".to_string(),
            destination_mac: "3a:9a:5a:f4:50:e0".to_string(),
            protocol: "IPv4".to_string(),
            vlan_id: None,
        },
        internet: Some(InternetKey {
            source_ip: Some("172.145.30.100".to_string()),
            ip_source_type: Some("Publique".to_string()),
            destination_ip: Some("172.145.180.221".to_string()),
            ip_destination_type: Some("Publique".to_string()),
            protocol: "IPv4".to_string(),
        }),
        transport: Some(TransportKey {
            source_port: Some(56699),
            destination_port: Some(445),
            protocol: "TCP".to_string(),
        }),
        application: None,
    }
}

fn reverse(flow: &FlowKey) -> FlowKey {
    let mut r = FlowKey {
        link: LinkView {
            source_mac: flow.link.destination_mac.clone(),
            destination_mac: flow.link.source_mac.clone(),
            protocol: flow.link.protocol.clone(),
            vlan_id: flow.link.vlan_id,
        },
        internet: None,
        transport: None,
        application: flow.application.clone(),
    };
    if let Some(i) = &flow.internet {
        r.internet = Some(InternetKey {
            source_ip: i.destination_ip.clone(),
            ip_source_type: i.ip_destination_type.clone(),
            destination_ip: i.source_ip.clone(),
            ip_destination_type: i.ip_source_type.clone(),
            protocol: i.protocol.clone(),
        });
    }
    if let Some(t) = &flow.transport {
        r.transport = Some(TransportKey {
            source_port: t.destination_port,
            destination_port: t.source_port,
            protocol: t.protocol.clone(),
        });
    }
    r
}

#[test]
fn fnv1a_matches_the_reference_vectors() {
    assert_eq!(fnv1a(b""), 0xcbf2_9ce4_8422_2325);
    assert_eq!(fnv1a(b"a"), 0xaf63_dc4c_8601_ec8c);
    assert_eq!(fnv1a(b"foobar"), 0x8594_4171_f739_67e8);
}

#[test]
fn tunnel_pair_id_is_direction_agnostic() {
    let forward = capwap_outer();
    let backward = reverse(&forward);
    assert!(!forward.same_as(&backward), "les deux sens sont des flux distincts");
    assert_eq!(tunnel_pair_id(&forward), tunnel_pair_id(&backward));
}

#[test]
fn tunnel_pair_id_depends_on_the_ports() {
    let a = capwap_outer();
    let mut b = capwap_outer();
    b.transport.as_mut().unwrap().source_port = Some(8565);
    assert_ne!(tunnel_pair_id(&a), tunnel_pair_id(&b));
}

#[test]
fn to_owned_packets_splits_capwap_tunnel_into_two_levels() {
    let packet = CapturedPacket {
        ts_sec: 1,
        ts_usec: 2,
        caplen: 326,
        len: 326,
        levels: vec![
            FlowLevel { flow: capwap_outer(), network_payload_len: 312 },
            FlowLevel { flow: capwap_inner(), network_payload_len: 236 },
        ],
    };
    let levels = packet.to_owned_packets();
    assert_eq!(levels.len(), 2, "un paquet CAPWAP -> deux niveaux de flux");
    assert_eq!(levels[0].len, 326);
    assert_eq!(levels[0].flow.application.as_deref(), Some("CAPWAP"));
    let inner_transport = levels[1].flow.transport.as_ref().expect("inner transport");
    assert_eq!(inner_transport.destination_port, Some(445));
    assert_eq!(levels[1].len, 236);
    assert!(levels[0].encap_id.is_some());
    assert_eq!(levels[0].encap_id, levels[1].encap_id);
    assert_eq!(levels[0].encap_id, Some(tunnel_pair_id(&capwap_outer())));
    assert_eq!(packet.to_owned_packet().encap_id, levels[0].encap_id);
}

#[test]
fn to_owned_packets_untunneled_has_no_encap_id() {
    let packet = CapturedPacket {
        ts_sec: 1,
        ts_usec: 2,
        caplen: 42,
        len: 42,
        levels: vec![FlowLevel { flow: capwap_inner(), network_payload_len: 28 }],
    };
    let levels = packet.to_owned_packets();
    assert_eq!(levels.len(), 1);
    assert_eq!(levels[0].encap_id, None);
    assert_eq!(levels[0].len, 42);
    assert_eq!(packet.to_owned_packet().encap_id, None);
}

#[test]
fn merge_row_accumulates_per_tunnel() {
    let mut matrix = FlowMatrix::new();
    let flow = capwap_inner;
    let stats = |count: u64| FlowStats {
        count,
        total_bytes: count * 10,
        last_seen: Timestamp { secs: 0, nanos: 0 },
    };
    matrix.merge_row(flow(), Some(0xaaaa), stats(2));
    matrix.merge_row(flow(), Some(0xaaaa), stats(3));
    matrix.merge_row(flow(), Some(0xbbbb), stats(1));
    assert_eq!(matrix.row_count(), 1, "une seule ligne pour ce flux");
    let entries = &matrix.matrix[0].1;
    let merged = entries.iter().find(|(id, _)| *id == Some(0xaaaa)).map(|(_, s)| s).unwrap();
    assert_eq!(merged.count, 5);
    assert_eq!(merged.total_bytes, 50);
}

#[test]
fn tunnel_pair_id_depends_on_the_addresses() {
    let a = capwap_outer();
    let mut b = capwap_outer();
    b.internet.as_mut().unwrap().source_ip = Some("172.24.8.107".to_string());
    assert_ne!(tunnel_pair_id(&a), tunnel_pair_id(&b));
}

#[test]
fn labels_of_a_flow_follow_the_precedence() {
    let mut matrix = FlowMatrix::new();
    matrix.add_label("44:2b:03:02:17:2c".to_string(), String::new(), "borne".to_string());
    matrix.add_label(String::new(), "172.24.8.202".to_string(), "contrôleur".to_string());
    let (source, destination) = matrix.flow_labels(&capwap_outer());
    assert_eq!(source.as_deref(), Some("borne"));
    assert_eq!(destination.as_deref(), Some("contrôleur"));
}

#[test]
fn tunnel_counts_are_balanced_between_outer_and_inner_rows() {
    // Three CAPWAP packets, two in one direction and one back, each counted
    // level by level: the outer rows and the inner rows attribute the same
    // packets to the tunnel.
    let mut matrix = FlowMatrix::new();
    let packets = [
        (capwap_outer(), capwap_inner()),
        (capwap_outer(), capwap_inner()),
        (reverse(&capwap_outer()), reverse(&capwap_inner())),
    ];
    for (outer, inner) in packets {
        let packet = CapturedPacket {
            ts_sec: 1,
            ts_usec: 0,
            caplen: 300,
            len: 300,
            levels: vec![
                FlowLevel { flow: outer, network_payload_len: 280 },
                FlowLevel { flow: inner, network_payload_len: 200 },
            ],
        };
        for owned in packet.to_owned_packets() {
            matrix.update_flow(&owned);
        }
    }
    let tunnel = tunnel_pair_id(&capwap_outer());
    let mut outer_total = 0;
    let mut inner_total = 0;
    for (flow, entries) in &matrix.matrix {
        for (id, stats) in entries {
            assert_eq!(*id, Some(tunnel), "un seul tunnel, dans les deux sens");
            if flow.application.as_deref() == Some("CAPWAP") {
                outer_total += stats.count;
            } else {
                inner_total += stats.count;
            }
        }
    }
    assert_eq!(outer_total, 3);
    assert_eq!(inner_total, 3);
}
