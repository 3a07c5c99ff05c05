use sonar_flows::flow_matrix::{CapturedPacketOwned, FlowKey, FlowMatrix, InternetKey, timeval_to_systemtime};
use sonar_flows::link::{into_matrix_flow_identity, CookedObservation, LinkLayer, LinkView};
use sonar_flows::matrix::{is_non_unicast_mac, is_placeholder_ip};
use sonar_flows::error::SonarCoreError;

fn key(src_mac: &str, dst_mac: &str) -> FlowKey {
    FlowKey {
        link: LinkView {
            source_mac: src_mac.to_string(),
            destination_mac: dst_mac.to_string(),
            protocol: "IPv4".to_string(),
            vlan_id: None,
        },
        internet: None,
        transport: None,
        application: None,
    }
}

fn key_with_ips(src_mac: &str, src_ip: &str, dst_mac: &str, dst_ip: &str) -> FlowKey {
    let mut k = key(src_mac, dst_mac);
    k.internet = Some(InternetKey {
        source_ip: Some(src_ip.to_string()),
        ip_source_type: Some("Privée".to_string()),
        destination_ip: Some(dst_ip.to_string()),
        ip_destination_type: Some("Privée".to_string()),
        protocol: "IPv4".to_string(),
    });
    k
}

fn packet(flow: FlowKey, len: u32, ts_sec: i64, encap_id: Option<u64>) -> CapturedPacketOwned {
    CapturedPacketOwned { ts_sec, ts_usec: 0, caplen: len, len, flow, encap_id }
}

#[test]
fn update_flow_counts_first_packet_bytes_once() {
    let mut matrix = FlowMatrix::new();
    matrix.update_flow(&packet(key("11:22:33:44:55:66", "aa:bb:cc:dd:ee:ff"), 100, 1_000, None));
    assert_eq!(matrix.row_count(), 1);
    let (_, entries) = &matrix.matrix[0];
    assert_eq!(entries.len(), 1);
    assert_eq!(entries[0].0, None);
    assert_eq!(entries[0].1.count, 1);
    assert_eq!(entries[0].1.total_bytes, 100);
}

#[test]
fn update_flow_accumulates_on_existing_flow() {
    let mut matrix = FlowMatrix::new();
    for _ in 0..3 {
        matrix.update_flow(&packet(key("11:22:33:44:55:66", "aa:bb:cc:dd:ee:ff"), 100, 1_000, None));
    }
    assert_eq!(matrix.row_count(), 1, "un seul flux");
    let stats = matrix.matrix[0].1[0].1;
    assert_eq!(stats.count, 3);
    assert_eq!(stats.total_bytes, 300);
}

#[test]
fn update_flow_keeps_max_last_seen() {
    let mut matrix = FlowMatrix::new();
    matrix.update_flow(&packet(key("11:22:33:44:55:66", "aa:bb:cc:dd:ee:ff"), 100, 2_000, None));
    matrix.update_flow(&packet(key("11:22:33:44:55:66", "aa:bb:cc:dd:ee:ff"), 100, 1_000, None));
    let stats = matrix.matrix[0].1[0].1;
    assert_eq!(stats.last_seen, timeval_to_systemtime(2_000, 0));
}

#[test]
fn update_flow_keeps_one_row_with_per_tunnel_counts() {
    let mut matrix = FlowMatrix::new();
    let k = || key("11:22:33:44:55:66", "aa:bb:cc:dd:ee:ff");
    matrix.update_flow(&packet(k(), 100, 1_000, Some(0xaaaa)));
    matrix.update_flow(&packet(k(), 100, 1_000, Some(0xaaaa)));
    matrix.update_flow(&packet(k(), 100, 1_000, Some(0xbbbb)));
    assert_eq!(matrix.row_count(), 1, "une seule ligne pour ce flux");
    let rows = matrix.to_flat_vec();
    assert_eq!(rows.len(), 1);
    assert_eq!(rows[0].count, 3, "compteur total du flux");
    assert_eq!(rows[0].encap_id, "000000000000aaaa:2|000000000000bbbb:1");
}

#[test]
fn single_tunnel_flow_exports_bare_id() {
    let mut matrix = FlowMatrix::new();
    let k = || key("11:22:33:44:55:66", "aa:bb:cc:dd:ee:ff");
    matrix.update_flow(&packet(k(), 100, 1_000, Some(0xaaaa)));
    matrix.update_flow(&packet(k(), 100, 1_000, Some(0xaaaa)));
    let rows = matrix.to_flat_vec();
    assert_eq!(rows.len(), 1);
    assert_eq!(rows[0].encap_id, "000000000000aaaa");
    assert_eq!(rows[0].count, 2);
}

#[test]
fn to_flat_vec_is_deterministic() {
    let mut matrix = FlowMatrix::new();
    for i in 0..50u8 {
        matrix.update_flow(&packet(key(&format!("aa:bb:cc:dd:ee:{i:02x}"), "aa:bb:cc:dd:ee:ff"), 100, 1_000, None));
    }
    let first: Vec<String> = matrix.to_flat_vec().iter().map(|r| format!("{}>{}", r.mac_source, r.mac_destination)).collect();
    let second: Vec<String> = matrix.to_flat_vec().iter().map(|r| format!("{}>{}", r.mac_source, r.mac_destination)).collect();
    assert_eq!(first, second);
    let mut sorted = first.clone();
    sorted.sort();
    assert_eq!(first, sorted, "lignes triées par clé stable");
}

#[test]
fn get_label_falls_back_to_ip_only_label() {
    let mut matrix = FlowMatrix::new();
    matrix.add_label(String::new(), "8.8.8.8".to_string(), "google.com".to_string());
    assert_eq!(matrix.get_label("aa:bb:cc:dd:ee:ff", "8.8.8.8"), Some("google.com".to_string()));
}

#[test]
fn get_label_falls_back_to_mac_only_label() {
    let mut matrix = FlowMatrix::new();
    matrix.add_label("bc:24:11:ff:3e:15".to_string(), String::new(), "google.com".to_string());
    assert_eq!(matrix.get_label("bc:24:11:ff:3e:15", "192.168.1.105"), Some("google.com".to_string()));
}

#[test]
fn get_label_prefers_exact_mac_ip_label() {
    let mut matrix = FlowMatrix::new();
    matrix.add_label(String::new(), "8.8.8.8".to_string(), "google.com".to_string());
    matrix.add_label("aa:bb:cc:dd:ee:ff".to_string(), "8.8.8.8".to_string(), "custom dns".to_string());
    assert_eq!(matrix.get_label("aa:bb:cc:dd:ee:ff", "8.8.8.8"), Some("custom dns".to_string()));
}

#[test]
fn a_later_label_replaces_the_earlier_one() {
    let mut matrix = FlowMatrix::new();
    matrix.add_label("aa:bb:cc:dd:ee:ff".to_string(), "10.0.0.1".to_string(), "old".to_string());
    matrix.add_label("aa:bb:cc:dd:ee:ff".to_string(), "10.0.0.1".to_string(), "new".to_string());
    assert_eq!(matrix.get_label("aa:bb:cc:dd:ee:ff", "10.0.0.1"), Some("new".to_string()));
    assert_eq!(matrix.get_label_list(), vec!["new".to_string()]);
}

#[test]
fn export_labels_completes_missing_fields_from_matrix() {
    let mut matrix = FlowMatrix::new();
    matrix.update_flow(&packet(key_with_ips("10:22:33:44:55:66", "192.168.1.10", "aa:bb:cc:dd:ee:ff", "192.168.1.20"), 100, 1_000, None));
    matrix.add_label(String::new(), "192.168.1.10".to_string(), "poste-A".to_string());
    matrix.add_label("aa:bb:cc:dd:ee:ff".to_string(), String::new(), "serveur-B".to_string());

    let rows = matrix.export_labels();

    assert!(rows.contains(&("10:22:33:44:55:66".to_string(), "192.168.1.10".to_string(), "poste-A".to_string())));
    assert!(rows.contains(&("aa:bb:cc:dd:ee:ff".to_string(), "192.168.1.20".to_string(), "serveur-B".to_string())));
    assert!(rows.iter().all(|(m, i, _)| !m.is_empty() && !i.is_empty()), "{rows:?}");
}

#[test]
fn export_labels_keeps_partial_label_when_matrix_has_no_match() {
    let mut matrix = FlowMatrix::new();
    matrix.add_label(String::new(), "10.0.0.99".to_string(), "inconnu".to_string());
    let rows = matrix.export_labels();
    assert_eq!(rows, vec![(String::new(), "10.0.0.99".to_string(), "inconnu".to_string())]);
}

#[test]
fn export_labels_emits_single_label_per_endpoint() {
    let mut matrix = FlowMatrix::new();
    matrix.update_flow(&packet(key_with_ips("48:21:0b:41:45:65", "192.168.1.182", "aa:bb:cc:dd:ee:ff", "192.168.1.20"), 100, 1_000, None));
    matrix.add_label("48:21:0b:41:45:65".to_string(), String::new(), "TVD09".to_string());
    matrix.add_label(String::new(), "192.168.1.182".to_string(), "pc sonar".to_string());
    let rows = matrix.export_labels();
    let for_endpoint: Vec<_> = rows.iter().filter(|(m, i, _)| m == "48:21:0b:41:45:65" && i == "192.168.1.182").collect();
    assert_eq!(for_endpoint.len(), 1, "{rows:?}");
}

#[test]
fn export_labels_excludes_placeholder_ip_and_broadcast_mac() {
    let mut matrix = FlowMatrix::new();
    matrix.update_flow(&packet(key_with_ips("48:21:0b:41:45:65", "0.0.0.0", "ff:ff:ff:ff:ff:ff", "100.180.65.40"), 100, 1_000, None));
    matrix.add_label("48:21:0b:41:45:65".to_string(), "0.0.0.0".to_string(), "x".to_string());
    let rows = matrix.export_labels();
    assert!(rows.iter().all(|(m, i, _)| !is_placeholder_ip(i) && !is_non_unicast_mac(m)), "{rows:?}");
}

#[test]
fn observed_endpoints_are_sorted_real_devices() {
    let mut matrix = FlowMatrix::new();
    matrix.update_flow(&packet(key_with_ips("ba:00:00:00:00:01", "10.0.0.2", "ff:ff:ff:ff:ff:ff", "10.0.0.255"), 60, 1_000, None));
    matrix.update_flow(&packet(key_with_ips("aa:00:00:00:00:01", "10.0.0.1", "ba:00:00:00:00:01", "10.0.0.2"), 60, 1_000, None));
    let endpoints = matrix.observed_endpoints();
    assert_eq!(
        endpoints,
        vec![
            ("aa:00:00:00:00:01".to_string(), "10.0.0.1".to_string()),
            ("ba:00:00:00:00:01".to_string(), "10.0.0.2".to_string()),
        ]
    );
}

#[test]
fn origins_accumulate_sorted_without_blank_names() {
    let mut matrix = FlowMatrix::new();
    let k = key("11:22:33:44:55:66", "aa:bb:cc:dd:ee:ff");
    matrix.update_flow(&packet(key("11:22:33:44:55:66", "aa:bb:cc:dd:ee:ff"), 10, 1, None));
    matrix.add_flow_origins(&k, vec!["site-b.csv".to_string(), "  ".to_string()]);
    matrix.add_flow_origins(&k, vec!["site-a.csv".to_string(), "site-b.csv".to_string()]);
    matrix.add_flow_origins(&k, vec![String::new()]);
    let rows = matrix.to_flat_vec();
    assert_eq!(rows[0].origin, "site-a.csv|site-b.csv");
}

#[test]
fn a_second_link_type_is_refused() {
    let mut matrix = FlowMatrix::new();
    assert!(matrix.bind_link_type(1, "a.pcap").is_ok());
    assert!(matrix.bind_link_type(1, "b.pcap").is_ok());
    match matrix.bind_link_type(113, "c.pcap") {
        Err(SonarCoreError::MixedLinkTypes { path, found, expected }) => {
            assert_eq!(path, "c.pcap");
            assert_eq!(found, 113);
            assert_eq!(expected, 1);
        }
        other => panic!("unexpected {other:?}"),
    }
    assert_eq!(matrix.link_type, Some(1));
}

#[test]
fn flat_rows_carry_escaped_labels_and_utc_time() {
    let mut matrix = FlowMatrix::new();
    matrix.update_flow(&packet(key_with_ips("10:22:33:44:55:66", "192.168.1.10", "aa:bb:cc:dd:ee:ff", "192.168.1.20"), 100, 1_700_000_000, None));
    matrix.add_label(String::new(), "192.168.1.10".to_string(), "=cmd".to_string());
    let rows = matrix.to_flat_vec();
    assert_eq!(rows[0].label_source.as_deref(), Some("'=cmd"));
    assert_eq!(rows[0].label_destination, None);
    assert_eq!(rows[0].last_seen, "2023-11-14 22:13:20.000000 UTC");
    assert_eq!(rows[0].total_bytes, 100);
}

#[test]
fn clear_empties_everything() {
    let mut matrix = FlowMatrix::new();
    matrix.update_flow(&packet(key("11:22:33:44:55:66", "aa:bb:cc:dd:ee:ff"), 10, 1, None));
    matrix.add_label("a".into(), "b".into(), "c".into());
    let _ = matrix.bind_link_type(1, "x");
    matrix.clear();
    assert_eq!(matrix.row_count(), 0);
    assert_eq!(matrix.get_label("a", "b"), None);
    assert_eq!(matrix.link_type, None);
}

#[test]
fn cooked_observation_metadata_does_not_split_matrix_rows() {
    // Two observations of one cooked source: the header details of the
    // observation point are not part of the link layer the matrix reads.
    let link = |packet_type: u16, interface_index: u32| LinkLayer::LinuxSll {
        source_address: Some(vec![0xaa, 0xbb, 0xcc, 0xdd]),
        protocol: 0x0800,
        observation: CookedObservation { packet_type, hardware_type: 1, address_length: 4, interface_index, reserved: 0 },
    };
    let flow = |l: LinkLayer| FlowKey {
        link: LinkView::of(&into_matrix_flow_identity(l)),
        internet: None,
        transport: None,
        application: None,
    };
    let mut matrix = FlowMatrix::new();
    matrix.update_flow(&packet(flow(link(0, 2)), 40, 1_000, None));
    matrix.update_flow(&packet(flow(link(4, 3)), 60, 1_000, None));
    assert_eq!(matrix.row_count(), 1);
    let stats = matrix.matrix[0].1[0].1;
    assert_eq!((stats.count, stats.total_bytes), (2, 100));
    assert_eq!(matrix.matrix[0].0.link.source_mac, "aa:bb:cc:dd");
}
