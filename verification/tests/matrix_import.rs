use sonar_flows::batch::{check_matrix_rows, merge_matrix_files, MatrixFile};
use sonar_flows::error::{validate_batch_paths, SonarCoreError};
use sonar_flows::flow_matrix::FlowMatrix;
use sonar_flows::import::{matrix_from_rows, parse_last_seen};
use sonar_flows::link::{LINKTYPE_ETHERNET, LINKTYPE_RAW};
use sonar_flows::rows::FlowMatrixRow;

fn row(mac_source: &str, ip_source: &str, count: u64, total_bytes: u64, origin: &str) -> FlowMatrixRow {
    FlowMatrixRow {
        mac_source: mac_source.to_string(),
        mac_destination: "11:22:33:44:55:66".to_string(),
        vlan_id: None,
        protocol_data_link: "IPv4".to_string(),
        ip_source: ip_source.to_string(),
        ip_source_type: String::new(),
        label_source: None,
        ip_destination: "192.168.1.2".to_string(),
        ip_destination_type: String::new(),
        label_destination: None,
        port_source: Some(1234),
        port_destination: Some(502),
        protocol_transport: Some("TCP".to_string()),
        application_protocol: Some("Modbus".to_string()),
        count,
        total_bytes,
        last_seen: "2026-07-11 10:00:00.000000 UTC".to_string(),
        encap_id: String::new(),
        origin: origin.to_string(),
    }
}

#[test]
fn parse_last_seen_accepts_both_formats_and_rejects_garbage() {
    let old = parse_last_seen("2026-07-11 10:00:00").unwrap();
    let new = parse_last_seen("2026-07-11 10:00:00.123456 UTC").unwrap();
    assert!((new.secs, new.nanos) > (old.secs, old.nanos));
    assert_eq!(new.secs, old.secs);
    assert_eq!(new.nanos, 123_456_000);
    assert!(parse_last_seen("pas une date").is_err());
}

#[test]
fn last_seen_before_1970_is_refused() {
    assert_eq!(
        parse_last_seen("1969-12-31 23:59:59").unwrap_err(),
        "date antérieure à 1970 : « 1969-12-31 23:59:59 »"
    );
}

#[test]
fn new_matrix_is_empty() {
    let matrix = FlowMatrix::new();
    assert!(matrix.matrix.is_empty());
    assert_eq!(matrix.row_count(), 0);
}

#[test]
fn validation_names_the_faulty_field() {
    let bad_ip = row("aa:bb:cc:dd:ee:ff", "999.1.1.1", 1, 10, "");
    assert_eq!(bad_ip.validate(LINKTYPE_ETHERNET).unwrap_err(), "ip_source invalide : « 999.1.1.1 »");
    let bad_mac = row("pas-une-mac", "192.168.1.1", 1, 10, "");
    assert_eq!(bad_mac.validate(LINKTYPE_ETHERNET).unwrap_err(), "mac_source invalide : « pas-une-mac »");
    let raw_with_mac = row("aa:bb:cc:dd:ee:ff", "192.168.1.1", 1, 10, "");
    assert_eq!(
        raw_with_mac.validate(LINKTYPE_RAW).unwrap_err(),
        "un relevé RAW ne peut pas porter d'adresse de liaison"
    );
    assert!(row("aa:bb:cc:dd:ee:ff", "192.168.1.1", 1, 10, "").validate(LINKTYPE_ETHERNET).is_ok());
}

#[test]
fn invalid_rows_are_reported_with_their_line() {
    let rows = vec![
        row("aa:bb:cc:dd:ee:ff", "192.168.1.1", 1, 10, ""),
        row("aa:bb:cc:dd:ee:ff", "192.168.11", 1, 10, ""),
    ];
    match check_matrix_rows(&rows, LINKTYPE_ETHERNET, 2, "bad.csv") {
        Err(SonarCoreError::InvalidCsv { path, message }) => {
            assert_eq!(path, "bad.csv");
            assert_eq!(message, "ligne 3 invalide: ip_source invalide : « 192.168.11 »");
        }
        other => panic!("attendu InvalidCsv, reçu {other:?}"),
    }
}

#[test]
fn duplicate_rows_merge_into_one_flow() {
    let rows = vec![
        row("aa:bb:cc:dd:ee:ff", "192.168.1.1", 3, 300, "a.csv"),
        row("aa:bb:cc:dd:ee:ff", "192.168.1.1", 7, 1234, "b.csv"),
        row("aa:bb:cc:dd:ee:01", "192.168.1.3", 1, 60, "a.csv"),
    ];
    let matrix = matrix_from_rows(&rows, LINKTYPE_ETHERNET).unwrap();
    assert_eq!(matrix.row_count(), 2, "le flux dupliqué doit être fusionné");
    let flat = matrix.to_flat_vec();
    let merged = flat.iter().find(|r| r.mac_source == "aa:bb:cc:dd:ee:ff").unwrap();
    assert_eq!(merged.count, 10);
    assert_eq!(merged.total_bytes, 1534);
    assert_eq!(merged.origin, "a.csv|b.csv");
}

#[test]
fn matrix_merges_two_files_and_doubles_counters() {
    let rows = || {
        vec![
            row("aa:bb:cc:dd:ee:ff", "192.168.1.1", 3, 300, ""),
            row("aa:bb:cc:dd:ee:01", "192.168.1.3", 1, 60, ""),
        ]
    };
    let file = |name: &str| MatrixFile {
        path: format!("/tmp/{name}"),
        origin: name.to_string(),
        link_type: LINKTYPE_ETHERNET,
        rows: rows(),
    };
    let single = merge_matrix_files(&[file("site-a.csv")]).unwrap();
    let merged = merge_matrix_files(&[file("site-a.csv"), file("site-b.csv")]).unwrap();
    assert_eq!(merged.row_count(), single.row_count(), "mêmes flux -> même nombre de lignes");
    let single_count: u64 = single.to_flat_vec().iter().map(|r| r.count).sum();
    let merged_count: u64 = merged.to_flat_vec().iter().map(|r| r.count).sum();
    assert_eq!(merged_count, single_count * 2, "compteurs cumulés");
    assert!(
        merged.to_flat_vec().iter().all(|r| r.origin == "site-a.csv|site-b.csv"),
        "chaque ligne trace ses deux fichiers d'origine"
    );
}

#[test]
fn files_of_two_link_types_are_not_merged() {
    let file = |name: &str, link_type: u32| MatrixFile {
        path: name.to_string(),
        origin: name.to_string(),
        link_type,
        rows: Vec::new(),
    };
    match merge_matrix_files(&[file("a.csv", LINKTYPE_ETHERNET), file("b.csv", LINKTYPE_RAW)]) {
        Err(SonarCoreError::MixedLinkTypes { path, found, expected }) => {
            assert_eq!(path, "b.csv");
            assert_eq!(found, LINKTYPE_RAW);
            assert_eq!(expected, LINKTYPE_ETHERNET);
        }
        Err(other) => panic!("attendu MixedLinkTypes, reçu {other:?}"),
        Ok(_) => panic!("attendu MixedLinkTypes, reçu une matrice"),
    }
    assert!(matches!(merge_matrix_files(&[]), Err(SonarCoreError::MissingInput)));
}

#[test]
fn addresses_are_rewritten_in_canonical_form_with_their_type() {
    let mut r = row("aa:bb:cc:dd:ee:ff", "2001:0db8:0::0001", 1, 10, "");
    r.ip_destination = "192.168.1.2".to_string();
    let matrix = matrix_from_rows(&[r], LINKTYPE_ETHERNET).unwrap();
    let flat = matrix.to_flat_vec();
    assert_eq!(flat[0].ip_source, "2001:db8::1");
    assert_eq!(flat[0].ip_source_type, "Documentation");
    assert_eq!(flat[0].ip_destination_type, "Privée");
}

#[test]
fn a_missing_input_file_is_named() {
    match validate_batch_paths(&["/nonexistent/sonar/capture.pcap".to_string()], "out.csv") {
        Err(SonarCoreError::MissingInputFile(path)) => assert_eq!(path, "/nonexistent/sonar/capture.pcap"),
        other => panic!("attendu MissingInputFile, reçu {other:?}"),
    }
    assert!(matches!(validate_batch_paths(&[], "out.csv"), Err(SonarCoreError::MissingInput)));
    assert!(matches!(validate_batch_paths(&["a".to_string()], ""), Err(SonarCoreError::MissingOutput)));
}

#[test]
fn labels_of_both_ends_of_a_flow_are_resolved() {
    let mut rows = vec![row("aa:bb:cc:dd:ee:ff", "192.168.1.1", 1, 10, "")];
    rows[0].label_source = Some("automate".to_string());
    let matrix = matrix_from_rows(&rows, LINKTYPE_ETHERNET).unwrap();
    let flat = matrix.to_flat_vec();
    assert_eq!(flat[0].label_source.as_deref(), Some("automate"));
    assert_eq!(flat[0].label_destination, None);
}

#[test]
fn export_then_reimport_keeps_counts_bytes_and_tunnel_split() {
    // A flow seen in two tunnels and outside any, and a flow seen in one
    // tunnel only: read back from the export, then exported again.
    let mut tunneled = row("aa:bb:cc:dd:ee:01", "10.0.0.1", 9, 900, "capture.pcap");
    tunneled.encap_id = "00000000000000aa:4|00000000000000bb:3".to_string();
    let mut single = row("aa:bb:cc:dd:ee:02", "10.0.0.2", 5, 500, "");
    single.encap_id = "00000000000000cc".to_string();
    let plain = row("aa:bb:cc:dd:ee:03", "10.0.0.3", 2, 64, "");
    let matrix = matrix_from_rows(&[tunneled, single, plain], LINKTYPE_ETHERNET).unwrap();
    let exported = matrix.to_flat_vec();
    let reimported = matrix_from_rows(&exported, LINKTYPE_ETHERNET).unwrap();
    assert_eq!(reimported.row_count(), matrix.row_count());
    let summary = |rows: Vec<FlowMatrixRow>| -> Vec<(String, String, Option<u16>, u64, u64, String)> {
        rows.into_iter()
            .map(|r| (r.mac_source, r.ip_source, r.port_source, r.count, r.total_bytes, r.encap_id))
            .collect()
    };
    let first = summary(exported);
    assert_eq!(first, summary(reimported.to_flat_vec()));
    assert!(first.contains(&(
        "aa:bb:cc:dd:ee:01".to_string(),
        "10.0.0.1".to_string(),
        Some(1234),
        9,
        900,
        "00000000000000aa:4|00000000000000bb:3".to_string()
    )));
    assert!(first.iter().any(|r| r.5 == "00000000000000cc" && r.3 == 5 && r.4 == 500));
}

#[test]
fn export_then_reimport_keeps_the_labels_of_both_ends() {
    let mut first = row("aa:bb:cc:dd:ee:01", "10.0.0.1", 1, 60, "");
    first.label_source = Some("pc sonar".to_string());
    first.label_destination = Some("'=automate".to_string());
    let matrix = matrix_from_rows(&[first], LINKTYPE_ETHERNET).unwrap();
    assert_eq!(matrix.get_label("11:22:33:44:55:66", "192.168.1.2"), Some("=automate".to_string()));
    let exported = matrix.to_flat_vec();
    assert_eq!(exported[0].label_destination, Some("'=automate".to_string()));
    let reimported = matrix_from_rows(&exported, LINKTYPE_ETHERNET).unwrap();
    assert_eq!(reimported.get_label("aa:bb:cc:dd:ee:01", "10.0.0.1"), Some("pc sonar".to_string()));
    assert_eq!(reimported.get_label("11:22:33:44:55:66", "192.168.1.2"), Some("=automate".to_string()));
}

#[test]
fn export_then_reimport_keeps_the_files_of_origin() {
    let first = row("aa:bb:cc:dd:ee:01", "10.0.0.1", 1, 60, "b.csv|a.csv");
    let second = row("aa:bb:cc:dd:ee:02", "10.0.0.2", 1, 60, "");
    let matrix = matrix_from_rows(&[first, second], LINKTYPE_ETHERNET).unwrap();
    let exported = matrix.to_flat_vec();
    let origins: Vec<String> = exported.iter().map(|r| r.origin.clone()).collect();
    assert!(origins.contains(&"a.csv|b.csv".to_string()));
    assert!(origins.contains(&String::new()));
    let reimported = matrix_from_rows(&exported, LINKTYPE_ETHERNET).unwrap();
    let again: Vec<String> = reimported.to_flat_vec().iter().map(|r| r.origin.clone()).collect();
    assert_eq!(origins, again);
}
