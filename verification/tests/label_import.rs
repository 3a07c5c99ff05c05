use sonar_flows::flow_matrix::FlowMatrix;
use sonar_flows::labels::{copy_labels_to_matrix, resolve_label_conflicts, LabelConflictReport, LabelConflictStore, LabelResolution, LabelRow, LabelRecord, check_label_records, dedup_labels_first_wins, is_header_row, is_mac_address, is_matrix_export_header, verif_labels_conflicts_rows, verif_mac_ip_format_rows, normalize_label_key, LabelError};
use sonar_flows::state_errors::CaptureStateError;

fn label_row(line: usize, mac: &str, ip: &str, label: &str) -> LabelRow {
    LabelRow {
        line,
        raw: format!("{mac},{ip},{label}"),
        mac: mac.to_string(),
        ip: ip.to_string(),
        label: label.to_string(),
    }
}

fn keeps_first_and_records_conflict() {
    let rows = vec![
        label_row(1, "48:9e:bd:31:62:32", "100.180.65.57", "SIE - PC TELEC"),
        label_row(2, "48:9e:bd:31:62:32", "100.180.65.57", "TVD09"),
        label_row(3, "aa:bb:cc:dd:ee:ff", "192.168.1.1", "autre"),
    ];

    let (kept, conflicts) = dedup_labels_first_wins(rows);

    assert_eq!(kept.len(), 2);
    let telec = kept.iter().find(|r| r.mac == "48:9e:bd:31:62:32").unwrap();
    assert_eq!(telec.label, "SIE - PC TELEC", "le premier label est gardé");

    assert_eq!(conflicts.len(), 1);
    assert_eq!(conflicts[0].ip, "100.180.65.57");
    assert_eq!(conflicts[0].kept.1, "SIE - PC TELEC");
    assert_eq!(conflicts[0].dropped.len(), 1);
    assert_eq!(conflicts[0].dropped[0].1, "TVD09");
}

fn no_conflict_when_same_label_repeated() {
    let rows = vec![
        label_row(1, "48:9e:bd:45:40:92", "100.180.65.40", "SIC21-CSD"),
        label_row(2, "48:9e:bd:45:40:92", "100.180.65.40", "SIC21-CSD"),
    ];

    let (kept, conflicts) = dedup_labels_first_wins(rows);

    assert_eq!(kept.len(), 1);
    assert!(conflicts.is_empty(), "même label répété -> pas un conflit");
}

fn distinct_keys_are_all_kept() {
    let rows = vec![
        label_row(1, "84:a9:38:5e:d1:51", "100.180.65.32", "SIE - COMMIS"),
        label_row(2, "a0:2b:b8:3d:a2:7e", "100.180.65.32", "SIC21-SIC"),
    ];

    let (kept, conflicts) = dedup_labels_first_wins(rows);

    assert_eq!(kept.len(), 2);
    assert!(conflicts.is_empty());
}

#[test]
fn labels_dedup_first_wins_keeps_first_and_records_conflict() {
    keeps_first_and_records_conflict();
}

#[test]
fn labels_dedup_first_wins_no_conflict_when_same_label_repeated() {
    no_conflict_when_same_label_repeated();
}

#[test]
fn labels_dedup_first_wins_distinct_keys_are_all_kept() {
    distinct_keys_are_all_kept();
}

#[test]
fn conflicts_dedup_first_wins_keeps_first_and_records_conflict() {
    keeps_first_and_records_conflict();
}

#[test]
fn conflicts_dedup_first_wins_no_conflict_when_same_label_repeated() {
    no_conflict_when_same_label_repeated();
}

#[test]
fn conflicts_dedup_first_wins_distinct_keys_are_all_kept() {
    distinct_keys_are_all_kept();
}

#[test]
fn dedup_keeps_first_appearance_order_and_lists_every_dropped_label() {
    let rows = vec![
        label_row(1, "aa:aa:aa:aa:aa:aa", "10.0.0.1", "A"),
        label_row(2, "bb:bb:bb:bb:bb:bb", "10.0.0.2", "B"),
        label_row(3, "aa:aa:aa:aa:aa:aa", "10.0.0.1", "A2"),
        label_row(4, "aa:aa:aa:aa:aa:aa", "10.0.0.1", "A"),
        label_row(5, "aa:aa:aa:aa:aa:aa", "10.0.0.1", "A3"),
    ];
    let (kept, conflicts) = dedup_labels_first_wins(rows);
    assert_eq!(kept.iter().map(|r| r.line).collect::<Vec<_>>(), vec![1, 2]);
    assert_eq!(conflicts.len(), 1);
    assert_eq!(conflicts[0].kept.0, 1);
    assert_eq!(
        conflicts[0].dropped.iter().map(|c| (c.0, c.1.clone())).collect::<Vec<_>>(),
        vec![(3, "A2".to_string()), (5, "A3".to_string())]
    );
}

#[test]
fn header_detection_is_strict() {
    let header = LabelRow {
        line: 1,
        raw: "MAC,IP,Label".into(),
        mac: "MAC".into(),
        ip: "IP".into(),
        label: "Label".into(),
    };
    assert!(is_header_row(&header));

    let invalid_data = LabelRow {
        line: 1,
        raw: "pas-une-mac,pas-une-ip,label".into(),
        mac: "pas-une-mac".into(),
        ip: "pas-une-ip".into(),
        label: "label".into(),
    };
    assert!(
        !is_header_row(&invalid_data),
        "une ligne invalide n'est pas un en-tête"
    );
}

#[test]
fn french_header_is_recognized() {
    assert!(is_header_row(&label_row(1, "Adresse_MAC", "adresse_ip", "label")));
}

#[test]
fn mac_address_form() {
    assert!(is_mac_address("aa:bb:cc:dd:ee:ff"));
    assert!(is_mac_address("AA:BB:CC:DD:EE:FF"));
    assert!(!is_mac_address("aa:bb:cc:dd:e:ff"));
    assert!(!is_mac_address("aa:bb:cc:dd:ee"));
    assert!(!is_mac_address("aa:bb:cc:dd:ee:fg"));
}

#[test]
fn malformed_ip_is_reported_with_its_line() {
    let rows = vec![
        label_row(1, "mac", "ip", "label"),
        label_row(2, "aa:bb:cc:dd:ee:ff", "192.168.11", "mon-pc"),
    ];
    match verif_mac_ip_format_rows(&rows) {
        Err(LabelError::InvalidMacIpFormat { invalid_mac, invalid_ip }) => {
            assert!(invalid_mac.is_empty());
            assert_eq!(
                invalid_ip,
                vec![(2, "192.168.11".to_string(), "aa:bb:cc:dd:ee:ff,192.168.11,mon-pc".to_string())]
            );
        }
        other => panic!("erreur inattendue: {other:?}"),
    }
}

#[test]
fn empty_mac_and_ip_are_accepted() {
    let rows = vec![
        label_row(1, "aa:bb:cc:dd:ee:ff", "", "mon-pc"),
        label_row(2, "", "192.168.1.1", "mon-pc"),
        label_row(3, "", "", "mon-pc"),
    ];
    assert!(verif_mac_ip_format_rows(&rows).is_ok());
}

#[test]
fn malformed_mac_returns_error() {
    let rows = vec![label_row(1, "aa:bb:cc:dd:e:ff", "192.168.1.1", "mon-pc")];
    assert!(verif_mac_ip_format_rows(&rows).is_err());
}

fn record(line: usize, fields: &[&str]) -> LabelRecord {
    LabelRecord::Fields {
        line,
        fields: fields.iter().map(|f| f.to_string()).collect(),
        blank: fields.iter().all(|f| f.trim().is_empty()),
    }
}

#[test]
fn a_flow_matrix_given_as_label_file_gets_one_clear_error() {
    let records = vec![
        record(1, &["mac_source", "mac_destination", "vlan_id"]),
        record(2, &["aa:bb:cc:dd:ee:ff", "11:22:33:44:55:66", ""]),
    ];
    match check_label_records(&records) {
        Err(LabelError::InvalidRowsFormat { invalid_lines }) => {
            assert_eq!(invalid_lines.len(), 1);
            assert_eq!(invalid_lines[0].0, 1);
            assert!(invalid_lines[0].1.starts_with("ce fichier est une matrice de flux exportée"));
        }
        other => panic!("attendu InvalidRowsFormat, reçu {other:?}"),
    }
}

#[test]
fn short_and_unreadable_records_are_reported_with_their_line() {
    let records = vec![
        record(1, &["aa:bb:cc:dd:ee:ff", "192.168.1.1", "automate"]),
        record(2, &["", ""]),
        record(3, &["aa:bb:cc:dd:ee:01", "192.168.1.2"]),
        LabelRecord::Unreadable { line: 4, message: "guillemet non fermé".to_string() },
    ];
    match check_label_records(&records) {
        Err(LabelError::InvalidRowsFormat { invalid_lines }) => {
            assert_eq!(
                invalid_lines,
                vec![
                    (3, "aa:bb:cc:dd:ee:01,192.168.1.2".to_string()),
                    (4, "guillemet non fermé".to_string()),
                ]
            );
        }
        other => panic!("attendu InvalidRowsFormat, reçu {other:?}"),
    }
}

#[test]
fn well_formed_records_are_kept_and_blank_ones_skipped() {
    let records = vec![
        record(1, &["", "", ""]),
        record(2, &["aa:bb:cc:dd:ee:ff", "192.168.1.1", "automate", "extra"]),
    ];
    let kept = check_label_records(&records).unwrap();
    assert_eq!(kept.len(), 1);
    assert_eq!(kept[0].0, 2);
    assert_eq!(kept[0].1.len(), 4);
    assert!(!is_matrix_export_header(&kept[0].1));
}

#[test]
fn rows_without_shared_key_have_no_conflict() {
    let rows = vec![
        label_row(1, "aa:bb:cc:dd:ee:ff", "192.168.1.1", "mon-pc"),
        label_row(2, "aa:bb:cc:dd:ee:1f", "192.168.1.2", "ma-tablette"),
        label_row(3, "aa:bb:cc:dd:ee:ff", "192.168.1.3", "mon-tel"),
    ];
    assert!(verif_labels_conflicts_rows(&rows).is_ok());
    assert!(verif_labels_conflicts_rows(&[]).is_ok());
}

#[test]
fn rows_sharing_an_ip_under_two_macs_have_no_conflict() {
    let rows = vec![
        label_row(1, "aa:bb:cc:dd:ee:ff", "192.168.1.1", "poste-A"),
        label_row(2, "aa:bb:cc:dd:ee:1f", "192.168.1.1", "poste-B"),
    ];
    assert!(verif_labels_conflicts_rows(&rows).is_ok());
}

#[test]
fn rows_giving_one_key_two_labels_conflict() {
    let rows = vec![
        label_row(1, "aa:bb:cc:dd:ee:ff", "192.168.1.1", "mon-pc"),
        label_row(2, "aa:bb:cc:dd:ee:ff", "192.168.1.1", "ma-tablette"),
    ];
    match verif_labels_conflicts_rows(&rows).unwrap_err() {
        LabelError::LabelLinesConflicts { same_ip_diff_mac, same_ip_diff_label } => {
            assert!(same_ip_diff_mac.is_empty());
            assert_eq!(same_ip_diff_label.len(), 1);
            let (l1, l2, ip, a, b, raw1, raw2) = &same_ip_diff_label[0];
            assert_eq!((*l1, *l2), (1, 2));
            assert_eq!(ip, "192.168.1.1");
            assert_eq!(a, "mon-pc");
            assert_eq!(b, "ma-tablette");
            assert_eq!(raw1, "aa:bb:cc:dd:ee:ff,192.168.1.1,mon-pc");
            assert_eq!(raw2, "aa:bb:cc:dd:ee:ff,192.168.1.1,ma-tablette");
        }
        error => panic!("erreur inattendue: {error:?}"),
    }
}

#[test]
fn every_conflicting_pair_is_reported_in_order() {
    let rows = vec![
        label_row(1, "mac", "ip", "label"),
        label_row(2, "aa:bb:cc:dd:ee:ff", "10.0.0.1", "a"),
        label_row(3, "aa:bb:cc:dd:ee:ff", "10.0.0.1", "b"),
        label_row(4, "aa:bb:cc:dd:ee:ff", "10.0.0.1", "c"),
    ];
    match verif_labels_conflicts_rows(&rows).unwrap_err() {
        LabelError::LabelLinesConflicts { same_ip_diff_label, .. } => {
            let pairs: Vec<(usize, usize)> = same_ip_diff_label.iter().map(|c| (c.0, c.1)).collect();
            assert_eq!(pairs, vec![(2, 3), (2, 4), (3, 4)]);
        }
        error => panic!("erreur inattendue: {error:?}"),
    }
}

#[test]
fn shared_placeholder_ips_and_broadcast_macs_raise_no_conflict() {
    let placeholder = vec![
        label_row(1, "48:21:0b:41:45:65", "0.0.0.0", "TVD09"),
        label_row(2, "fc:3f:db:37:5e:0f", "0.0.0.0", "SIE"),
        label_row(3, "48:21:0b:41:45:65", "::", "TVD09"),
    ];
    assert!(verif_labels_conflicts_rows(&placeholder).is_ok());
    let broadcast = vec![
        label_row(1, "48:9e:bd:45:40:92", "100.180.65.40", "SIC21-CSD"),
        label_row(2, "ff:ff:ff:ff:ff:ff", "100.180.65.40", "SIC21-CSD"),
    ];
    assert!(verif_labels_conflicts_rows(&broadcast).is_ok());
    let empty_ip = vec![
        label_row(1, "aa:bb:cc:dd:ee:f1", "", "mon-pc"),
        label_row(2, "aa:bb:cc:dd:ee:ff", "", "ma-tablette"),
    ];
    assert!(verif_labels_conflicts_rows(&empty_ip).is_ok());
}

#[test]
fn rows_kept_by_first_wins_pass_the_conflict_check() {
    let rows = vec![
        label_row(1, "aa:bb:cc:dd:ee:ff", "10.0.0.1", "a"),
        label_row(2, "aa:bb:cc:dd:ee:ff", "10.0.0.1", "b"),
        label_row(3, "aa:bb:cc:dd:ee:01", "10.0.0.1", "c"),
    ];
    assert!(verif_labels_conflicts_rows(&rows).is_err());
    let (kept, _) = dedup_labels_first_wins(rows);
    assert!(verif_labels_conflicts_rows(&kept).is_ok());
}

fn labels_to_matrix_loads_labels_into_matrix() {
    let mut matrix = FlowMatrix::new();
    let label_store = vec![
        (String::from("aa:bb:cc:dd:ee:ff"), String::from("192.168.1.1"), String::from("mon-pc")),
        (String::from("aa:bb:cc:d5:ee:ff"), String::from("192.168.1.10"), String::from("ma-télé")),
        (String::from("aa:bb:cc:dd:ee:55"), String::from("aa:bb:cc:dd:ee:55"), String::from("mon-aspi")),
    ];
    copy_labels_to_matrix(&label_store, &mut matrix).unwrap();
    assert_eq!(matrix.get_label_list().len(), 3)
}

#[test]
fn labels_labels_to_matrix_loads_labels_into_matrix() {
    labels_to_matrix_loads_labels_into_matrix();
}

#[test]
fn commands_labels_to_matrix_loads_labels_into_matrix() {
    labels_to_matrix_loads_labels_into_matrix();
}

#[test]
fn a_later_label_for_one_key_replaces_the_earlier() {
    let mut matrix = FlowMatrix::new();
    let labels = vec![
        (String::from("aa:bb:cc:dd:ee:ff"), String::from("10.0.0.1"), String::from("ancien")),
        (String::from("aa:bb:cc:dd:ee:ff"), String::from("10.0.0.1"), String::from("nouveau")),
    ];
    copy_labels_to_matrix(&labels, &mut matrix).unwrap();
    assert_eq!(matrix.get_label_list(), vec!["nouveau".to_string()]);
    assert_eq!(matrix.get_label("aa:bb:cc:dd:ee:ff", "10.0.0.1"), Some("nouveau".to_string()));
}

fn conflict(mac: &str, ip: &str, kept: &str, dropped: &str) -> LabelConflictReport {
    LabelConflictReport {
        mac: mac.to_string(),
        ip: ip.to_string(),
        kept: (1, kept.to_string(), format!("{mac},{ip},{kept}")),
        dropped: vec![(2, dropped.to_string(), format!("{mac},{ip},{dropped}"))],
    }
}

#[test]
fn arbitration_applies_the_choice_and_keeps_unsettled_conflicts() {
    let mut matrix = FlowMatrix::new();
    let mut store = LabelConflictStore {
        conflicts: vec![
            conflict("aa:bb:cc:dd:ee:01", "10.0.0.1", "SIE", "TVD09"),
            conflict("aa:bb:cc:dd:ee:02", "10.0.0.2", "A", "B"),
            conflict("aa:bb:cc:dd:ee:03", "10.0.0.3", "C", "D"),
        ],
    };
    let resolutions = vec![LabelResolution {
        mac: "aa:bb:cc:dd:ee:02".to_string(),
        ip: "10.0.0.2".to_string(),
        label: "B".to_string(),
    }];
    resolve_label_conflicts(&resolutions, &mut matrix, &mut store);
    assert_eq!(matrix.get_label("aa:bb:cc:dd:ee:02", "10.0.0.2"), Some("B".to_string()));
    let remaining: Vec<&str> = store.conflicts.iter().map(|c| c.ip.as_str()).collect();
    assert_eq!(remaining, vec!["10.0.0.1", "10.0.0.3"]);
}

#[test]
fn normalize_label_key_normalizes_and_rejects() {
    let (mac, ip) = normalize_label_key("AA:BB:CC:DD:EE:FF", "2001:0db8:0::0001").unwrap();
    assert_eq!(mac, "aa:bb:cc:dd:ee:ff");
    assert_eq!(ip, "2001:db8::1");

    let (mac, ip) = normalize_label_key("", "192.168.1.10").unwrap();
    assert_eq!((mac.as_str(), ip.as_str()), ("", "192.168.1.10"));
    assert!(normalize_label_key("", "").is_err());

    assert!(normalize_label_key("pas-une-mac", "192.168.1.10").is_err());
    assert!(normalize_label_key("aa:bb:cc:dd:ee:ff", "999.1.1.1").is_err());
}

#[test]
fn a_hand_entered_key_reports_its_faults_like_the_file_import() {
    match normalize_label_key("AA:BB", "999.1.1.1") {
        Err(CaptureStateError::Label(LabelError::InvalidMacIpFormat { invalid_mac, invalid_ip })) => {
            assert_eq!(invalid_mac, vec![(1, "aa:bb".to_string(), "aa:bb,999.1.1.1".to_string())]);
            assert_eq!(invalid_ip, vec![(1, "999.1.1.1".to_string(), "aa:bb,999.1.1.1".to_string())]);
        }
        other => panic!("unexpected outcome: {:?}", other),
    }
    match normalize_label_key("", "") {
        Err(CaptureStateError::Label(LabelError::InvalidRowsFormat { invalid_lines })) => {
            assert_eq!(invalid_lines, vec![(1, "MAC et IP tous deux vides".to_string())]);
        }
        other => panic!("unexpected outcome: {:?}", other),
    }
    let (mac, ip) = normalize_label_key("aa:bb:cc:dd:ee:ff", "").unwrap();
    assert_eq!((mac.as_str(), ip.as_str()), ("aa:bb:cc:dd:ee:ff", ""));
}
