use sonar_flows::dto::{ConnectionStatus, DeviceFlags, IfFlags};
use sonar_flows::error::SonarCoreError;
use sonar_flows::flow_matrix::{CapturedPacketOwned, FlowKey, FlowMatrix, InternetKey};
use sonar_flows::link::LinkView;
use sonar_flows::project::{check_manifest, detect_recovery, get_recovery_offer, ProjectManifest, PROJECT_SCHEMA_VERSION};
use sonar_flows::state_errors::{CaptureStateError, PcapImportError, PcapProcessingError};

#[test]
fn pcap_open_becomes_import_open_file_error() {
    let err = CaptureStateError::from_core_error(SonarCoreError::PcapOpen {
        path: "capture.pcap".to_string(),
        message: "permission refusée".to_string(),
    });
    match err {
        CaptureStateError::Import(PcapImportError::OpenFileError(path, message)) => {
            assert_eq!(path, "capture.pcap");
            assert_eq!(message, "permission refusée");
        }
        other => panic!("attendu Import(OpenFileError), reçu {other:?}"),
    }
}

#[test]
fn pcap_read_becomes_import_read_packet_error() {
    let err = CaptureStateError::from_core_error(SonarCoreError::PcapRead {
        path: "capture.pcap".to_string(),
        message: "paquet tronqué".to_string(),
    });
    match err {
        CaptureStateError::Import(PcapImportError::ReadPacketError(path, message)) => {
            assert_eq!(path, "capture.pcap");
            assert_eq!(message, "paquet tronqué");
        }
        other => panic!("attendu Import(ReadPacketError), reçu {other:?}"),
    }
}

#[test]
fn unsupported_link_type_is_preserved() {
    let err = CaptureStateError::from_core_error(SonarCoreError::UnsupportedLinkType {
        path: "capture.pcap".to_string(),
        label: "DLT_RAW".to_string(),
    });
    match err {
        CaptureStateError::Import(PcapImportError::UnsupportedLinkType(path, label)) => {
            assert_eq!(path, "capture.pcap");
            assert_eq!(label, "DLT_RAW");
        }
        other => panic!("attendu Import(UnsupportedLinkType), reçu {other:?}"),
    }
}

#[test]
fn io_variant_passes_through() {
    let err = CaptureStateError::from_core_error(SonarCoreError::Io("fichier introuvable".to_string()));
    match err {
        CaptureStateError::Io(message) => assert_eq!(message, "fichier introuvable"),
        other => panic!("attendu Io, reçu {other:?}"),
    }
}

#[test]
fn missing_input_becomes_typed_import_error() {
    match CaptureStateError::from_core_error(SonarCoreError::MissingInput) {
        CaptureStateError::Import(PcapImportError::MissingInput(operation)) => {
            assert_eq!(operation, "cet import");
        }
        other => panic!("attendu Import(MissingInput), reçu {other:?}"),
    }
}

#[test]
fn core_error_messages_name_the_file() {
    assert_eq!(SonarCoreError::MissingInput.message(), "at least one input file is required");
    assert_eq!(
        SonarCoreError::MissingInputFile("a.pcap".to_string()).message(),
        "input file does not exist: a.pcap"
    );
    assert_eq!(
        SonarCoreError::MixedLinkTypes { path: "b.pcap".to_string(), found: 101, expected: 1 }.message(),
        "b.pcap: type de liaison 101 incompatible avec le relevé en cours (1) : une fusion ne concerne que des relevés du même réseau (même type de liaison)"
    );
    assert_eq!(
        PcapProcessingError::OpenFileError("a.pcap".to_string(), "absent".to_string()).message(),
        "Failed to open pcap file a.pcap: absent"
    );
}

fn manifest(schema_version: u32) -> ProjectManifest {
    ProjectManifest {
        schema_version,
        app_version: "9.9.9".to_string(),
        sfms_version: "1".to_string(),
        dlt: Some("ETHERNET".to_string()),
        matrix_rows: 2,
        label_rows: 1,
        saved_at_epoch_secs: 0,
    }
}

#[test]
fn future_schema_version_is_refused_before_any_mutation() {
    assert!(check_manifest("p.sonar", &manifest(PROJECT_SCHEMA_VERSION)).is_ok());
    match check_manifest("p.sonar", &manifest(PROJECT_SCHEMA_VERSION + 1)) {
        Err(PcapImportError::OpenFileError(path, message)) => {
            assert_eq!(path, "p.sonar");
            assert_eq!(
                message,
                "projet au schéma v2 (créé par SONAR 9.9.9), cette version ne lit que v1 au plus — mettez SONAR à jour pour l'ouvrir"
            );
        }
        other => panic!("attendu OpenFileError, reçu {other:?}"),
    }
}

#[test]
fn recovery_needs_both_sentinel_and_autosave() {
    let path = "autosave/autosave.sonar".to_string();
    assert!(detect_recovery(false, false, path.clone()).0.is_none(), "dossier vide : rien à récupérer");
    assert!(detect_recovery(true, false, path.clone()).0.is_none(), "sentinelle sans autosave");
    let offer = detect_recovery(true, true, path.clone());
    assert_eq!(get_recovery_offer(&offer), Some(path.clone()), "sentinelle + autosave");
    assert!(detect_recovery(false, true, path).0.is_none(), "fermeture propre");
}

#[test]
fn interface_flags_carry_their_raw_bits() {
    let flags = DeviceFlags { if_flags: IfFlags { bits: 0b101 }, connection_status: ConnectionStatus::Connected };
    assert_eq!(flags.if_flags.bits, 0b101);
    assert_eq!(flags.connection_status, ConnectionStatus::Connected);
}

fn flow(mac: &str, ip: &str) -> FlowKey {
    FlowKey {
        link: LinkView {
            source_mac: mac.to_string(),
            destination_mac: "ff:ff:ff:ff:ff:ff".to_string(),
            protocol: "IPv4".to_string(),
            vlan_id: None,
        },
        internet: Some(InternetKey {
            source_ip: Some(ip.to_string()),
            ip_source_type: Some("Privée".to_string()),
            destination_ip: Some("0.0.0.0".to_string()),
            ip_destination_type: Some("Privée".to_string()),
            protocol: "IPv4".to_string(),
        }),
        transport: None,
        application: None,
    }
}

#[test]
fn labels_are_observed_or_dormant() {
    let mut matrix = FlowMatrix::new();
    let pkt = CapturedPacketOwned {
        ts_sec: 1,
        ts_usec: 0,
        caplen: 60,
        len: 60,
        flow: flow("aa:bb:cc:dd:ee:01", "192.168.1.10"),
        encap_id: None,
    };
    matrix.update_flow(&pkt);
    let labels = vec![
        ("aa:bb:cc:dd:ee:01".to_string(), "192.168.1.10".to_string(), "automate".to_string()),
        ("aa:bb:cc:dd:ee:01".to_string(), String::new(), "par mac".to_string()),
        (String::new(), "192.168.1.10".to_string(), "par ip".to_string()),
        ("aa:bb:cc:dd:ee:02".to_string(), "192.168.1.10".to_string(), "autre".to_string()),
        ("ff:ff:ff:ff:ff:ff".to_string(), String::new(), "diffusion".to_string()),
        (String::new(), String::new(), "vide".to_string()),
    ];
    let statuses = matrix.labels_with_status(&labels);
    let observed: Vec<bool> = statuses.iter().map(|s| s.observed).collect();
    assert_eq!(observed, vec![true, true, true, false, false, false]);
    assert_eq!(statuses[0].label, "automate");
}
