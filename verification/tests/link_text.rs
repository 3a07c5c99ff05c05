use packet_parser::parse::data_link::ethertype::Ethertype;
use sonar_flows::link::{
    CookedObservation, LinkLayer, LinkView, into_matrix_flow_identity, matrix_flow_identity,
    cooked_address_from_text, cooked_protocol_from_text, ethernet_link_from_text,
    ethertype_from_name, mac_from_text, matrix_link_from_text, LINKTYPE_ETHERNET, LINKTYPE_LINUX_SLL,
    LINKTYPE_LINUX_SLL2, LINKTYPE_RAW,
};

/// Observation details of a cooked header: direction and interface vary,
/// the hardware type is Ethernet.
fn observed(packet_type: u16, interface_index: u32) -> CookedObservation {
    CookedObservation { packet_type, hardware_type: 1, address_length: 6, interface_index, reserved: 0 }
}

#[test]
fn ethernet_round_trip_is_exact() {
    let view = ethernet_link_from_text("aa:bb:cc:dd:ee:ff", "11:22:33:44:55:66", "IPv4", None);
    assert_eq!(view.source_mac, "aa:bb:cc:dd:ee:ff");
    assert_eq!(view.destination_mac, "11:22:33:44:55:66");
    assert_eq!(view.protocol, "IPv4");
    assert_eq!(view.vlan_id, None);
}

#[test]
fn every_ethertype_name_is_invertible() {
    for code in [0x0000u16, 0x0800, 0x86DD, 0x0806, 0x88CC, 0x8892, 0xABCD] {
        let name = Ethertype(code).name();
        assert_eq!(ethertype_from_name(&name), Some(code), "nom non inversible : {name}");
    }
}

#[test]
fn raw_ip_round_trip_keeps_raw_kind() {
    let view = ethernet_link_from_text("", "", "IPv4", None);
    assert_eq!(view.source_mac, "");
    assert_eq!(view.destination_mac, "");
    assert_eq!(view.protocol, "IPv4");
    let raw = matrix_link_from_text(LINKTYPE_RAW, "", "", "IPv4", None).unwrap();
    assert_eq!(raw.source_mac, view.source_mac);
    assert_eq!(raw.protocol, view.protocol);
}

#[test]
fn cooked_text_round_trip_accepts_variable_address_and_unknown_protocol() {
    assert_eq!(cooked_address_from_text("01:02:03:04").unwrap(), Some(vec![1, 2, 3, 4]));
    assert!(cooked_address_from_text("00:01:02:03:04:05:06:07:08").is_err());
    assert_eq!(cooked_protocol_from_text("0xABCD"), Some(0xabcd));
    for link_type in [LINKTYPE_LINUX_SLL, LINKTYPE_LINUX_SLL2] {
        let view = matrix_link_from_text(link_type, "01:02:03:04", "", "0xABCD", None).unwrap();
        assert_eq!(view.source_mac, "01:02:03:04");
        assert_eq!(view.destination_mac, "");
        assert_eq!(view.protocol, "0xABCD");
        assert_eq!(view.vlan_id, None);
    }
}

#[test]
fn invalid_mac_is_rejected() {
    assert!(mac_from_text("pas-une-mac").is_none());
    assert!(mac_from_text("").is_none());
    assert!(mac_from_text("aa:bb:cc:dd:ee:ff").is_some());
}

#[test]
fn an_unknown_ethertype_keeps_its_hexadecimal_form() {
    assert_eq!(ethertype_from_name("Unknown (0xABCD)"), Some(0xabcd));
    assert_eq!(ethertype_from_name("LLDP"), Some(0x88cc));
    assert_eq!(ethertype_from_name("Unknown (0x)"), None);
    assert_eq!(ethertype_from_name("pas un protocole"), None);
}

#[test]
fn ethernet_path_fills_unreadable_fields_with_zero() {
    let view = ethernet_link_from_text("", "11:22:33:44:55:66", "IPv4", Some(7));
    assert_eq!(view.source_mac, "00:00:00:00:00:00");
    assert_eq!(view.vlan_id, Some(7));
    let unknown = matrix_link_from_text(LINKTYPE_ETHERNET, "aa:bb:cc:dd:ee:ff", "11:22:33:44:55:66", "???", None).unwrap();
    assert_eq!(unknown.protocol, "Unknown (0x0000)");
}

#[test]
fn link_reconstruction_errors_name_the_field() {
    assert_eq!(
        matrix_link_from_text(LINKTYPE_RAW, "", "", "ARP", None).unwrap_err(),
        "protocole RAW invalide : « ARP » (attendu : IPv4 ou IPv6)"
    );
    assert_eq!(
        matrix_link_from_text(LINKTYPE_LINUX_SLL, "01:02", "", "???", None).unwrap_err(),
        "protocole cooked invalide : « ??? » (attendu : nom connu ou 0xNNNN)"
    );
    assert_eq!(
        matrix_link_from_text(42, "", "", "IPv4", None).unwrap_err(),
        "type de liaison non reconstructible : 42"
    );
}

#[test]
fn the_projection_reads_back_through_the_csv() {
    let links = vec![
        (LINKTYPE_ETHERNET, LinkLayer::Ethernet {
            source_mac: vec![0xaa, 0xbb, 0xcc, 0xdd, 0xee, 0xff],
            destination_mac: vec![0x11, 0x22, 0x33, 0x44, 0x55, 0x66],
            ethertype: 0x88cc,
            vlan_id: Some(12),
        }),
        (LINKTYPE_ETHERNET, LinkLayer::Ethernet {
            source_mac: vec![0, 1, 2, 3, 4, 5],
            destination_mac: vec![6, 7, 8, 9, 10, 11],
            ethertype: 0xabcd,
            vlan_id: None,
        }),
        (LINKTYPE_RAW, LinkLayer::Other { network_protocol: "IPv6".to_string() }),
        (LINKTYPE_LINUX_SLL, LinkLayer::LinuxSll {
            source_address: Some(vec![0xaa, 0xbb, 0xcc, 0xdd]),
            protocol: 0x0800,
            observation: observed(4, 3),
        }),
        (LINKTYPE_LINUX_SLL2, LinkLayer::LinuxSll2 { source_address: None, protocol: 0xabcd, observation: observed(0, 2) }),
    ];
    for (link_type, link) in links {
        let view = LinkView::of(&link);
        let back = matrix_link_from_text(link_type, &view.source_mac, &view.destination_mac, &view.protocol, view.vlan_id)
            .expect("réimport exact");
        assert!(back.same_as(&view), "aller-retour inexact pour {:?}", view);
    }
}

#[test]
fn the_projection_writes_the_link_fields() {
    let view = LinkView::of(&LinkLayer::Ethernet {
        source_mac: vec![0xaa, 0xbb, 0xcc, 0xdd, 0xee, 0xff],
        destination_mac: vec![0x11, 0x22, 0x33, 0x44, 0x55, 0x66],
        ethertype: 0x0800,
        vlan_id: None,
    });
    assert_eq!(view.source_mac, "aa:bb:cc:dd:ee:ff");
    assert_eq!(view.protocol, "IPv4");
    let cooked = LinkView::of(&LinkLayer::LinuxSll2 {
        source_address: Some(vec![1, 2, 3, 4]),
        protocol: 0xabcd,
        observation: observed(4, 9),
    });
    assert_eq!(cooked.source_mac, "01:02:03:04");
    assert_eq!(cooked.destination_mac, "");
    assert_eq!(cooked.protocol, "0xABCD");
    let raw = LinkView::of(&LinkLayer::Other { network_protocol: "IPv4".to_string() });
    assert_eq!((raw.source_mac.as_str(), raw.destination_mac.as_str(), raw.protocol.as_str()), ("", "", "IPv4"));
}

#[test]
fn cooked_identity_resets_the_observation_point() {
    let link = LinkLayer::LinuxSll2 {
        source_address: Some(vec![0xaa, 0xbb, 0xcc, 0xdd]),
        protocol: 0x0800,
        observation: observed(4, 7),
    };
    let identity = matrix_flow_identity(&link);
    match identity {
        LinkLayer::LinuxSll2 { source_address, protocol, observation } => {
            assert_eq!(source_address, Some(vec![0xaa, 0xbb, 0xcc, 0xdd]));
            assert_eq!(protocol, 0x0800);
            assert_eq!(
                observation,
                CookedObservation { packet_type: 0, hardware_type: 0, address_length: 4, interface_index: 0, reserved: 0 }
            );
        }
        _ => panic!("une liaison cooked v2 reste cooked v2"),
    }
    // The link itself is left untouched.
    match link {
        LinkLayer::LinuxSll2 { observation, .. } => assert_eq!(observation, observed(4, 7)),
        _ => unreachable!(),
    }
}

#[test]
fn two_cooked_observations_share_one_identity() {
    let first = LinkLayer::LinuxSll { source_address: None, protocol: 0x86dd, observation: observed(0, 1) };
    let second = LinkLayer::LinuxSll { source_address: None, protocol: 0x86dd, observation: observed(4, 0) };
    match (into_matrix_flow_identity(first), into_matrix_flow_identity(second)) {
        (
            LinkLayer::LinuxSll { observation: a, source_address: sa, protocol: pa },
            LinkLayer::LinuxSll { observation: b, source_address: sb, protocol: pb },
        ) => {
            assert_eq!(a, b);
            assert_eq!(a.address_length, 0);
            assert_eq!((sa, pa), (sb, pb));
        }
        _ => panic!("une liaison cooked v1 reste cooked v1"),
    }
}

#[test]
fn an_ethernet_link_is_its_own_identity() {
    let link = LinkLayer::Ethernet {
        source_mac: vec![0xaa, 0xbb, 0xcc, 0xdd, 0xee, 0xff],
        destination_mac: vec![0x11, 0x22, 0x33, 0x44, 0x55, 0x66],
        ethertype: 0x0800,
        vlan_id: Some(5),
    };
    let identity = into_matrix_flow_identity(link);
    let view = LinkView::of(&identity);
    assert_eq!(view.source_mac, "aa:bb:cc:dd:ee:ff");
    assert_eq!(view.destination_mac, "11:22:33:44:55:66");
    assert_eq!(view.vlan_id, Some(5));
}

#[test]
fn a_signed_octet_or_protocol_is_refused() {
    assert_eq!(
        cooked_address_from_text("+1:02").unwrap_err(),
        "adresse cooked invalide : « +1:02 »"
    );
    assert!(cooked_address_from_text("0a:+f").is_err());
    assert_eq!(cooked_protocol_from_text("0x+ABC"), None);
    assert_eq!(cooked_protocol_from_text("0xabcd"), Some(0xabcd));
}
