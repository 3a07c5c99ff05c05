use sonar_flows::matrix::{
    FlowStats, Timestamp, escape_formula_cell, format_encap_list, is_non_unicast_mac,
    is_placeholder_ip, parse_encap_list, parse_origin_list, unescape_formula_cell,
};

fn epoch() -> Timestamp {
    Timestamp::unix_epoch()
}

#[test]
fn formula_cells_are_escaped_and_roundtrip() {
    assert_eq!(escape_formula_cell("=SUM(A1)"), "'=SUM(A1)");
    assert_eq!(escape_formula_cell("@cmd"), "'@cmd");
    assert_eq!(escape_formula_cell("Automate 3"), "Automate 3");
    assert_eq!(unescape_formula_cell("'=SUM(A1)"), "=SUM(A1)");
    assert_eq!(
        unescape_formula_cell("'apostrophe légitime"),
        "'apostrophe légitime"
    );
}

#[test]
fn encap_list_roundtrips_through_format_and_parse() {
    for encap in [
        "",
        "000000000000aaaa",
        "000000000000aaaa:2|000000000000bbbb:1",
    ] {
        let entries = parse_encap_list(encap, 3, 300, epoch());
        assert_eq!(
            entries.iter().map(|(_, s)| s.count).sum::<u64>(),
            3,
            "le compteur total doit être conservé pour {encap:?}"
        );
        assert_eq!(
            entries.iter().map(|(_, s)| s.total_bytes).sum::<u64>(),
            300,
            "les octets totaux doivent être conservés pour {encap:?}"
        );
        assert_eq!(format_encap_list(&entries), encap, "aller-retour");
    }

    let entries = parse_encap_list("000000000000aaaa:2", 3, 300, epoch());
    assert_eq!(entries.len(), 2, "part hors tunnel sur une entrée None");
    assert!(entries.iter().any(|(id, s)| id.is_none() && s.count == 1));
}

#[test]
fn encap_list_of_untunneled_flow_is_empty() {
    let stats = FlowStats { count: 4, total_bytes: 40, last_seen: epoch() };
    assert_eq!(format_encap_list(&[(None, stats)]), "");
}

#[test]
fn encap_list_of_two_tunnels_lists_counts() {
    let a = FlowStats { count: 2, total_bytes: 20, last_seen: epoch() };
    let b = FlowStats { count: 1, total_bytes: 10, last_seen: epoch() };
    assert_eq!(
        format_encap_list(&[(Some(0xaaaa), a), (Some(0xbbbb), b)]),
        "000000000000aaaa:2|000000000000bbbb:1"
    );
}

#[test]
fn encap_list_partial_tunnel_keeps_untunneled_share() {
    let a = FlowStats { count: 2, total_bytes: 20, last_seen: epoch() };
    let b = FlowStats { count: 1, total_bytes: 10, last_seen: epoch() };
    assert_eq!(format_encap_list(&[(Some(0xaaaa), a), (None, b)]), "000000000000aaaa:2");
}

#[test]
fn parse_encap_list_bytes_go_to_first_entry() {
    let entries = parse_encap_list("000000000000aaaa:1|000000000000bbbb:2", 3, 90, epoch());
    assert_eq!(entries.len(), 2);
    assert_eq!(entries[0].0, Some(0xaaaa));
    assert_eq!(entries[0].1.total_bytes, 90);
    assert_eq!(entries[1].1.total_bytes, 0);
}

#[test]
fn placeholder_ips_are_recognized() {
    assert!(is_placeholder_ip("0.0.0.0"));
    assert!(is_placeholder_ip(" :: "));
    assert!(is_placeholder_ip("255.255.255.255"));
    assert!(!is_placeholder_ip("192.168.1.1"));
}

#[test]
fn multicast_and_broadcast_macs_are_not_unicast() {
    assert!(is_non_unicast_mac("ff:ff:ff:ff:ff:ff"));
    assert!(is_non_unicast_mac("01:00:5e:00:00:01"));
    assert!(!is_non_unicast_mac("48:21:0b:41:45:65"));
    assert!(!is_non_unicast_mac(""));
}

#[test]
fn origin_list_drops_blank_names() {
    assert_eq!(
        parse_origin_list(" site-a.csv | |site-b.csv"),
        vec!["site-a.csv".to_string(), "site-b.csv".to_string()]
    );
}
