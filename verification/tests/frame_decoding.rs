use sonar_flows::decode::{absorb_packet, check_capture_link_type};
use sonar_flows::error::SonarCoreError;
use sonar_flows::flow_matrix::FlowMatrix;
use sonar_flows::report::PcapFileReport;

const LINKTYPE_ETHERNET: u32 = 1;

/// An Ethernet frame carrying IPv4/UDP from 192.168.1.10:12345 to
/// 192.168.1.20:9999 with four bytes of payload.
fn ethernet_udp_frame() -> Vec<u8> {
    let mut frame = vec![
        0x00, 0x11, 0x22, 0x33, 0x44, 0x55, // destination MAC
        0x66, 0x77, 0x88, 0x99, 0xaa, 0xbb, // source MAC
        0x08, 0x00, // EtherType IPv4
    ];
    frame.extend_from_slice(&[
        0x45, 0x00, 0x00, 0x20, // version, IHL, total length 32
        0x12, 0x34, 0x00, 0x00, // identification, flags
        64, 17, 0x00, 0x00, // TTL, UDP, checksum
        192, 168, 1, 10, // source
        192, 168, 1, 20, // destination
        0x30, 0x39, 0x27, 0x0f, // ports 12345 -> 9999
        0x00, 0x0c, 0x00, 0x00, // UDP length, checksum
        0xde, 0xad, 0xbe, 0xef, // payload
    ]);
    frame
}

#[test]
fn a_decoded_frame_becomes_one_matrix_row() {
    let frame = ethernet_udp_frame();
    let mut matrix = FlowMatrix::new();
    let mut report = PcapFileReport::default();
    let len = frame.len() as u32;
    let r = absorb_packet(
        &mut matrix,
        &mut report,
        "capture.pcap",
        LINKTYPE_ETHERNET,
        1_700_000_000,
        0,
        len,
        len,
        &frame,
    );
    assert!(r.is_ok());
    assert_eq!(report.decoded, 1);
    assert_eq!(report.read(), 1);
    assert_eq!(matrix.row_count(), 1);
    let rows = matrix.to_flat_vec();
    assert_eq!(rows.len(), 1);
    let row = &rows[0];
    assert_eq!(row.mac_source, "66:77:88:99:aa:bb");
    assert_eq!(row.mac_destination, "00:11:22:33:44:55");
    assert_eq!(row.ip_source, "192.168.1.10");
    assert_eq!(row.ip_destination, "192.168.1.20");
    assert_eq!(row.port_source, Some(12345));
    assert_eq!(row.port_destination, Some(9999));
    assert_eq!(row.count, 1);
    assert_eq!(row.total_bytes, u64::from(len));
    assert_eq!(row.encap_id, "");
}

#[test]
fn the_same_frame_twice_counts_twice_in_one_row() {
    let frame = ethernet_udp_frame();
    let mut matrix = FlowMatrix::new();
    let mut report = PcapFileReport::default();
    let len = frame.len() as u32;
    for ts in [10, 20] {
        let r = absorb_packet(&mut matrix, &mut report, "capture.pcap", LINKTYPE_ETHERNET, ts, 0, len, len, &frame);
        assert!(r.is_ok());
    }
    assert_eq!(report.decoded, 2);
    assert_eq!(matrix.row_count(), 1);
    let rows = matrix.to_flat_vec();
    assert_eq!(rows[0].count, 2);
    assert_eq!(rows[0].total_bytes, 2 * u64::from(len));
}

#[test]
fn a_complete_frame_that_does_not_decode_is_malformed() {
    let mut matrix = FlowMatrix::new();
    let mut report = PcapFileReport::default();
    let r = absorb_packet(&mut matrix, &mut report, "capture.pcap", LINKTYPE_ETHERNET, 0, 0, 3, 3, &[0x01, 0x02, 0x03]);
    assert!(r.is_ok());
    assert_eq!(report.rejected_malformed, 1);
    assert_eq!(report.decoded, 0);
    assert_eq!(matrix.row_count(), 0);
}

#[test]
fn a_cut_frame_that_does_not_decode_is_truncated() {
    let mut matrix = FlowMatrix::new();
    let mut report = PcapFileReport::default();
    let r = absorb_packet(&mut matrix, &mut report, "capture.pcap", LINKTYPE_ETHERNET, 0, 0, 3, 60, &[0x01, 0x02, 0x03]);
    assert!(r.is_ok());
    assert_eq!(report.rejected_truncated, 1);
    assert_eq!(matrix.row_count(), 0);
}

#[test]
fn a_link_type_without_decoder_is_counted_as_unsupported() {
    let frame = ethernet_udp_frame();
    let mut matrix = FlowMatrix::new();
    let mut report = PcapFileReport::default();
    let len = frame.len() as u32;
    let r = absorb_packet(&mut matrix, &mut report, "capture.pcap", 65000, 0, 0, len, len, &frame);
    assert!(r.is_ok());
    assert_eq!(report.rejected_unsupported_link_type, 1);
    assert_eq!(matrix.row_count(), 0);
}

#[test]
fn a_time_out_of_range_is_an_error_and_leaves_the_matrix() {
    let frame = ethernet_udp_frame();
    let mut matrix = FlowMatrix::new();
    let mut report = PcapFileReport::default();
    let len = frame.len() as u32;
    let r = absorb_packet(&mut matrix, &mut report, "capture.pcap", LINKTYPE_ETHERNET, 0, i64::MAX, len, len, &frame);
    match r {
        Err(SonarCoreError::PcapRead { path, message }) => {
            assert_eq!(path, "capture.pcap");
            assert_eq!(message, "horodatage hors plage");
        }
        other => panic!("unexpected outcome: {:?}", other),
    }
    assert_eq!(report.decoded, 1);
    assert_eq!(matrix.row_count(), 0);
}

#[test]
fn an_ip_in_ip_frame_counts_one_row_per_level_in_one_tunnel() {
    let inner = ethernet_udp_frame()[14..].to_vec();
    let mut frame = vec![
        0x00, 0x11, 0x22, 0x33, 0x44, 0x55, 0x66, 0x77, 0x88, 0x99, 0xaa, 0xbb, 0x08, 0x00,
    ];
    frame.extend_from_slice(&[
        0x45, 0x00, 0x00, 0x34, // total length 52
        0x00, 0x01, 0x00, 0x00, // identification, flags
        64, 4, 0x00, 0x00, // TTL, IP-in-IP, checksum
        10, 0, 0, 1, // outer source
        10, 0, 0, 2, // outer destination
    ]);
    frame.extend_from_slice(&inner);
    let mut matrix = FlowMatrix::new();
    let mut report = PcapFileReport::default();
    let len = frame.len() as u32;
    let r = absorb_packet(&mut matrix, &mut report, "tunnel.pcap", LINKTYPE_ETHERNET, 5, 0, len, len, &frame);
    assert!(r.is_ok());
    assert_eq!(report.decoded, 1);
    assert_eq!(matrix.row_count(), 2);
    let rows = matrix.to_flat_vec();
    let outer = rows.iter().find(|row| row.ip_source == "10.0.0.1").expect("outer level");
    let inner_row = rows.iter().find(|row| row.ip_source == "192.168.1.10").expect("inner level");
    assert_eq!(outer.total_bytes, u64::from(len));
    assert!(!outer.encap_id.is_empty());
    assert_eq!(outer.encap_id, inner_row.encap_id);
    assert_eq!(inner_row.port_destination, Some(9999));
}

#[test]
fn a_capture_of_a_link_type_without_survey_form_is_refused() {
    assert!(check_capture_link_type("a.pcap", 1).is_ok());
    assert!(check_capture_link_type("a.pcap", 101).is_ok());
    assert!(check_capture_link_type("a.pcap", 113).is_ok());
    assert!(check_capture_link_type("a.pcap", 276).is_ok());
    match check_capture_link_type("wifi.pcapng", 105) {
        Err(SonarCoreError::UnsupportedLinkType { path, label }) => {
            assert_eq!(path, "wifi.pcapng");
            assert_eq!(label, "DLT 105");
        }
        other => panic!("unexpected outcome: {:?}", other),
    }
}
