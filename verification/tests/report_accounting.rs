use sonar_flows::report::{PacketDisposition, PcapFileReport, classify_outcome};

#[test]
fn absorb_sums_every_category() {
    let mut total = PcapFileReport {
        decoded: 1,
        rejected_truncated: 2,
        rejected_unsupported_link_type: 3,
        rejected_malformed: 4,
    };
    total.absorb(&PcapFileReport {
        decoded: 10,
        rejected_truncated: 20,
        rejected_unsupported_link_type: 30,
        rejected_malformed: 40,
    });
    assert_eq!(total.read(), 110);
    assert_eq!(total.decoded, 11);
    assert_eq!(total.rejected_malformed, 44);
}

#[test]
fn the_equation_holds_by_construction() {
    let mut report = PcapFileReport::default();
    for disposition in [
        PacketDisposition::Decoded,
        PacketDisposition::Decoded,
        PacketDisposition::RejectedTruncated,
        PacketDisposition::RejectedMalformed,
        PacketDisposition::RejectedUnsupportedLinkType,
    ] {
        report.record(disposition);
    }
    assert_eq!(report.read(), 5);
    assert_eq!(report.rejected(), 3);
    assert_eq!(
        report.read(),
        report.decoded
            + report.rejected_truncated
            + report.rejected_unsupported_link_type
            + report.rejected_malformed
    );
}

#[test]
fn a_successful_parse_is_decoded_regardless_of_truncation() {
    assert_eq!(classify_outcome(60, 1500, true, false), PacketDisposition::Decoded);
    assert_eq!(classify_outcome(60, 60, true, false), PacketDisposition::Decoded);
}

#[test]
fn a_failed_parse_on_a_cut_capture_is_imputed_to_truncation() {
    assert_eq!(classify_outcome(10, 1500, false, false), PacketDisposition::RejectedTruncated);
}

#[test]
fn a_failed_parse_on_a_complete_frame_is_malformed() {
    assert_eq!(classify_outcome(10, 10, false, false), PacketDisposition::RejectedMalformed);
}

#[test]
fn an_unknown_link_type_wins_over_truncation() {
    assert_eq!(
        classify_outcome(10, 1500, false, true),
        PacketDisposition::RejectedUnsupportedLinkType
    );
}
