use sonar_flows::error::SonarCoreError;
use sonar_flows::sfms::matrix_preamble;

#[test]
fn a_file_without_preamble_is_an_ethernet_survey() {
    let r = matrix_preamble("mac_source,mac_destination,vlan_id", "m.csv").unwrap();
    assert_eq!(r, (1, false));
    assert_eq!(matrix_preamble("", "m.csv").unwrap(), (1, false));
}

#[test]
fn an_ethernet_preamble_is_skipped_before_the_header() {
    let r = matrix_preamble("#SFMS version=1 dlt=ETHERNET", "m.csv").unwrap();
    assert_eq!(r, (1, true));
    let r = matrix_preamble("#SFMS version=1", "m.csv").unwrap();
    assert_eq!(r, (1, true));
}

#[test]
fn a_preamble_naming_another_link_type_is_refused_with_its_name() {
    match matrix_preamble("#SFMS version=1 dlt=IEEE802_11 site=Usine", "releve.csv") {
        Err(SonarCoreError::UnreimportableLinkType { path, label }) => {
            assert_eq!(path, "releve.csv");
            assert_eq!(label, "IEEE802_11");
        }
        other => panic!("unexpected outcome: {:?}", other),
    }
}

#[test]
fn a_comment_that_is_not_the_preamble_mark_is_no_preamble() {
    assert_eq!(matrix_preamble("#SFMSX dlt=RAW", "m.csv").unwrap(), (1, false));
}
