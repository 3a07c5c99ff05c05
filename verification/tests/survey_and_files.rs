use sonar_flows::batch::{dedupe_paths_by_identity, is_xlsx, is_xlsx_file_name, origin_name_from_path};
use sonar_flows::survey::{SurveyContext, SurveyContextDto, apply_survey_context, common_survey_context};

#[test]
fn blank_input_normalizes_to_absent() {
    assert_eq!(SurveyContext::normalized_field(Some("  ")), None);
    assert_eq!(SurveyContext::normalized_field(Some("")), None);
    assert_eq!(SurveyContext::normalized_field(None), None);
    assert_eq!(
        SurveyContext::normalized_field(Some("  Usine Nord  ")),
        Some("Usine Nord".to_string())
    );
}

#[test]
fn unchanged_context_does_not_mark_the_survey() {
    let current = SurveyContext { site: Some("Usine Nord".into()), sensor: None, interface: None };
    let entry = SurveyContextDto { site: Some(" Usine Nord ".into()), sensor: Some("  ".into()), interface: None };
    let (context, changed) = apply_survey_context(&current, &entry);
    assert!(!changed);
    assert_eq!(context.site.as_deref(), Some("Usine Nord"));
    assert_eq!(context.sensor, None);

    let entry = SurveyContextDto { site: None, sensor: None, interface: Some("eth0".into()) };
    let (_, changed) = apply_survey_context(&current, &entry);
    assert!(changed);
}

#[test]
fn is_xlsx_ignores_case_and_other_extensions() {
    assert!(is_xlsx("releve.xlsx"));
    assert!(is_xlsx("RELEVE.XLSX"));
    assert!(!is_xlsx("releve.csv"));
    assert!(!is_xlsx("releve"));
}

#[test]
fn hidden_file_without_extension_is_not_xlsx() {
    assert!(!is_xlsx_file_name(".xlsx"));
    assert!(is_xlsx_file_name("a.b.XlSx"));
}

#[test]
fn origin_name_is_the_file_name() {
    assert_eq!(origin_name_from_path("/tmp/site-a.csv"), "site-a.csv");
    assert_eq!(origin_name_from_path("site-b.csv"), "site-b.csv");
}

fn context(site: &str) -> SurveyContext {
    SurveyContext {
        site: Some(site.to_string()),
        sensor: Some("PC de relevé".to_string()),
        interface: Some("eth0".to_string()),
    }
}

#[test]
fn merging_two_measurement_points_yields_no_context() {
    let contexts = vec![context("Armoire B3"), context("Armoire C1")];
    assert!(
        common_survey_context(&contexts).is_empty(),
        "des contextes divergents doivent donner un relevé non qualifié, pas celui du premier fichier"
    );
}

#[test]
fn merging_the_same_measurement_point_keeps_the_context() {
    let contexts = vec![context("Armoire B3"), context("Armoire B3")];
    let merged = common_survey_context(&contexts);
    assert!(merged.same_as(&context("Armoire B3")), "un même relevé découpé garde son contexte");
}

#[test]
fn a_single_file_keeps_its_context_and_no_file_has_none() {
    let merged = common_survey_context(&[context("Usine Nord")]);
    assert_eq!(merged.site.as_deref(), Some("Usine Nord"));
    assert!(common_survey_context(&[]).is_empty());
}

#[test]
fn unresolvable_path_is_kept_for_the_import_error() {
    let missing = "/sonar/chemin/inexistant.pcap".to_string();
    // A path that cannot be resolved is its own identity.
    let unique = dedupe_paths_by_identity(&[missing.clone(), missing.clone()], &[missing.clone(), missing.clone()]);
    assert_eq!(unique, vec![missing], "conservé une fois : ni escamoté, ni dupliqué");
}

#[test]
fn a_detour_to_the_same_file_counts_once() {
    let paths = vec!["a.pcap".to_string(), "./dir/../a.pcap".to_string(), "b.pcap".to_string()];
    let identities = vec!["/data/a.pcap".to_string(), "/data/a.pcap".to_string(), "/data/b.pcap".to_string()];
    assert_eq!(dedupe_paths_by_identity(&paths, &identities), vec!["a.pcap".to_string(), "b.pcap".to_string()]);
}

#[test]
fn a_path_without_file_name_is_its_own_origin() {
    assert_eq!(origin_name_from_path("releves/site-b.csv"), "site-b.csv");
    assert_eq!(origin_name_from_path("site-c.csv"), "site-c.csv");
    assert_eq!(origin_name_from_path(".."), "..");
    assert!(is_xlsx("releves/site-b.XLSX"));
    assert!(!is_xlsx("releves.xlsx/site-b.csv"));
}
