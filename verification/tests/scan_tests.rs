use clinlogix::scan::{format_scan_summary, scan_log};
use clinlogix::types::build_validate_url;

fn lines(texts: &[&str]) -> Vec<String> {
    texts.iter().map(|t| t.to_string()).collect()
}

#[test]
fn scan_counts_errors_and_warnings() {
    let summary = scan_log(&lines(&["ERROR: boom", "warning: hmm", "all good", "has error too"]));
    assert_eq!(summary.total_lines, 4);
    assert_eq!(summary.error_count, 2);
    assert_eq!(summary.warning_count, 1);
    assert_eq!(summary.error_lines, vec![0, 3]);
}

#[test]
fn error_takes_precedence_over_warning() {
    let summary = scan_log(&lines(&["warning before error"]));
    assert_eq!(summary.error_count, 1);
    assert_eq!(summary.warning_count, 0);
}

#[test]
fn scan_of_empty_log_is_zero() {
    let summary = scan_log(&Vec::new());
    assert_eq!(summary.total_lines, 0);
    assert_eq!(summary.error_count, 0);
    assert_eq!(summary.warning_count, 0);
    assert!(summary.error_lines.is_empty());
}

#[test]
fn scan_summary_formats_json_exactly() {
    let summary = scan_log(&lines(&["Error one", "fine", "WARNING two"]));
    let text = format_scan_summary("app.log", &summary, true);
    assert_eq!(
        text,
        "{\"file\":\"app.log\",\"total_lines\":3,\"errors\":1,\"warnings\":1}\n"
    );
}

#[test]
fn scan_summary_formats_text_exactly() {
    let summary = scan_log(&lines(&["Error one", "fine", "WARNING two"]));
    let text = format_scan_summary("app.log", &summary, false);
    let expected = "ClinLogix Report\n\
----------------\n\
File: app.log\n\
Total lines: 3\n\
Errors: 1\n\
Warnings: 1\n";
    assert_eq!(text, expected);
}

#[test]
fn validate_url_trims_trailing_slashes() {
    assert_eq!(
        build_validate_url("http://h/fhir", "Patient"),
        "http://h/fhir/Patient/$validate"
    );
    assert_eq!(
        build_validate_url("http://h/fhir///", "Observation"),
        "http://h/fhir/Observation/$validate"
    );
}
