use clinlogix::classify::{
    classify_theme, extract_line_number, is_profile_resolution_issue, profile_resolution_theme,
    summarize_issue,
};
use clinlogix::report::{build_report, is_failure};
use clinlogix::types::{CodeableConcept, Issue, OperationOutcome};

fn bare_issue() -> Issue {
    Issue {
        severity: None,
        code: None,
        diagnostics: None,
        details: None,
        location: vec![],
        expression: vec![],
    }
}

#[test]
fn exact_phrase_classifies_as_profile_resolution() {
    assert!(is_profile_resolution_issue(
        "Unable to resolve reference to profile 'http://example.org/sd/x'"
    ));
    assert_eq!(
        classify_theme("Unable to resolve reference to profile 'x'"),
        profile_resolution_theme()
    );
}

#[test]
fn loose_match_classifies_as_profile_resolution() {
    assert!(is_profile_resolution_issue("Failed to resolve profile reference"));
    assert_eq!(extract_line_number("Failed to resolve profile reference"), None);
}

#[test]
fn unrelated_message_classifies_as_general() {
    assert!(!is_profile_resolution_issue("Missing id"));
    assert_eq!(classify_theme("Missing id"), "General");
}

#[test]
fn profile_without_resolve_is_general() {
    assert_eq!(classify_theme("profile is strange"), "General");
}

#[test]
fn uppercase_message_still_matches() {
    assert!(is_profile_resolution_issue("UNABLE TO RESOLVE REFERENCE TO PROFILE 'X'"));
}

#[test]
fn extracts_line_after_token_and_whitespace() {
    assert_eq!(extract_line_number("something failed (line: 6)"), Some(6));
    assert_eq!(extract_line_number("bad input line:42 here"), Some(42));
    assert_eq!(extract_line_number("LINE:   7"), Some(7));
}

#[test]
fn line_is_absent_without_token_or_digits() {
    assert_eq!(extract_line_number("no marker here"), None);
    assert_eq!(extract_line_number("line: abc"), None);
    assert_eq!(extract_line_number("line:"), None);
}

#[test]
fn only_first_line_token_counts() {
    assert_eq!(extract_line_number("line: 5 and later line: 9"), Some(5));
    assert_eq!(extract_line_number("line: x but line: 9"), None);
}

#[test]
fn oversized_line_number_is_absent() {
    assert_eq!(extract_line_number("line: 4294967295"), Some(4294967295));
    assert_eq!(extract_line_number("line: 4294967296"), None);
    assert_eq!(extract_line_number("line: 99999999999999999999"), None);
}

#[test]
fn summarize_fills_unknown_for_missing_fields() {
    let summary = summarize_issue(&bare_issue());
    assert_eq!(summary.severity, "unknown");
    assert_eq!(summary.code, "unknown");
    assert_eq!(summary.message, "");
    assert_eq!(summary.theme, "General");
    assert_eq!(summary.line, None);
}

#[test]
fn summarize_prefers_diagnostics_over_details() {
    let mut issue = bare_issue();
    issue.diagnostics = Some("from diagnostics".to_string());
    issue.details = Some(CodeableConcept { text: Some("from details".to_string()) });
    assert_eq!(summarize_issue(&issue).message, "from diagnostics");

    issue.diagnostics = None;
    assert_eq!(summarize_issue(&issue).message, "from details");

    issue.details = Some(CodeableConcept { text: None });
    assert_eq!(summarize_issue(&issue).message, "");
}

#[test]
fn pass_requires_no_errors_and_success_status() {
    let empty = OperationOutcome { resource_type: None, issue: vec![] };
    let passing = build_report(&empty, 200, "f", "b");
    assert!(!is_failure(&passing));
    let edge = build_report(&empty, 299, "f", "b");
    assert!(!is_failure(&edge));
    let not_success = build_report(&empty, 300, "f", "b");
    assert!(is_failure(&not_success));
    let client_error = build_report(&empty, 404, "f", "b");
    assert!(is_failure(&client_error));

    let with_error = OperationOutcome {
        resource_type: None,
        issue: vec![Issue {
            severity: Some("error".to_string()),
            code: Some("invalid".to_string()),
            diagnostics: Some("bad".to_string()),
            details: None,
            location: vec![],
            expression: vec![],
        }],
    };
    let failing = build_report(&with_error, 200, "f", "b");
    assert!(is_failure(&failing));
}

#[test]
fn fatal_counts_as_error() {
    let outcome = OperationOutcome {
        resource_type: None,
        issue: vec![Issue {
            severity: Some("fatal".to_string()),
            code: None,
            diagnostics: None,
            details: None,
            location: vec![],
            expression: vec![],
        }],
    };
    let report = build_report(&outcome, 200, "f", "b");
    assert_eq!(report.error_count, 1);
    assert!(is_failure(&report));
}

#[test]
fn unrecognized_severity_counts_only_toward_total() {
    let outcome = OperationOutcome {
        resource_type: None,
        issue: vec![Issue {
            severity: Some("note".to_string()),
            code: None,
            diagnostics: None,
            details: None,
            location: vec![],
            expression: vec![],
        }],
    };
    let report = build_report(&outcome, 200, "f", "b");
    assert_eq!(report.total, 1);
    assert_eq!(report.error_count, 0);
    assert_eq!(report.warning_count, 0);
    assert_eq!(report.info_count, 0);
    assert_eq!(report.groups.len(), 1);
    assert!(!is_failure(&report));
}
