use clinlogix::render::{format_report, format_severity_summary, sorted_theme_counts};
use clinlogix::report::build_report;
use clinlogix::types::{parse_operation_outcome, Issue, OperationOutcome};

fn issue_with(severity: &str, code: &str, diagnostics: &str, location: Vec<&str>) -> Issue {
    Issue {
        severity: Some(severity.to_string()),
        code: Some(code.to_string()),
        diagnostics: Some(diagnostics.to_string()),
        details: None,
        location: location.into_iter().map(String::from).collect(),
        expression: vec![],
    }
}

#[test]
fn renders_full_report_exactly() {
    let outcome = OperationOutcome {
        resource_type: Some("OperationOutcome".to_string()),
        issue: vec![
            issue_with("error", "invalid", "Missing id", vec!["Patient.id"]),
            issue_with("error", "invalid", "Missing id", vec!["Patient.id"]),
            issue_with("warning", "incomplete", "Missing field", vec!["Patient.name"]),
            issue_with("information", "informational", "FYI", vec!["Patient.gender"]),
        ],
    };
    let report = build_report(&outcome, 400, "test.json", "base");
    let text = format_report(&report);
    let expected = "FHIR Validation\n\
--------------\n\
File: test.json\n\
Base: base\n\
HTTP: 400\n\
Issues: 4 (errors: 2, warnings: 1, info: 1)\n\
Total: 4 issues in 3 categories\n\
Result: FAIL ❌\n\
Themes:\n\
\x20 1. General (x4)\n\
\nIssue Categories (severity/code/message):\n\
- error | invalid | Missing id (2): error: 2\n\
\x20 1. [error] Missing id\n\
\x20    location: Patient.id\n\
\x20 2. [error] Missing id\n\
\x20    location: Patient.id\n\
- information | informational | FYI (1): information: 1\n\
\x20 1. [information] FYI\n\
\x20    location: Patient.gender\n\
- warning | incomplete | Missing field (1): warning: 1\n\
\x20 1. [warning] Missing field\n\
\x20    location: Patient.name\n";
    assert_eq!(text, expected);
}

#[test]
fn renders_empty_report_after_fallback() {
    let outcome = parse_operation_outcome(None);
    let report = build_report(&outcome, 200, "f.json", "http://x");
    assert_eq!(report.total, 0);
    assert!(report.groups.is_empty());
    let text = format_report(&report);
    let expected = "FHIR Validation\n\
--------------\n\
File: f.json\n\
Base: http://x\n\
HTTP: 200\n\
Issues: 0 (errors: 0, warnings: 0, info: 0)\n\
Total: 0 issues in 0 categories\n\
Result: PASS ✅\n\
Themes:\n\
\x20 none\n\
\nNo issues reported.\n";
    assert_eq!(text, expected);
    let failing = build_report(&outcome, 400, "f.json", "http://x");
    let failing_text = format_report(&failing);
    assert!(failing_text.contains("Result: FAIL ❌"));
    assert!(failing_text.contains("No issues reported."));
}

#[test]
fn profile_theme_gets_hint_line() {
    let outcome = OperationOutcome {
        resource_type: None,
        issue: vec![issue_with(
            "error",
            "invalid",
            "Unable to resolve reference to profile 'x'",
            vec![],
        )],
    };
    let report = build_report(&outcome, 400, "f", "b");
    let text = format_report(&report);
    assert!(text.contains("  1. Profile resolution (missing profiles on server) (x1)\n  This usually means the server doesn't have the required implementation guide packages (e.g., US Core) installed.\n"));
}

#[test]
fn empty_message_uses_placeholder() {
    let outcome = OperationOutcome {
        resource_type: None,
        issue: vec![Issue {
            severity: Some("error".to_string()),
            code: Some("invalid".to_string()),
            diagnostics: None,
            details: None,
            location: vec![],
            expression: vec![],
        }],
    };
    let report = build_report(&outcome, 400, "f", "b");
    assert_eq!(report.groups[0].0, "error | invalid | (no diagnostics provided)");
    let text = format_report(&report);
    assert!(text.contains("  1. [error] (no diagnostics provided)\n"));
}

#[test]
fn line_prints_only_under_expression() {
    let without_expression = issue_with("error", "invalid", "bad thing (line: 6)", vec![]);
    let report = build_report(
        &OperationOutcome { resource_type: None, issue: vec![without_expression] },
        400,
        "f",
        "b",
    );
    let text = format_report(&report);
    assert!(!text.contains("     line: 6\n"));

    let mut with_expression = issue_with("error", "invalid", "bad thing (line: 6)", vec![]);
    with_expression.expression = vec!["Patient.value".to_string()];
    let report = build_report(
        &OperationOutcome { resource_type: None, issue: vec![with_expression] },
        400,
        "f",
        "b",
    );
    let text = format_report(&report);
    assert!(text.contains("     expression: Patient.value\n     line: 6\n"));
}

#[test]
fn themes_sort_by_count_then_name() {
    let counts = vec![
        ("General".to_string(), 1usize),
        ("Profile resolution (missing profiles on server)".to_string(), 3usize),
    ];
    let sorted = sorted_theme_counts(&counts);
    assert_eq!(sorted[0].0, "Profile resolution (missing profiles on server)");
    assert_eq!(sorted[1].0, "General");

    let tied = vec![("Zeta".to_string(), 2usize), ("Alpha".to_string(), 2usize)];
    let sorted = sorted_theme_counts(&tied);
    assert_eq!(sorted[0].0, "Alpha");
    assert_eq!(sorted[1].0, "Zeta");
}

#[test]
fn severity_summary_is_sorted_and_joined() {
    let items = vec![
        summary_of("warning"),
        summary_of("error"),
        summary_of("warning"),
    ];
    let counts = clinlogix::render::summarize_severity(&items);
    let text = format_severity_summary(&counts);
    assert_eq!(text, "error: 1, warning: 2");
    let empty = format_severity_summary(&Vec::new());
    assert_eq!(empty, "no severities");
}

fn summary_of(severity: &str) -> clinlogix::classify::IssueSummary {
    clinlogix::classify::IssueSummary {
        severity: severity.to_string(),
        code: "invalid".to_string(),
        message: "m".to_string(),
        location: vec![],
        expression: vec![],
        theme: "General".to_string(),
        line: None,
    }
}

#[test]
fn multiple_locations_and_expressions_are_joined() {
    let issue = Issue {
        severity: Some("error".to_string()),
        code: Some("invalid".to_string()),
        diagnostics: Some("broken (line: 12)".to_string()),
        details: None,
        location: vec!["Patient.a".to_string(), "Patient.b".to_string()],
        expression: vec!["e1".to_string(), "e2".to_string()],
    };
    let report = build_report(
        &OperationOutcome { resource_type: None, issue: vec![issue] },
        422,
        "f",
        "b",
    );
    let text = format_report(&report);
    assert!(text.contains("     location: Patient.a, Patient.b\n"));
    assert!(text.contains("     expression: e1, e2\n     line: 12\n"));
}
