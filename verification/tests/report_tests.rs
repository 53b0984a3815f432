use clinlogix::classify::IssueSummary;
use clinlogix::report::{build_report, group_key, insert_into_groups};
use clinlogix::render::{sorted_groups, summarize_severity};
use clinlogix::types::{CodeableConcept, Issue, OperationOutcome};

fn issue_summary(message: &str, severity: &str, theme: &str) -> IssueSummary {
    IssueSummary {
        severity: severity.to_string(),
        code: "invalid".to_string(),
        message: message.to_string(),
        location: vec![],
        expression: vec![],
        theme: theme.to_string(),
        line: None,
    }
}

fn plain_issue(severity: &str, code: &str, diagnostics: &str, location: Vec<&str>) -> Issue {
    Issue {
        severity: Some(severity.to_string()),
        code: Some(code.to_string()),
        diagnostics: Some(diagnostics.to_string()),
        details: None,
        location: location.into_iter().map(String::from).collect(),
        expression: vec![],
    }
}

fn count_of<'a>(counts: &'a [(String, usize)], key: &str) -> Option<&'a usize> {
    counts.iter().find(|(k, _)| k == key).map(|(_, c)| c)
}

#[test]
fn groups_issues_by_code() {
    let outcome = OperationOutcome {
        resource_type: Some("OperationOutcome".to_string()),
        issue: vec![
            plain_issue("error", "invalid", "Missing id", vec!["Patient.id"]),
            plain_issue("warning", "invalid", "Unknown system", vec!["Patient.identifier"]),
        ],
    };

    let report = build_report(&outcome, 400, "test.json", "base");
    assert_eq!(report.groups.len(), 2);
    let first = report
        .groups
        .iter()
        .find(|(key, _)| key.contains("Missing id"))
        .expect("missing id group");
    let second = report
        .groups
        .iter()
        .find(|(key, _)| key.contains("Unknown system"))
        .expect("unknown system group");
    assert_eq!(first.1.len(), 1);
    assert_eq!(second.1.len(), 1);
    assert_eq!(report.error_count, 1);
    assert_eq!(report.warning_count, 1);
}

#[test]
fn parse_operation_outcome_fallbacks_on_invalid_json() {
    let decoded = serde_json::from_str::<serde_json::Value>("not-json").ok().map(|_| {
        OperationOutcome { resource_type: None, issue: vec![] }
    });
    assert!(decoded.is_none());
    let outcome = clinlogix::types::parse_operation_outcome(decoded);
    assert!(outcome.issue.is_empty());
}

#[test]
fn summarizes_severity_counts_per_group() {
    let items = vec![
        issue_summary("Missing id", "error", "General"),
        issue_summary("Unknown system", "warning", "General"),
        issue_summary("Deprecated", "warning", "General"),
    ];

    let counts = summarize_severity(&items);
    assert_eq!(count_of(&counts, "error"), Some(&1));
    assert_eq!(count_of(&counts, "warning"), Some(&2));
}

#[test]
fn groups_same_key_together() {
    let items = vec![
        issue_summary("Missing id", "error", "General"),
        issue_summary("Missing id", "error", "General"),
    ];

    let mut groups: Vec<(String, Vec<IssueSummary>)> = Vec::new();
    for item in items {
        let key = group_key(&item);
        insert_into_groups(&mut groups, key, item);
    }

    assert_eq!(groups.len(), 1);
    let counts = groups.iter().map(|(_, items)| items.len()).sum::<usize>();
    assert_eq!(counts, 2);
}

#[test]
fn separates_groups_when_message_differs() {
    let items = vec![
        issue_summary("Missing id", "error", "General"),
        issue_summary("Unknown system", "error", "General"),
    ];

    let mut groups: Vec<(String, Vec<IssueSummary>)> = Vec::new();
    for item in items {
        let key = group_key(&item);
        insert_into_groups(&mut groups, key, item);
    }

    assert_eq!(groups.len(), 2);
}

#[test]
fn sorts_groups_by_count_descending() {
    let mut groups: Vec<(String, Vec<IssueSummary>)> = Vec::new();
    let high = issue_summary("Missing id", "error", "General");
    let low = issue_summary("Missing field", "warning", "General");
    let high_key = group_key(&high);
    let low_key = group_key(&low);
    insert_into_groups(&mut groups, high_key.clone(), high.clone());
    insert_into_groups(&mut groups, high_key.clone(), high);
    insert_into_groups(&mut groups, low_key.clone(), low);

    let sorted = sorted_groups(&groups);
    assert_eq!(sorted[0].0, high_key);
    assert_eq!(sorted[0].1.len(), 2);
    assert_eq!(sorted[1].0, low_key);
    assert_eq!(sorted[1].1.len(), 1);
}

#[test]
fn totals_match_sum_of_group_counts() {
    let outcome = OperationOutcome {
        resource_type: Some("OperationOutcome".to_string()),
        issue: vec![
            plain_issue("error", "invalid", "Missing id", vec![]),
            plain_issue("error", "invalid", "Missing id", vec![]),
            plain_issue("warning", "incomplete", "Missing field", vec![]),
        ],
    };

    let report = build_report(&outcome, 400, "test.json", "base");
    let grouped_total: usize = report.groups.iter().map(|(_, items)| items.len()).sum();
    assert_eq!(report.total, grouped_total);
}

#[test]
fn group_key_is_exactly_severity_code_message() {
    let summary = IssueSummary {
        severity: "error".to_string(),
        code: "invalid".to_string(),
        message: "Missing id".to_string(),
        location: vec!["Patient.id".to_string()],
        expression: vec!["Patient.id".to_string()],
        theme: "General".to_string(),
        line: None,
    };

    let key = group_key(&summary);
    assert_eq!(key, "error | invalid | Missing id");
}

#[test]
fn sorted_groups_matches_print_ordering() {
    let mut groups: Vec<(String, Vec<IssueSummary>)> = Vec::new();
    let high = issue_summary("Missing id", "error", "General");
    let mid = issue_summary("Missing field", "warning", "General");
    let low = issue_summary("FYI", "information", "General");
    let high_key = group_key(&high);
    let mid_key = group_key(&mid);
    let low_key = group_key(&low);
    insert_into_groups(&mut groups, high_key.clone(), high.clone());
    insert_into_groups(&mut groups, high_key.clone(), high);
    insert_into_groups(&mut groups, mid_key.clone(), mid);
    insert_into_groups(&mut groups, low_key.clone(), low);

    let sorted = sorted_groups(&groups);
    let ordered_keys: Vec<String> = sorted.iter().map(|(key, _)| key.clone()).collect();
    assert_eq!(ordered_keys, vec![high_key, low_key, mid_key]);
}

fn issue_from_value(v: &serde_json::Value) -> Issue {
    Issue {
        severity: v.get("severity").and_then(|s| s.as_str()).map(String::from),
        code: v.get("code").and_then(|s| s.as_str()).map(String::from),
        diagnostics: v.get("diagnostics").and_then(|s| s.as_str()).map(String::from),
        details: v.get("details").map(|d| CodeableConcept {
            text: d.get("text").and_then(|t| t.as_str()).map(String::from),
        }),
        location: v
            .get("location")
            .and_then(|a| a.as_array())
            .map(|a| a.iter().filter_map(|x| x.as_str().map(String::from)).collect())
            .unwrap_or_default(),
        expression: v
            .get("expression")
            .and_then(|a| a.as_array())
            .map(|a| a.iter().filter_map(|x| x.as_str().map(String::from)).collect())
            .unwrap_or_default(),
    }
}

fn outcome_from_json(text: &str) -> OperationOutcome {
    let v: serde_json::Value = serde_json::from_str(text).expect("outcome parse");
    OperationOutcome {
        resource_type: v.get("resourceType").and_then(|s| s.as_str()).map(String::from),
        issue: v
            .get("issue")
            .and_then(|a| a.as_array())
            .map(|a| a.iter().map(issue_from_value).collect())
            .unwrap_or_default(),
    }
}

#[test]
fn parses_operation_outcome_and_groups_expected_counts() {
    let json = r#"{
        "resourceType":"OperationOutcome",
        "issue":[
            {"severity":"error","code":"invalid","diagnostics":"Missing id","location":["Patient.id"]},
            {"severity":"error","code":"invalid","diagnostics":"Missing id","location":["Patient.id"]},
            {"severity":"warning","code":"incomplete","diagnostics":"Missing field","location":["Patient.name"]},
            {"severity":"information","code":"informational","diagnostics":"FYI","location":["Patient.gender"]}
        ]
    }"#;

    let outcome = outcome_from_json(json);
    let report = build_report(&outcome, 400, "test.json", "base");

    assert_eq!(report.total, 4);
    let grouped_total: usize = report.groups.iter().map(|(_, items)| items.len()).sum();
    assert_eq!(report.total, grouped_total);
    assert_eq!(report.error_count, 2);
    assert_eq!(report.warning_count, 1);
    assert_eq!(report.info_count, 1);

    let member_count = |key: &str| -> usize {
        report
            .groups
            .iter()
            .find(|(k, _)| k == key)
            .map(|(_, items)| items.len())
            .unwrap_or(0)
    };
    assert_eq!(member_count("error | invalid | Missing id"), 2);
    assert_eq!(member_count("warning | incomplete | Missing field"), 1);
    assert_eq!(member_count("information | informational | FYI"), 1);
}

#[test]
fn classifies_profile_resolution_theme_with_line() {
    let json = r#"{
        "resourceType":"OperationOutcome",
        "issue":[
            {
                "severity":"error",
                "code":"invalid",
                "diagnostics":"Unable to resolve reference to profile 'http://hl7.org/fhir/us/core/StructureDefinition/us-core-bmi'. (line: 6)"
            }
        ]
    }"#;

    let outcome = outcome_from_json(json);
    let report = build_report(&outcome, 400, "test.json", "base");
    let profile_theme = clinlogix::classify::profile_resolution_theme();
    let theme_count = report
        .theme_counts
        .iter()
        .find(|(k, _)| *k == profile_theme)
        .map(|(_, c)| *c);
    assert_eq!(theme_count, Some(1), "expected profile resolution theme count");
    assert_eq!(report.groups[0].1[0].line, Some(6));
}

#[test]
fn classifies_profile_resolution_when_phrase_missing() {
    let outcome = OperationOutcome {
        resource_type: Some("OperationOutcome".to_string()),
        issue: vec![plain_issue("error", "invalid", "Failed to resolve profile reference", vec![])],
    };

    let report = build_report(&outcome, 400, "test.json", "base");
    let profile_theme = clinlogix::classify::profile_resolution_theme();
    let theme_count = report
        .theme_counts
        .iter()
        .find(|(k, _)| *k == profile_theme)
        .map(|(_, c)| *c);
    assert_eq!(theme_count, Some(1));
}

#[test]
fn parse_fhir_resource_type() {
    let json = r#"{"resourceType":"Patient"}"#;
    let v: serde_json::Value = serde_json::from_str(json).expect("resource parse");
    let resource = clinlogix::types::FhirResource {
        resource_type: v
            .get("resourceType")
            .and_then(|s| s.as_str())
            .expect("resource parse")
            .to_string(),
    };
    assert_eq!(resource.resource_type, "Patient");
}

#[test]
fn parse_operation_outcome_issues() {
    let json = r#"{
        "resourceType":"OperationOutcome",
        "issue":[
            {"severity":"error","code":"invalid","diagnostics":"Missing id"}
        ]
    }"#;
    let outcome = outcome_from_json(json);
    assert_eq!(outcome.issue.len(), 1);
    assert_eq!(outcome.issue[0].code.as_deref(), Some("invalid"));
}
