//! The answers of the MCP tools.

use rsigma::ast::ConditionExpr;
use rsigma::json::Json;
use rsigma::mcp::choose_source;
use rsigma::mcp::find_resource;
use rsigma::mcp::inline_findings;
use rsigma::mcp::lint_report;
use rsigma::mcp::list_resources;
use rsigma::mcp::parse_report;
use rsigma::mcp::reference_pairs_json;
use rsigma::mcp::FileFindings;
use rsigma::mcp::Finding;
use rsigma::mcp::ParsedSource;
use rsigma::mcp::Resource;
use rsigma::mcp::Severity;
use rsigma::mcp::SourceChoice;
use rsigma::rule::rule_from;
use rsigma::rule::ParsedParts;
use rsigma::yaml::YamlValue;

fn from_yaml(v: &yaml_serde::Value) -> YamlValue {
    match v {
        yaml_serde::Value::Null => YamlValue::Null,
        yaml_serde::Value::Bool(b) => YamlValue::Bool(*b),
        yaml_serde::Value::Number(n) => YamlValue::Number(n.clone()),
        yaml_serde::Value::String(s) => YamlValue::String(s.clone()),
        yaml_serde::Value::Sequence(items) => {
            YamlValue::Sequence(items.iter().map(from_yaml).collect())
        }
        yaml_serde::Value::Mapping(m) => YamlValue::Mapping(
            m.iter().map(|(k, v)| (from_yaml(k), from_yaml(v))).collect(),
        ),
        yaml_serde::Value::Tagged(t) => {
            YamlValue::Tagged(t.tag.clone(), Box::new(from_yaml(&t.value)))
        }
    }
}


const VALID_RULE: &str = r#"
title: Whoami Execution
id: 8b1d8c97-5b3a-4d77-9b48-7c5f7c8b1a2a
status: test
description: Detects whoami
author: test
logsource:
    category: process_creation
    product: windows
detection:
    selection:
        CommandLine|contains: whoami
    condition: selection
level: medium
tags:
    - attack.execution
"#;

fn member<'a>(value: &'a Json, name: &str) -> &'a Json {
    match value {
        Json::Object(members) => &members.iter().find(|(n, _)| n == name).unwrap().1,
        other => panic!("not an object: {other:?}"),
    }
}

fn count(value: &Json, name: &str) -> u128 {
    match member(value, name) {
        Json::Count(n) => *n,
        other => panic!("not a count: {other:?}"),
    }
}

fn is_ok(value: &Json) -> bool {
    matches!(member(value, "ok"), Json::Bool(true))
}

/// Parse one rule, noting errors as the tool does.
fn run_parse_rule(text: &str) -> Json {
    let mut errors = Vec::new();
    let mut rules = 0;
    match yaml_serde::from_str::<yaml_serde::Value>(text) {
        Err(e) => errors.push(e.to_string()),
        Ok(value) => {
            let parsed = rule_from::<(), (), (), ()>(
                &from_yaml(&value),
                ParsedParts {
                    conditions: vec![Ok(ConditionExpr::Identifier("selection".to_string()))],
                    logsource: Ok(()),
                    related: (),
                    status: None,
                    level: None,
                },
            );
            match parsed {
                Ok(_) => rules = 1,
                Err(e) => errors.push(format!("{e:?}")),
            }
        }
    }
    parse_report(Ok(ParsedSource {
        rules,
        correlations: 0,
        filters: 0,
        errors,
        collection: Json::Null,
    }))
}

#[test]
fn parse_rule_happy_path() {
    let v = run_parse_rule(VALID_RULE);
    assert!(is_ok(&v));
    assert_eq!(count(&v, "rule_count"), 1);
}

#[test]
fn parse_rule_invalid_yaml_reports_error() {
    let v = run_parse_rule("title: [unterminated");
    assert!(!is_ok(&v));
    assert!(matches!(member(&v, "parse_errors"), Json::List(e) if !e.is_empty()));
}

#[test]
fn parse_rule_requires_input() {
    let err = choose_source(None, None).unwrap_err();
    assert!(err.contains("required"));
}

#[test]
fn one_input_is_chosen() {
    let both = choose_source(Some("a".to_string()), Some("b".to_string()));
    assert_eq!(both.unwrap_err(), "provide either `yaml` or `path`, not both");
    assert!(matches!(
        choose_source(Some("a".to_string()), None),
        Ok(SourceChoice::Inline(s)) if s == "a"
    ));
    assert!(matches!(
        choose_source(None, Some("b".to_string())),
        Ok(SourceChoice::Path(s)) if s == "b"
    ));
}

#[test]
fn a_parse_that_fails_altogether() {
    let v = parse_report(Err("no such file".to_string()));
    assert!(!is_ok(&v));
    assert!(matches!(member(&v, "error"), Json::Text(e) if e == "no such file"));
}

fn finding(severity: Severity, rule: &str) -> Finding {
    Finding {
        severity,
        details: Json::Object(vec![("rule".to_string(), Json::Text(rule.to_string()))]),
    }
}

#[test]
fn findings_are_counted_by_severity() {
    let v = lint_report(vec![
        FileFindings {
            path: "<inline>".to_string(),
            findings: vec![
                finding(Severity::Error, "invalid_status"),
                finding(Severity::Hint, "h"),
                finding(Severity::Warning, "w"),
            ],
        },
        FileFindings {
            path: "b.yml".to_string(),
            findings: vec![finding(Severity::Info, "i"), finding(Severity::Warning, "w")],
        },
    ]);
    assert!(!is_ok(&v));
    let summary = member(&v, "summary");
    assert_eq!(count(summary, "files"), 2);
    assert_eq!(count(summary, "errors"), 1);
    assert_eq!(count(summary, "warnings"), 2);
    assert_eq!(count(summary, "infos"), 1);
    assert_eq!(count(summary, "hints"), 1);
    match member(&v, "files") {
        Json::List(files) => {
            assert!(matches!(member(&files[1], "path"), Json::Text(p) if p == "b.yml"));
            match member(&files[0], "findings") {
                Json::List(f) => {
                    assert_eq!(f.len(), 3);
                    assert!(matches!(member(&f[0], "rule"), Json::Text(r) if r == "invalid_status"));
                }
                other => panic!("not a list: {other:?}"),
            }
        }
        other => panic!("not a list: {other:?}"),
    }
}

#[test]
fn a_run_without_errors_is_in_order() {
    let v = lint_report(vec![FileFindings {
        path: "<inline>".to_string(),
        findings: vec![finding(Severity::Warning, "w")],
    }]);
    assert!(is_ok(&v));
    assert_eq!(count(member(&v, "summary"), "errors"), 0);
}

#[test]
fn every_listed_resource_is_found() {
    let listed = list_resources();
    assert_eq!(listed.len(), 3);
    for resource in listed {
        assert_eq!(find_resource(resource.uri()).unwrap(), resource);
        assert!(!resource.title().is_empty());
    }
    assert_eq!(
        find_resource("rsigma://lint/catalogue").unwrap(),
        Resource::LintCatalogue
    );
    assert_eq!(
        find_resource("rsigma://nope").unwrap_err(),
        "unknown resource 'rsigma://nope'"
    );
}

#[test]
fn reference_pairs_are_objects() {
    let v = reference_pairs_json(&vec![(
        "contains".to_string(),
        "substring".to_string(),
    )]);
    match v {
        Json::List(items) => {
            assert!(matches!(member(&items[0], "name"), Json::Text(n) if n == "contains"));
            assert!(matches!(member(&items[0], "description"), Json::Text(d) if d == "substring"));
        }
        other => panic!("not a list: {other:?}"),
    }
}

#[test]
fn findings_in_a_given_text_have_a_label() {
    let file = inline_findings(vec![finding(Severity::Warning, "w")]);
    assert_eq!(file.path, "<inline>");
    assert_eq!(file.findings.len(), 1);
}
