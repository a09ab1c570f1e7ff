//! Parsing rules.

use rsigma::ast::ConditionExpr;
use rsigma::ast::SigmaParserError;
use rsigma::rule::condition_strings;
use rsigma::rule::detections_from;
use rsigma::rule::parse_detection_rule;
use rsigma::rule::parse_detections;
use rsigma::rule::condition_not_a_string;
use rsigma::rule::rule_from;
use rsigma::rule::ParsedParts;
use rsigma::rule::PartParsers;
use rsigma::rule::SigmaRule;
use rsigma::yaml::YamlValue;

fn from_yaml(v: &yaml_serde::Value) -> YamlValue {
    match v {
        yaml_serde::Value::Null => YamlValue::Null,
        yaml_serde::Value::Bool(b) => YamlValue::Bool(*b),
        yaml_serde::Value::Number(n) => YamlValue::Number(n.clone()),
        yaml_serde::Value::String(s) => YamlValue::String(s.clone()),
        yaml_serde::Value::Sequence(items) => {
            YamlValue::Sequence(items.iter().map(from_yaml).collect())
        }
        yaml_serde::Value::Mapping(m) => YamlValue::Mapping(
            m.iter().map(|(k, v)| (from_yaml(k), from_yaml(v))).collect(),
        ),
        yaml_serde::Value::Tagged(t) => {
            YamlValue::Tagged(t.tag.clone(), Box::new(from_yaml(&t.value)))
        }
    }
}

fn yaml(text: &str) -> YamlValue {
    from_yaml(&yaml_serde::from_str::<yaml_serde::Value>(text).unwrap())
}

fn selection() -> Result<ConditionExpr, SigmaParserError> {
    Ok(ConditionExpr::Identifier("selection".to_string()))
}

type Parts = ParsedParts<String, Vec<String>, u8, u8>;

fn parts(conditions: Vec<Result<ConditionExpr, SigmaParserError>>) -> Parts {
    ParsedParts {
        conditions,
        logsource: Ok("windows".to_string()),
        related: vec![],
        status: Some(1),
        level: None,
    }
}

const RULE: &str = r#"
title: Whoami Execution
id: 8b1d8c97-5b3a-4d77-9b48-7c5f7c8b1a2a
author: test
references: https://example.com
tags:
    - attack.execution
    - 5
    - attack.t1033
team: blue
custom_attributes:
    team: red
    ticket: 7
detection:
    selection:
        CommandLine|contains: whoami
    condition: selection
    timeframe: 5m
"#;

fn parse(text: &str) -> Result<SigmaRule<String, Vec<String>, u8, u8>, SigmaParserError> {
    rule_from(&yaml(text), parts(vec![selection()]))
}

#[test]
fn the_parts_of_a_rule() {
    let rule = parse(RULE).unwrap();
    assert_eq!(rule.title, "Whoami Execution");
    assert_eq!(rule.id.as_deref(), Some("8b1d8c97-5b3a-4d77-9b48-7c5f7c8b1a2a"));
    assert_eq!(rule.author.as_deref(), Some("test"));
    assert_eq!(rule.description, None);
    assert_eq!(rule.references, vec!["https://example.com"]);
    assert_eq!(rule.tags, vec!["attack.execution", "attack.t1033"]);
    assert_eq!(rule.logsource, "windows");
    assert_eq!(rule.status, Some(1));
    assert_eq!(rule.detection.condition_strings, vec!["selection"]);
    assert_eq!(rule.detection.timeframe.as_deref(), Some("5m"));
    assert_eq!(rule.detection.named.len(), 1);
    assert_eq!(rule.detection.named[0].0, "selection");
    assert_eq!(rule.detection.conditions.len(), 1);
}

#[test]
fn own_custom_attributes_win() {
    let rule = parse(RULE).unwrap();
    let seen: Vec<&str> = rule.custom_attributes.iter().map(|(n, _)| n.as_str()).collect();
    assert_eq!(seen, vec!["team", "ticket"]);
    assert!(matches!(&rule.custom_attributes[0].1, YamlValue::String(s) if s == "red"));
}

#[test]
fn what_a_rule_must_have() {
    assert!(matches!(
        parse("- a\n"),
        Err(SigmaParserError::InvalidRule(m)) if m == "Expected a YAML mapping"
    ));
    assert!(matches!(
        parse("id: x\n"),
        Err(SigmaParserError::MissingField(f)) if f == "title"
    ));
    assert!(matches!(
        parse("title: x\n"),
        Err(SigmaParserError::MissingField(f)) if f == "detection"
    ));
    assert!(matches!(
        parse("title: x\ndetection: 5\n"),
        Err(SigmaParserError::InvalidDetection(m)) if m == "Detection section must be a mapping"
    ));
    assert!(matches!(
        parse("title: x\ndetection:\n  a: b\n"),
        Err(SigmaParserError::MissingField(f)) if f == "condition"
    ));
    assert!(matches!(
        parse("title: x\ndetection:\n  condition: 5\n"),
        Err(SigmaParserError::InvalidDetection(m))
            if m == "condition must be a string or list of strings"
    ));
    assert!(matches!(
        parse("title: x\ndetection:\n  condition:\n    - a\n    - 5\n"),
        Err(SigmaParserError::InvalidDetection(m))
            if m == "condition list items must be strings, got: Number(5)"
    ));
}

#[test]
fn failures_of_other_parts_come_in_order() {
    let failing = rule_from::<String, Vec<String>, u8, u8>(
        &yaml("title: x\ndetection:\n  a|nope: b\n  condition: a\n"),
        ParsedParts {
            conditions: vec![Err(SigmaParserError::Condition("bad".to_string()))],
            logsource: Err(SigmaParserError::InvalidRule("logsource".to_string())),
            related: vec![],
            status: None,
            level: None,
        },
    );
    assert!(matches!(failing, Err(SigmaParserError::Condition(m)) if m == "bad"));
    let failing = rule_from::<String, Vec<String>, u8, u8>(
        &yaml("title: x\ndetection:\n  a: b\n  condition: a\n"),
        ParsedParts {
            conditions: vec![selection()],
            logsource: Err(SigmaParserError::InvalidRule("logsource".to_string())),
            related: vec![],
            status: None,
            level: None,
        },
    );
    assert!(matches!(failing, Err(SigmaParserError::InvalidRule(m)) if m == "logsource"));
}

#[test]
fn a_list_of_conditions() {
    let section = yaml("condition:\n  - a\n  - b\na: 1\nb: 2\n");
    assert_eq!(condition_strings(&section).unwrap(), vec!["a", "b"]);
    let detections = detections_from(&section, vec![selection(), selection()]).unwrap();
    let names: Vec<&str> = detections.named.iter().map(|(n, _)| n.as_str()).collect();
    assert_eq!(names, vec!["a", "b"]);
}

#[test]
fn of_two_detections_under_one_name_the_later_counts() {
    // Keys that are no strings all have the empty name.
    let section = yaml("condition: x\n1: one\n2: two\n");
    let detections = detections_from(&section, vec![selection()]).unwrap();
    assert_eq!(detections.named.len(), 1);
    assert_eq!(detections.named[0].0, "");
    assert!(format!("{:?}", detections.named[0].1).contains("two"));
}

fn parse_condition(text: &str) -> Result<ConditionExpr, SigmaParserError> {
    if text.contains(' ') {
        Err(SigmaParserError::Condition(text.to_string()))
    } else {
        Ok(ConditionExpr::Identifier(text.to_string()))
    }
}

fn parse_all(text: &str) -> Result<SigmaRule<String, usize, u8, u8>, SigmaParserError> {
    parse_detection_rule(
        &yaml(text),
        PartParsers {
            condition: parse_condition,
            logsource: |v: &YamlValue| match v {
                YamlValue::String(s) => Ok(s.clone()),
                _ => Err(SigmaParserError::InvalidRule("logsource".to_string())),
            },
            default_logsource: "anything".to_string(),
            related: |v: Option<&YamlValue>| match v {
                Some(YamlValue::Sequence(items)) => items.len(),
                _ => 0,
            },
            status: |s: &str| if s == "test" { Some(1) } else { None },
            level: |s: &str| if s == "high" { Some(3) } else { None },
        },
    )
}

#[test]
fn each_condition_string_is_parsed() {
    let section = yaml("condition:\n  - a\n  - b\na: 1\nb: 2\n");
    let detections = parse_detections(&section, parse_condition).unwrap();
    let seen: Vec<&str> = detections
        .conditions
        .iter()
        .map(|c| match c {
            ConditionExpr::Identifier(name) => name.as_str(),
            _ => panic!(),
        })
        .collect();
    assert_eq!(seen, vec!["a", "b"]);
    let section = yaml("condition:\n  - a\n  - b c\n  - d e\na|nope: 1\n");
    assert!(matches!(
        parse_detections(&section, parse_condition),
        Err(SigmaParserError::Condition(text)) if text == "b c"
    ));
}

#[test]
fn the_parts_are_parsed_from_their_keys() {
    let rule = parse_all(
        "title: x\nstatus: test\nlevel: low\nlogsource: linux\nrelated: [a, b]\n\
         detection:\n  sel: 1\n  condition: sel\n",
    )
    .unwrap();
    assert_eq!(rule.logsource, "linux");
    assert_eq!(rule.related, 2);
    assert_eq!(rule.status, Some(1));
    assert_eq!(rule.level, None);
    let rule = parse_all("title: x\ndetection:\n  sel: 1\n  condition: sel\n").unwrap();
    assert_eq!(rule.logsource, "anything");
    assert_eq!(rule.related, 0);
    assert_eq!(rule.status, None);
    assert!(matches!(
        parse_all("title: x\nlogsource: 5\ndetection:\n  sel: 1\n  condition: sel\n"),
        Err(SigmaParserError::InvalidRule(m)) if m == "logsource"
    ));
    assert!(matches!(
        parse_all("logsource: 5\ndetection:\n  sel: 1\n  condition: a b\n"),
        Err(SigmaParserError::MissingField(f)) if f == "title"
    ));
}

#[test]
fn a_condition_that_is_no_string_is_shown() {
    for item in [
        "~",
        "true",
        "-7",
        "18446744073709551615",
        "1.5",
        ".inf",
        "[a, [1, \"q\\n\"]]",
        "{a: 1, 2: b, true: [~]}",
        "!t [x]",
        "!t {a: !u 1}",
    ] {
        let document = format!("title: x\ndetection:\n  condition:\n    - {item}\n");
        let value: yaml_serde::Value = yaml_serde::from_str(item).unwrap();
        let expected = format!("condition list items must be strings, got: {value:?}");
        match parse(&document) {
            Err(SigmaParserError::InvalidDetection(m)) => assert_eq!(m, expected),
            _ => panic!("{item} was taken for a condition"),
        }
        match condition_not_a_string(&format!("{value:?}")) {
            SigmaParserError::InvalidDetection(m) => assert_eq!(m, expected),
            _ => panic!("another error"),
        }
    }
}
