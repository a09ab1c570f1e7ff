//! The index over substring patterns.

use rsigma::ast::ConditionExpr;
use rsigma::ast::Detection;
use rsigma::ast::DetectionItem;
use rsigma::ast::Modifier;
use rsigma::ast::Quantifier;
use rsigma::ast::SelectorPattern;
use rsigma::ast::SigmaParserError;
use rsigma::ast::SigmaValue;
use rsigma::cross_rule_ac::CrossRuleAcIndex;
use rsigma::cross_rule_ac::MAX_PATTERNS_PER_FIELD;
use rsigma::matcher::CompiledDetection;
use rsigma::matcher::CompiledDetectionItem;
use rsigma::matcher::CompiledMatcher;
use rsigma::matcher::CompiledRule;
use rsigma::matcher::EventValue;
use rsigma::matcher::GroupMode;
use rsigma::pruning::rule_is_ac_prunable;
use rsigma::rule::rule_from;
use rsigma::rule::ParsedParts;
use rsigma::yaml::YamlValue;

fn from_yaml(v: &yaml_serde::Value) -> YamlValue {
    match v {
        yaml_serde::Value::Null => YamlValue::Null,
        yaml_serde::Value::Bool(b) => YamlValue::Bool(*b),
        yaml_serde::Value::Number(n) => YamlValue::Number(n.clone()),
        yaml_serde::Value::String(s) => YamlValue::String(s.clone()),
        yaml_serde::Value::Sequence(items) => {
            YamlValue::Sequence(items.iter().map(from_yaml).collect())
        }
        yaml_serde::Value::Mapping(m) => YamlValue::Mapping(
            m.iter().map(|(k, v)| (from_yaml(k), from_yaml(v))).collect(),
        ),
        yaml_serde::Value::Tagged(t) => {
            YamlValue::Tagged(t.tag.clone(), Box::new(from_yaml(&t.value)))
        }
    }
}

fn yaml(text: &str) -> YamlValue {
    from_yaml(&yaml_serde::from_str::<yaml_serde::Value>(text).unwrap())
}

fn value_text(value: &SigmaValue) -> String {
    match value {
        SigmaValue::Yaml(YamlValue::String(s)) => s.to_lowercase(),
        other => panic!("not a text: {other:?}"),
    }
}

fn compile_value(item: &DetectionItem, value: &SigmaValue) -> CompiledMatcher {
    let value = value_text(value);
    if item.field.modifiers.contains(&Modifier::Contains) {
        CompiledMatcher::Contains { value, case_insensitive: true }
    } else {
        CompiledMatcher::Exact { value, case_insensitive: true }
    }
}

fn compile_item(item: &DetectionItem) -> CompiledDetectionItem {
    let matcher = match item.values.len() {
        1 => compile_value(item, &item.values[0]),
        n if n >= 8 => CompiledMatcher::AhoCorasickSet {
            needles: item.values.iter().map(value_text).collect(),
            case_insensitive: true,
        },
        _ => CompiledMatcher::AnyOf(item.values.iter().map(|v| compile_value(item, v)).collect()),
    };
    CompiledDetectionItem { field: item.field.name.clone(), matcher, exists: None }
}

fn compile_detection(detection: &Detection) -> CompiledDetection {
    match detection {
        Detection::AllOf(items) => {
            CompiledDetection::AllOf(items.iter().map(compile_item).collect())
        }
        Detection::Keywords(values) => CompiledDetection::Keywords(CompiledMatcher::AnyOf(
            values
                .iter()
                .map(|v| CompiledMatcher::Contains {
                    value: value_text(v),
                    case_insensitive: true,
                })
                .collect(),
        )),
        other => panic!("not compiled here: {other:?}"),
    }
}

fn identifier(name: &str) -> ConditionExpr {
    ConditionExpr::Identifier(name.to_string())
}

fn compile(text: &str, condition: ConditionExpr) -> Result<CompiledRule, SigmaParserError> {
    let rule = rule_from::<(), (), (), ()>(
        &yaml(text),
        ParsedParts {
            conditions: vec![Ok(condition)],
            logsource: Ok(()),
            related: (),
            status: None,
            level: None,
        },
    )?;
    Ok(CompiledRule {
        detections: rule
            .detection
            .named
            .iter()
            .map(|(n, d)| (n.clone(), compile_detection(d)))
            .collect(),
        conditions: rule.detection.conditions,
    })
}

fn event(field: &str, value: &str) -> Vec<(String, EventValue)> {
    vec![(field.to_string(), EventValue::Str(value.to_string()))]
}

fn hits_of(rules: &[CompiledRule], event: &Vec<(String, EventValue)>) -> Vec<bool> {
    let index = CrossRuleAcIndex::build(rules);
    let mut hits = vec![false; rules.len()];
    index.mark_hits(event, &mut hits);
    hits
}

const WHOAMI: &str = r#"
title: Whoami Rule
logsource:
    product: windows
detection:
    selection:
        CommandLine|contains: 'whoami'
    condition: selection
"#;

#[test]
fn empty_when_no_substring_patterns() {
    let yaml = r#"
title: Exact Only
logsource:
    product: windows
detection:
    selection:
        EventType: 'login'
    condition: selection
"#;
    let rules = vec![compile(yaml, identifier("selection")).unwrap()];
    let index = CrossRuleAcIndex::build(&rules);
    assert!(index.is_empty());
}

#[test]
fn populates_per_field_automaton() {
    let yaml = r#"
title: Contains Heavy
logsource:
    product: windows
detection:
    selection:
        CommandLine|contains:
            - 'whoami'
            - 'mimikatz'
            - 'powershell'
    condition: selection
"#;
    let rules = vec![compile(yaml, identifier("selection")).unwrap()];
    let index = CrossRuleAcIndex::build(&rules);
    assert_eq!(index.field_count(), 1);
    assert_eq!(index.rule_count(), 1);
}

#[test]
fn marks_hits_for_matching_rule() {
    let mimikatz = r#"
title: Mimikatz Rule
logsource:
    product: windows
detection:
    selection:
        CommandLine|contains: 'mimikatz'
    condition: selection
"#;
    let rules = vec![
        compile(WHOAMI, identifier("selection")).unwrap(),
        compile(mimikatz, identifier("selection")).unwrap(),
    ];
    let hits = hits_of(&rules, &event("CommandLine", "execute whoami /all"));
    assert!(hits[0], "first rule should hit on 'whoami'");
    assert!(!hits[1], "second rule should not hit");
}

#[test]
fn marks_hits_case_insensitive() {
    let rules = vec![compile(WHOAMI, identifier("selection")).unwrap()];
    let hits = hits_of(&rules, &event("CommandLine", "execute WHOAMI /all"));
    assert!(hits[0], "haystack lowering must match upper-case input");
}

#[test]
fn negated_substring_excluded_from_index() {
    let yaml = r#"
title: Negated
logsource:
    product: windows
detection:
    selection:
        CommandLine|contains|not: 'whoami'
    condition: selection
"#;
    let rules: Vec<CompiledRule> = compile(yaml, identifier("selection")).into_iter().collect();
    let index = CrossRuleAcIndex::build(&rules);
    assert!(index.is_empty());
    let negated = CompiledRule {
        detections: vec![(
            "selection".to_string(),
            CompiledDetection::AllOf(vec![CompiledDetectionItem {
                field: Some("CommandLine".to_string()),
                matcher: CompiledMatcher::Not(Box::new(CompiledMatcher::Contains {
                    value: "whoami".to_string(),
                    case_insensitive: true,
                })),
                exists: None,
            }]),
        )],
        conditions: vec![identifier("selection")],
    };
    assert!(!rule_is_ac_prunable(&negated));
    assert!(CrossRuleAcIndex::build(&[negated]).is_empty());
}

#[test]
fn ahocorasick_needles_indexed() {
    let yaml = r#"
title: AC Rule
logsource:
    product: windows
detection:
    selection:
        CommandLine|contains:
            - 'mimikatz'
            - 'powershell'
            - 'rundll32'
            - 'regsvr32'
            - 'certutil'
            - 'bitsadmin'
            - 'mshta'
            - 'wscript'
    condition: selection
"#;
    let rules = vec![compile(yaml, identifier("selection")).unwrap()];
    let hits = hits_of(&rules, &event("CommandLine", "rundll32.exe foo"));
    assert!(hits[0]);
}

#[test]
fn shared_pattern_marks_multiple_rules() {
    let rules = vec![
        compile(WHOAMI, identifier("selection")).unwrap(),
        compile(WHOAMI, identifier("selection")).unwrap(),
    ];
    let hits = hits_of(&rules, &event("CommandLine", "whoami /all"));
    assert!(hits[0] && hits[1]);
}

#[test]
fn ac_prunable_pure_substring_rule() {
    let rule = compile(WHOAMI, identifier("selection")).unwrap();
    assert!(rule_is_ac_prunable(&rule));
}

#[test]
fn ac_prunable_rejects_mixed_exact_and_substring() {
    let yaml = r#"
title: Mixed
logsource:
    product: windows
detection:
    selection:
        EventType: 'process_create'
        CommandLine|contains: 'whoami'
    condition: selection
"#;
    let rule = compile(yaml, identifier("selection")).unwrap();
    assert!(!rule_is_ac_prunable(&rule));
}

#[test]
fn ac_prunable_rejects_negation_in_condition() {
    let yaml = r#"
title: Negated Condition
logsource:
    product: windows
detection:
    selection:
        CommandLine|contains: 'whoami'
    other:
        CommandLine|contains: 'admin'
    condition: selection and not other
"#;
    let condition = ConditionExpr::And(vec![
        identifier("selection"),
        ConditionExpr::Not(Box::new(identifier("other"))),
    ]);
    let rule = compile(yaml, condition).unwrap();
    assert!(!rule_is_ac_prunable(&rule));
}

#[test]
fn ac_prunable_rejects_keywords() {
    let yaml = r#"
title: Keyword Only
logsource:
    product: windows
detection:
    keywords:
        - 'suspicious'
        - 'malware'
    condition: keywords
"#;
    let rule = compile(yaml, identifier("keywords")).unwrap();
    assert!(!rule_is_ac_prunable(&rule));
}

#[test]
fn ac_prunable_accepts_anyof_substring_values() {
    let yaml = r#"
title: AnyOf Substrings
logsource:
    product: windows
detection:
    selection:
        CommandLine|contains:
            - 'whoami'
            - 'mimikatz'
            - 'powershell'
    condition: selection
"#;
    let rule = compile(yaml, identifier("selection")).unwrap();
    assert!(rule_is_ac_prunable(&rule));
}

fn contains_rule(field: &str, needle: &str, case_insensitive: bool) -> CompiledRule {
    CompiledRule {
        detections: vec![(
            "selection".to_string(),
            CompiledDetection::AllOf(vec![CompiledDetectionItem {
                field: Some(field.to_string()),
                matcher: CompiledMatcher::Contains { value: needle.to_string(), case_insensitive },
                exists: None,
            }]),
        )],
        conditions: vec![identifier("selection")],
    }
}

#[test]
fn cap_drops_overflowing_field() {
    let n = MAX_PATTERNS_PER_FIELD + 5;
    let mut rules = Vec::new();
    for i in 0..n {
        rules.push(contains_rule("CommandLine", &format!("pat-{i:08}"), true));
    }
    let index = CrossRuleAcIndex::build(&rules);
    // Field is dropped, so the index is empty for CommandLine.
    assert!(index.is_empty());
}

#[test]
fn rules_on_a_dropped_field_are_kept() {
    let n = MAX_PATTERNS_PER_FIELD + 1;
    let mut rules = Vec::new();
    for i in 0..n {
        rules.push(contains_rule("CommandLine", &format!("p{i}"), true));
    }
    rules.push(contains_rule("Image", "cmd", true));
    let index = CrossRuleAcIndex::build(&rules);
    assert_eq!(index.field_count(), 1);
    let mut hits = vec![false; rules.len()];
    index.mark_hits(&event("CommandLine", "nothing"), &mut hits);
    assert!(hits[0] && hits[n - 1]);
    assert!(!hits[n]);
}

#[test]
fn needles_of_cased_matchers_are_indexed_in_lower_case() {
    let rules = vec![contains_rule("CommandLine", "WhoAmI", false)];
    assert!(hits_of(&rules, &event("CommandLine", "run WhoAmI"))[0]);
}

#[test]
fn a_rule_that_was_marked_stays_marked() {
    let rules = vec![contains_rule("CommandLine", "x", true)];
    let index = CrossRuleAcIndex::build(&rules);
    let mut hits = vec![true];
    index.mark_hits(&event("CommandLine", "y"), &mut hits);
    assert!(hits[0]);
    assert!(CrossRuleAcIndex::empty().is_empty());
}

#[test]
fn values_that_are_not_texts_mark_nothing() {
    let rules = vec![contains_rule("Port", "44", true)];
    let event = vec![("Port".to_string(), EventValue::Int(443))];
    assert!(!hits_of(&rules, &event)[0]);
}

#[test]
fn patterns_outside_ascii() {
    let rules = vec![contains_rule("Text", "grün", true), contains_rule("Text", "rü", true)];
    assert_eq!(hits_of(&rules, &event("Text", "Sehr GRüN")), vec![true, true]);
    assert_eq!(hits_of(&rules, &event("Text", "gr\u{fc}")), vec![false, true]);
}

#[test]
fn groups_nest() {
    let rule = CompiledRule {
        detections: vec![(
            "selection".to_string(),
            CompiledDetection::AnyOf(vec![CompiledDetection::AllOf(vec![CompiledDetectionItem {
                field: Some("A".to_string()),
                matcher: CompiledMatcher::CaseInsensitiveGroup {
                    children: vec![
                        CompiledMatcher::StartsWith {
                            value: "one".to_string(),
                            case_insensitive: true,
                        },
                        CompiledMatcher::AllOf(vec![CompiledMatcher::EndsWith {
                            value: "two".to_string(),
                            case_insensitive: true,
                        }]),
                    ],
                    mode: GroupMode::Any,
                },
                exists: None,
            }])]),
        )],
        conditions: vec![identifier("selection")],
    };
    assert!(rule_is_ac_prunable(&rule));
    let rules = vec![rule];
    assert!(hits_of(&rules, &event("A", "only TWO"))[0]);
    assert!(!hits_of(&rules, &event("A", "three"))[0]);
    assert!(!hits_of(&rules, &event("B", "one two"))[0]);
}

#[test]
fn a_field_with_many_bytes_of_needles_is_indexed() {
    let mut rules = Vec::new();
    for i in 0..MAX_PATTERNS_PER_FIELD {
        let needle = format!("https://{}.example.com/{i:06}", "a".repeat(80));
        rules.push(contains_rule("Url", &needle, true));
    }
    let index = CrossRuleAcIndex::build(&rules);
    assert_eq!(index.field_count(), 1);
    let mut hits = vec![false; rules.len()];
    let url = format!("GET https://{}.example.com/000007?x", "A".repeat(80));
    index.mark_hits(&event("Url", &url), &mut hits);
    assert!(hits[7]);
    assert_eq!(hits.iter().filter(|hit| **hit).count(), 1);
}

#[test]
fn a_rule_that_looks_for_the_empty_text_is_not_prunable() {
    assert!(!rule_is_ac_prunable(&contains_rule("Image", "", true)));
    let mut set = contains_rule("Image", "", true);
    set.detections[0].1 = CompiledDetection::AllOf(vec![CompiledDetectionItem {
        field: Some("Image".to_string()),
        matcher: CompiledMatcher::AhoCorasickSet {
            needles: vec!["cmd".to_string(), String::new()],
            case_insensitive: true,
        },
        exists: None,
    }]);
    assert!(!rule_is_ac_prunable(&set));
}

#[test]
fn a_rule_whose_condition_needs_no_detection_is_not_prunable() {
    let of = |quantifier: Quantifier, pattern: &str| ConditionExpr::Selector {
        quantifier,
        pattern: SelectorPattern::Pattern(pattern.to_string()),
    };
    let prunable = |condition: ConditionExpr| {
        let mut rule = contains_rule("Image", "cmd", true);
        rule.conditions = vec![condition];
        rule_is_ac_prunable(&rule)
    };
    assert!(prunable(of(Quantifier::Any, "none*")));
    assert!(prunable(of(Quantifier::All, "sel*")));
    assert!(prunable(of(Quantifier::Count(1), "sel*")));
    assert!(!prunable(of(Quantifier::All, "none*")));
    assert!(!prunable(of(Quantifier::Count(0), "sel*")));
    assert!(!prunable(ConditionExpr::And(vec![])));
    assert!(prunable(ConditionExpr::Or(vec![])));
    assert!(prunable(ConditionExpr::And(vec![
        of(Quantifier::Count(0), "sel*"),
        identifier("selection"),
    ])));
    assert!(!prunable(ConditionExpr::Or(vec![
        of(Quantifier::Count(0), "sel*"),
        identifier("selection"),
    ])));
}
