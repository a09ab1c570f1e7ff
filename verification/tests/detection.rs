//! Parsing detections.

use rsigma::ast::ArrayQuantifier;
use rsigma::ast::Detection;
use rsigma::ast::DetectionItem;
use rsigma::ast::Modifier;
use rsigma::ast::SigmaParserError;
use rsigma::ast::SigmaValue;
use rsigma::detection::parse_detection;
use rsigma::detection::parse_detection_item;
use rsigma::detection::parse_field_path;
use rsigma::detection::parse_field_spec;
use rsigma::detection::parse_map_entry;
use rsigma::detection::parse_modifiers;
use rsigma::detection::reconstruct_key;
use rsigma::detection::ParsedEntry;
use rsigma::yaml::YamlValue;

fn from_yaml(v: &yaml_serde::Value) -> YamlValue {
    match v {
        yaml_serde::Value::Null => YamlValue::Null,
        yaml_serde::Value::Bool(b) => YamlValue::Bool(*b),
        yaml_serde::Value::Number(n) => YamlValue::Number(n.clone()),
        yaml_serde::Value::String(s) => YamlValue::String(s.clone()),
        yaml_serde::Value::Sequence(items) => {
            YamlValue::Sequence(items.iter().map(from_yaml).collect())
        }
        yaml_serde::Value::Mapping(m) => YamlValue::Mapping(
            m.iter().map(|(k, v)| (from_yaml(k), from_yaml(v))).collect(),
        ),
        yaml_serde::Value::Tagged(t) => {
            YamlValue::Tagged(t.tag.clone(), Box::new(from_yaml(&t.value)))
        }
    }
}

fn yaml(text: &str) -> YamlValue {
    from_yaml(&yaml_serde::from_str::<yaml_serde::Value>(text).unwrap())
}

fn name(item: &DetectionItem) -> &str {
    item.field.name.as_deref().unwrap_or("")
}

fn plain_text(value: &SigmaValue) -> &str {
    match value {
        SigmaValue::Yaml(YamlValue::String(s)) => s,
        other => panic!("not a plain text: {other:?}"),
    }
}

#[test]
fn a_field_spec_is_a_name_and_modifiers() {
    let field = parse_field_spec("Destination|contains|all").unwrap();
    assert_eq!(field.name.as_deref(), Some("Destination"));
    assert_eq!(field.modifiers, vec![Modifier::Contains, Modifier::All]);
    let bare = parse_field_spec("EventType").unwrap();
    assert_eq!(bare.name.as_deref(), Some("EventType"));
    assert!(bare.modifiers.is_empty());
    let keyword = parse_field_spec("").unwrap();
    assert_eq!(keyword.name, None);
    let only_modifiers = parse_field_spec("|re").unwrap();
    assert_eq!(only_modifiers.name, None);
    assert_eq!(only_modifiers.modifiers, vec![Modifier::Re]);
}

#[test]
fn wrong_modifiers_are_errors() {
    assert!(matches!(
        parse_field_spec("a|contains|not"),
        Err(SigmaParserError::NotIsNotAModifier)
    ));
    assert!(matches!(
        parse_field_spec("a|nope|not"),
        Err(SigmaParserError::UnknownModifier(m)) if m == "nope"
    ));
    assert!(parse_modifiers(None).unwrap().is_empty());
    assert_eq!(
        parse_modifiers(Some("startswith|cased")).unwrap(),
        vec![Modifier::StartsWith, Modifier::Cased]
    );
}

#[test]
fn quantifiers_and_positions_of_a_path() {
    let path = parse_field_path("rules[any].ip[0].tags[none]").unwrap();
    let seen: Vec<(&str, Option<ArrayQuantifier>)> = path
        .iter()
        .map(|s| (s.name.as_str(), s.quantifier))
        .collect();
    assert_eq!(
        seen,
        vec![
            ("rules", Some(ArrayQuantifier::Any)),
            ("ip[0]", None),
            ("tags", Some(ArrayQuantifier::NoMember)),
        ]
    );
    assert_eq!(
        parse_field_path("a[all_or_empty]").unwrap()[0].quantifier,
        Some(ArrayQuantifier::AllOrEmpty)
    );
    assert_eq!(parse_field_path("args[-1]").unwrap()[0].name, "args[-1]");
}

#[test]
fn wrong_selectors_are_errors() {
    match parse_field_path("a.b[some]") {
        Err(SigmaParserError::InvalidFieldSpec(m)) => assert_eq!(
            m,
            "unknown array quantifier '[some]' in field 'a.b[some]'; only [any], [all], \
             [all_or_empty], [none] and positional indices are supported"
        ),
        other => panic!("unexpected {other:?}"),
    }
    match parse_field_path("a.[any]") {
        Err(SigmaParserError::InvalidFieldSpec(m)) => {
            assert_eq!(m, "array quantifier without a field name in 'a.[any]'")
        }
        other => panic!("unexpected {other:?}"),
    }
}

#[test]
fn a_path_is_written_as_it_was_read() {
    for path in ["a", "a.b[any].c[0]", "x[all].y[none]", "."] {
        let segments = parse_field_path(path).unwrap();
        assert_eq!(reconstruct_key(&segments, None), path);
        assert_eq!(
            reconstruct_key(&segments, Some("contains|all")),
            format!("{path}|contains|all")
        );
    }
}

#[test]
fn a_mapping_links_its_items() {
    match parse_detection(&yaml("EventType: login\nUser|contains: adm\n")).unwrap() {
        Detection::AllOf(items) => {
            assert_eq!(items.len(), 2);
            assert_eq!(name(&items[0]), "EventType");
            assert_eq!(plain_text(&items[0].values[0]), "login");
            assert_eq!(items[1].field.modifiers, vec![Modifier::Contains]);
        }
        other => panic!("unexpected {other:?}"),
    }
}

#[test]
fn lists_are_keywords_or_alternatives() {
    match parse_detection(&yaml("- one\n- 2\n")).unwrap() {
        Detection::Keywords(values) => assert_eq!(values.len(), 2),
        other => panic!("unexpected {other:?}"),
    }
    match parse_detection(&yaml("- a: 1\n- b: 2\n")).unwrap() {
        Detection::AnyOf(subs) => assert_eq!(subs.len(), 2),
        other => panic!("unexpected {other:?}"),
    }
    match parse_detection(&yaml("word")).unwrap() {
        Detection::Keywords(values) => assert_eq!(plain_text(&values[0]), "word"),
        other => panic!("unexpected {other:?}"),
    }
}

#[test]
fn an_object_scope_block() {
    let text = "connections[any]:\n  protocol: TCP\n  ip|cidr: 123.1.0.0/16\n";
    match parse_detection(&yaml(text)).unwrap() {
        Detection::ArrayMatch { field, quantifier, body } => {
            assert_eq!(field, "connections");
            assert_eq!(quantifier, ArrayQuantifier::Any);
            assert!(matches!(*body, Detection::AllOf(items) if items.len() == 2));
        }
        other => panic!("unexpected {other:?}"),
    }
}

#[test]
fn a_quantifier_in_the_middle_of_a_path() {
    match parse_map_entry("a.rules[any].ip[all]|startswith", &yaml("'10.'")).unwrap() {
        ParsedEntry::Block(Detection::ArrayMatch { field, quantifier, body }) => {
            assert_eq!(field, "a.rules");
            assert_eq!(quantifier, ArrayQuantifier::Any);
            match *body {
                Detection::ArrayMatch { field, quantifier, body } => {
                    assert_eq!(field, "ip");
                    assert_eq!(quantifier, ArrayQuantifier::All);
                    match *body {
                        Detection::AllOf(items) => {
                            assert_eq!(items[0].field.name, None);
                            assert_eq!(items[0].field.modifiers, vec![Modifier::StartsWith]);
                            assert_eq!(plain_text(&items[0].values[0]), "10.");
                        }
                        other => panic!("unexpected {other:?}"),
                    }
                }
                other => panic!("unexpected {other:?}"),
            }
        }
        other => panic!("unexpected {other:?}"),
    }
    match parse_map_entry("rules[any].ip[0]", &yaml("10.0.0.1")).unwrap() {
        ParsedEntry::Block(Detection::ArrayMatch { body, .. }) => {
            assert!(matches!(*body, Detection::AllOf(items) if name(&items[0]) == "ip[0]"));
        }
        other => panic!("unexpected {other:?}"),
    }
}

#[test]
fn items_and_blocks_together() {
    let text = "a: 1\nx[any]:\n  b: 2\ny[all]: 3\n";
    match parse_detection(&yaml(text)).unwrap() {
        Detection::And(parts) => {
            assert_eq!(parts.len(), 3);
            assert!(matches!(&parts[0], Detection::AllOf(items) if items.len() == 1));
            assert!(matches!(&parts[1], Detection::ArrayMatch { .. }));
        }
        other => panic!("unexpected {other:?}"),
    }
}

#[test]
fn modifiers_on_an_object_scope_block_are_an_error() {
    match parse_detection(&yaml("x[any]|contains:\n  a: 1\n")) {
        Err(SigmaParserError::InvalidFieldSpec(m)) => assert_eq!(
            m,
            "value modifiers cannot be applied to an array object-scope block; move the modifier \
             onto a field inside the block"
        ),
        other => panic!("unexpected {other:?}"),
    }
}

#[test]
fn a_regular_expression_is_taken_as_it_stands() {
    let item = parse_detection_item("a|re", &yaml("- 'x.*'\n- 5\n")).unwrap();
    assert!(matches!(&item.values[0], SigmaValue::Raw(s) if s == "x.*"));
    assert!(matches!(
        &item.values[1],
        SigmaValue::Yaml(YamlValue::Number(n)) if n.as_i64() == Some(5)
    ));
}
