//! Converting conditions.

use rsigma::ast::ConditionExpr;
use rsigma::ast::Detection;
use rsigma::ast::Quantifier;
use rsigma::ast::SelectorPattern;
use rsigma::ast::SigmaValue;
use rsigma::condition::convert_condition_expr;
use rsigma::condition::Backend;
use rsigma::condition::ConvertError;

/// Names each detection by its first keyword, and notes how many it has seen.
struct Words;

impl Backend<u32> for Words {
    fn convert_detection(
        &self,
        detection: &Detection,
        state: &mut u32,
    ) -> Result<String, ConvertError> {
        *state += 1;
        match detection {
            Detection::Keywords(values) => match &values[0] {
                SigmaValue::Raw(word) => Ok(word.clone()),
                other => Err(ConvertError::RuleConversion(format!("{other:?}"))),
            },
            _ => Err(ConvertError::UnsupportedArrayMatching("words".to_string())),
        }
    }

    fn convert_condition_and(&self, parts: &Vec<String>) -> Result<String, ConvertError> {
        Ok(format!("({})", parts.join(" AND ")))
    }

    fn convert_condition_or(&self, parts: &Vec<String>) -> Result<String, ConvertError> {
        Ok(format!("({})", parts.join(" OR ")))
    }

    fn convert_condition_not(&self, part: &str) -> Result<String, ConvertError> {
        Ok(format!("NOT {part}"))
    }
}

fn word(w: &str) -> Detection {
    Detection::Keywords(vec![SigmaValue::Raw(w.to_string())])
}

fn detections() -> Vec<(String, Detection)> {
    vec![
        ("selection_a".to_string(), word("a")),
        ("selection_b".to_string(), word("b")),
        ("_hidden".to_string(), word("h")),
        ("broken".to_string(), Detection::AllOf(vec![])),
    ]
}

fn identifier(name: &str) -> ConditionExpr {
    ConditionExpr::Identifier(name.to_string())
}

fn of(quantifier: Quantifier, glob: &str) -> ConditionExpr {
    ConditionExpr::Selector { quantifier, pattern: SelectorPattern::Pattern(glob.to_string()) }
}

fn convert(expr: &ConditionExpr) -> Result<(String, u32), String> {
    let mut state = 0;
    match convert_condition_expr(&Words, expr, &detections(), &mut state) {
        Ok(text) => Ok((text, state)),
        Err(ConvertError::RuleConversion(m)) => Err(m),
        Err(ConvertError::UnsupportedArrayMatching(m)) => Err(format!("array: {m}")),
    }
}

#[test]
fn a_tree_is_converted_from_its_leaves() {
    let expr = ConditionExpr::And(vec![
        identifier("selection_a"),
        ConditionExpr::Or(vec![identifier("selection_b"), identifier("_hidden")]),
        ConditionExpr::Not(Box::new(identifier("selection_a"))),
    ]);
    assert_eq!(convert(&expr), Ok(("(a AND (b OR h) AND NOT a)".to_string(), 4)));
}

#[test]
fn selectors_link_what_they_select() {
    assert_eq!(
        convert(&of(Quantifier::All, "selection_*")),
        Ok(("(a AND b)".to_string(), 2))
    );
    assert_eq!(
        convert(&of(Quantifier::Any, "selection_*")),
        Ok(("(a OR b)".to_string(), 2))
    );
    assert_eq!(
        convert(&of(Quantifier::Count(1), "selection_*")),
        convert(&of(Quantifier::Any, "selection_*"))
    );
}

#[test]
fn what_cannot_be_converted() {
    assert_eq!(
        convert(&identifier("nope")),
        Err("detection 'nope' not found".to_string())
    );
    assert_eq!(
        convert(&of(Quantifier::Any, "filter_*")),
        Err("selector matched no detections".to_string())
    );
    assert_eq!(
        convert(&of(Quantifier::Count(12), "selection_*")),
        Err("'12 of' quantifier not supported in conversion".to_string())
    );
    assert_eq!(
        convert(&ConditionExpr::And(vec![identifier("broken"), identifier("nope")])),
        Err("array: words".to_string())
    );
}
