//! Rules that cannot fire unless one of their needles occurs.

use crate::ast::ConditionExpr;
use crate::ast::Quantifier;
use crate::ast::SelectorPattern;
use crate::cross_rule_ac::IndexView;
use crate::cross_rule_ac;
use crate::grouping;
use crate::matcher::CompiledDetection;
use crate::matcher::CompiledDetectionItem;
use crate::matcher::CompiledMatcher;
use crate::matcher::CompiledRule;
use crate::matcher::EventValue;
use crate::matcher::Given;
use crate::matcher::GroupMode;
use crate::matcher::Verdicts;
use crate::matcher;
use crate::needles::NeedleView;
use crate::needles;
use crate::selector;
use crate::substring;
use crate::text;
use vstd::prelude::*;

verus! {

// ---------------------------------------------------------------------------
// Rules that need a needle to fire
// ---------------------------------------------------------------------------

/// The matcher looks for substrings, and none of them is empty: the empty text occurs
/// everywhere.
pub open spec fn searches(m: CompiledMatcher) -> bool {
    match m {
        CompiledMatcher::Contains { value, .. } => value@.len() > 0,
        CompiledMatcher::StartsWith { value, .. } => value@.len() > 0,
        CompiledMatcher::EndsWith { value, .. } => value@.len() > 0,
        CompiledMatcher::AhoCorasickSet { needles, .. } => forall|i: int|
            0 <= i < needles@.len() ==> (#[trigger] needles@[i])@.len() > 0,
        _ => false,
    }
}

/// The matcher looks for substrings only, for some, and for none that is empty.
pub open spec fn pure_matcher(m: CompiledMatcher) -> bool
    decreases m,
{
    match m {
        CompiledMatcher::AnyOf(children) => children@.len() > 0 && all_pure(children@),
        CompiledMatcher::AllOf(children) => children@.len() > 0 && all_pure(children@),
        CompiledMatcher::CaseInsensitiveGroup { children, .. } => children@.len() > 0 && all_pure(
            children@,
        ),
        _ => searches(m),
    }
}

/// All the matchers look for substrings only.
pub open spec fn all_pure(children: Seq<CompiledMatcher>) -> bool
    decreases children,
{
    children.len() > 0 ==> all_pure(children.drop_last()) && pure_matcher(children.last())
}

/// The item matches a field against substrings only.
pub open spec fn pure_item(item: CompiledDetectionItem) -> bool {
    item.field is Some && item.exists is None && pure_matcher(item.matcher)
}

/// The detection is built from positive substring matchers on fields only.
pub open spec fn pure_detection(d: CompiledDetection) -> bool
    decreases d,
{
    match d {
        CompiledDetection::AllOf(items) => items@.len() > 0 && forall|i: int|
            0 <= i < items@.len() ==> pure_item(#[trigger] items@[i]),
        CompiledDetection::AnyOf(subs) => subs@.len() > 0 && all_pure_detections(subs@),
        _ => false,
    }
}

/// All the detections are built from positive substring matchers only.
pub open spec fn all_pure_detections(subs: Seq<CompiledDetection>) -> bool
    decreases subs,
{
    subs.len() > 0 ==> all_pure_detections(subs.drop_last()) && pure_detection(subs.last())
}

/// A substring matcher stands somewhere in the matcher.
pub open spec fn has_substring(m: CompiledMatcher) -> bool
    decreases m,
{
    match m {
        CompiledMatcher::AnyOf(children) => some_has_substring(children@),
        CompiledMatcher::AllOf(children) => some_has_substring(children@),
        CompiledMatcher::CaseInsensitiveGroup { children, .. } => some_has_substring(children@),
        _ => matcher::looks_for_substrings(m),
    }
}

/// A substring matcher stands somewhere in the matchers.
pub open spec fn some_has_substring(children: Seq<CompiledMatcher>) -> bool
    decreases children,
{
    children.len() > 0 && (some_has_substring(children.drop_last()) || has_substring(
        children.last(),
    ))
}

/// A substring matcher stands somewhere in the detection.
pub open spec fn detection_has_substring(d: CompiledDetection) -> bool
    decreases d,
{
    match d {
        CompiledDetection::AllOf(items) => exists|i: int|
            0 <= i < items@.len() && has_substring((#[trigger] items@[i]).matcher),
        CompiledDetection::AnyOf(subs) => some_detection_has_substring(subs@),
        _ => false,
    }
}

/// A substring matcher stands somewhere in the detections.
pub open spec fn some_detection_has_substring(subs: Seq<CompiledDetection>) -> bool
    decreases subs,
{
    subs.len() > 0 && (some_detection_has_substring(subs.drop_last()) || detection_has_substring(
        subs.last(),
    ))
}

/// No negation stands in the condition.
pub open spec fn negation_free(c: ConditionExpr) -> bool
    decreases c,
{
    match c {
        ConditionExpr::Not(_) => false,
        ConditionExpr::And(parts) => all_negation_free(parts@),
        ConditionExpr::Or(parts) => all_negation_free(parts@),
        _ => true,
    }
}

/// No negation stands in the conditions.
pub open spec fn all_negation_free(parts: Seq<ConditionExpr>) -> bool
    decreases parts,
{
    parts.len() > 0 ==> all_negation_free(parts.drop_last()) && negation_free(parts.last())
}

/// Some detection is selected.
pub open spec fn some_selected(
    detections: Seq<(String, CompiledDetection)>,
    pattern: SelectorPattern,
) -> bool {
    exists|i: int|
        0 <= i < detections.len() && selector::selects(pattern, (#[trigger] detections[i]).0@)
}

/// A condition without negation that does not hold unless some detection does. An
/// empty conjunction, `all of` no detection and `0 of` hold without any.
pub open spec fn needs_detection(
    c: ConditionExpr,
    detections: Seq<(String, CompiledDetection)>,
) -> bool
    decreases c,
{
    match c {
        ConditionExpr::Not(_) => false,
        ConditionExpr::Identifier(_) => true,
        ConditionExpr::And(parts) => some_needs_detection(parts@, detections),
        ConditionExpr::Or(parts) => all_need_detection(parts@, detections),
        ConditionExpr::Selector { quantifier, pattern } => match quantifier {
            Quantifier::Any => true,
            Quantifier::All => some_selected(detections, pattern),
            Quantifier::Count(n) => n > 0,
        },
    }
}

/// Some condition does not hold unless some detection does.
pub open spec fn some_needs_detection(
    parts: Seq<ConditionExpr>,
    detections: Seq<(String, CompiledDetection)>,
) -> bool
    decreases parts,
{
    parts.len() > 0 && (some_needs_detection(parts.drop_last(), detections) || needs_detection(
        parts.last(),
        detections,
    ))
}

/// None of the conditions holds unless some detection does.
pub open spec fn all_need_detection(
    parts: Seq<ConditionExpr>,
    detections: Seq<(String, CompiledDetection)>,
) -> bool
    decreases parts,
{
    parts.len() > 0 ==> all_need_detection(parts.drop_last(), detections) && needs_detection(
        parts.last(),
        detections,
    )
}

/// A rule that is built from positive substring matchers only, from one at least and
/// without an empty substring, and whose conditions hold no negation and do not hold
/// unless some detection does.
pub open spec fn prunable(rule: CompiledRule) -> bool {
    &&& exists|i: int|
        0 <= i < rule.detections@.len() && detection_has_substring((#[trigger] rule.detections@[i]).1)
    &&& forall|i: int|
        0 <= i < rule.detections@.len() ==> pure_detection((#[trigger] rule.detections@[i]).1)
    &&& all_negation_free(rule.conditions@)
    &&& all_need_detection(rule.conditions@, rule.detections@)
}

proof fn lemma_pure_has_substring(m: CompiledMatcher)
    requires
        pure_matcher(m),
    ensures
        has_substring(m),
    decreases m,
{
    match m {
        CompiledMatcher::AnyOf(children) => lemma_pure_has_substring(children@.last()),
        CompiledMatcher::AllOf(children) => lemma_pure_has_substring(children@.last()),
        CompiledMatcher::CaseInsensitiveGroup { children, .. } => lemma_pure_has_substring(
            children@.last(),
        ),
        _ => {},
    }
}

pub proof fn lemma_pure_detection_has_substring(d: CompiledDetection)
    requires
        pure_detection(d),
    ensures
        detection_has_substring(d),
    decreases d,
{
    match d {
        CompiledDetection::AllOf(items) => {
            assert(pure_item(items@[0]));
            lemma_pure_has_substring(items@[0].matcher);
        },
        CompiledDetection::AnyOf(subs) => lemma_pure_detection_has_substring(subs@.last()),
        _ => {},
    }
}

/// Whether a rule cannot fire unless one of its needles occurs, so that it may be
/// left out when none does.
pub fn rule_is_ac_prunable(rule: &CompiledRule) -> (res: bool)
    ensures
        res == prunable(*rule),
{
    if rule.detections.len() == 0 {
        return false;
    }
    let mut i: usize = 0;
    while i < rule.detections.len()
        invariant
            0 <= i <= rule.detections@.len(),
            forall|j: int| 0 <= j < i ==> pure_detection((#[trigger] rule.detections@[j]).1),
        decreases rule.detections@.len() - i,
    {
        if !detection_is_pure_positive_substring(&rule.detections[i].1) {
            assert(!pure_detection(rule.detections@[i as int].1));
            return false;
        }
        i = i + 1;
    }
    proof {
        assert(pure_detection(rule.detections@[0].1));
        lemma_pure_detection_has_substring(rule.detections@[0].1);
    }
    all_conditions_negation_free(&rule.conditions) && all_conditions_need_detection(
        &rule.conditions,
        &rule.detections,
    )
}

fn detection_is_pure_positive_substring(detection: &CompiledDetection) -> (res: bool)
    ensures
        res == pure_detection(*detection),
    decreases detection,
{
    match detection {
        CompiledDetection::AllOf(items) => {
            if items.len() == 0 {
                return false;
            }
            let mut i: usize = 0;
            while i < items.len()
                invariant
                    0 <= i <= items@.len(),
                    detection is AllOf,
                    items == detection->AllOf_0,
                    forall|j: int| 0 <= j < i ==> pure_item(#[trigger] items@[j]),
                decreases items@.len() - i,
            {
                let pure: bool = items[i].field.is_some() && items[i].exists.is_none()
                    && matcher_is_pure_positive_substring(&items[i].matcher);
                if !pure {
                    assert(!pure_item(items@[i as int]));
                    return false;
                }
                i = i + 1;
            }
            true
        },
        CompiledDetection::AnyOf(subs) => {
            if subs.len() == 0 {
                return false;
            }
            let mut i: usize = 0;
            while i < subs.len()
                invariant
                    0 <= i <= subs@.len(),
                    decreases_to!(*detection => subs@),
                    *detection == CompiledDetection::AnyOf(*subs),
                    all_pure_detections(subs@.take(i as int)),
                decreases subs@.len() - i,
            {
                assert(subs@.take(i + 1).drop_last() =~= subs@.take(i as int));
                if !detection_is_pure_positive_substring(&subs[i]) {
                    proof {
                        lemma_all_pure_detections(subs@, i as int);
                    }
                    return false;
                }
                i = i + 1;
            }
            assert(subs@.take(i as int) =~= subs@);
            true
        },
        _ => false,
    }
}

fn matcher_is_pure_positive_substring(m: &CompiledMatcher) -> (res: bool)
    ensures
        res == pure_matcher(*m),
    decreases m,
{
    match m {
        CompiledMatcher::Contains { value, .. } => value.as_str().unicode_len() > 0,
        CompiledMatcher::StartsWith { value, .. } => value.as_str().unicode_len() > 0,
        CompiledMatcher::EndsWith { value, .. } => value.as_str().unicode_len() > 0,
        CompiledMatcher::AhoCorasickSet { needles, .. } => no_needle_empty(needles),
        CompiledMatcher::AnyOf(children) => children.len() > 0 && all_children_pure(children),
        CompiledMatcher::AllOf(children) => children.len() > 0 && all_children_pure(children),
        CompiledMatcher::CaseInsensitiveGroup { children, .. } => children.len() > 0
            && all_children_pure(children),
        _ => false,
    }
}

fn no_needle_empty(needles: &Vec<String>) -> (res: bool)
    ensures
        res == forall|i: int| 0 <= i < needles@.len() ==> (#[trigger] needles@[i])@.len() > 0,
{
    let mut i: usize = 0;
    while i < needles.len()
        invariant
            0 <= i <= needles@.len(),
            forall|j: int| 0 <= j < i ==> (#[trigger] needles@[j])@.len() > 0,
        decreases needles@.len() - i,
    {
        if needles[i].as_str().unicode_len() == 0 {
            return false;
        }
        i = i + 1;
    }
    true
}

fn all_children_pure(children: &Vec<CompiledMatcher>) -> (res: bool)
    ensures
        res == all_pure(children@),
    decreases children@,
{
    let mut i: usize = 0;
    while i < children.len()
        invariant
            0 <= i <= children@.len(),
            all_pure(children@.take(i as int)),
        decreases children@.len() - i,
    {
        assert(children@.take(i + 1).drop_last() =~= children@.take(i as int));
        if !matcher_is_pure_positive_substring(&children[i]) {
            proof {
                lemma_all_pure(children@, i as int);
            }
            return false;
        }
        i = i + 1;
    }
    assert(children@.take(i as int) =~= children@);
    true
}

fn condition_is_negation_free(c: &ConditionExpr) -> (res: bool)
    ensures
        res == negation_free(*c),
    decreases c,
{
    match c {
        ConditionExpr::Not(_) => false,
        ConditionExpr::Identifier(_) => true,
        ConditionExpr::Selector { .. } => true,
        ConditionExpr::And(parts) => all_conditions_negation_free(parts),
        ConditionExpr::Or(parts) => all_conditions_negation_free(parts),
    }
}

fn all_conditions_negation_free(parts: &Vec<ConditionExpr>) -> (res: bool)
    ensures
        res == all_negation_free(parts@),
    decreases parts@,
{
    let mut i: usize = 0;
    while i < parts.len()
        invariant
            0 <= i <= parts@.len(),
            all_negation_free(parts@.take(i as int)),
        decreases parts@.len() - i,
    {
        assert(parts@.take(i + 1).drop_last() =~= parts@.take(i as int));
        if !condition_is_negation_free(&parts[i]) {
            proof {
                lemma_all_negation_free(parts@, i as int);
            }
            return false;
        }
        i = i + 1;
    }
    assert(parts@.take(i as int) =~= parts@);
    true
}

fn condition_needs_detection(
    c: &ConditionExpr,
    detections: &Vec<(String, CompiledDetection)>,
) -> (res: bool)
    ensures
        res == needs_detection(*c, detections@),
    decreases c,
{
    match c {
        ConditionExpr::Not(_) => false,
        ConditionExpr::Identifier(_) => true,
        ConditionExpr::And(parts) => some_condition_needs_detection(parts, detections),
        ConditionExpr::Or(parts) => all_conditions_need_detection(parts, detections),
        ConditionExpr::Selector { quantifier, pattern } => match quantifier {
            Quantifier::Any => true,
            Quantifier::All => selects_some(pattern, detections),
            Quantifier::Count(n) => *n > 0,
        },
    }
}

fn some_condition_needs_detection(
    parts: &Vec<ConditionExpr>,
    detections: &Vec<(String, CompiledDetection)>,
) -> (res: bool)
    ensures
        res == some_needs_detection(parts@, detections@),
    decreases parts@,
{
    let mut i: usize = 0;
    while i < parts.len()
        invariant
            0 <= i <= parts@.len(),
            !some_needs_detection(parts@.take(i as int), detections@),
        decreases parts@.len() - i,
    {
        assert(parts@.take(i + 1).drop_last() =~= parts@.take(i as int));
        if condition_needs_detection(&parts[i], detections) {
            proof {
                lemma_some_needs_detection(parts@, i as int, detections@);
            }
            return true;
        }
        i = i + 1;
    }
    assert(parts@.take(i as int) =~= parts@);
    false
}

fn all_conditions_need_detection(
    parts: &Vec<ConditionExpr>,
    detections: &Vec<(String, CompiledDetection)>,
) -> (res: bool)
    ensures
        res == all_need_detection(parts@, detections@),
    decreases parts@,
{
    let mut i: usize = 0;
    while i < parts.len()
        invariant
            0 <= i <= parts@.len(),
            all_need_detection(parts@.take(i as int), detections@),
        decreases parts@.len() - i,
    {
        assert(parts@.take(i + 1).drop_last() =~= parts@.take(i as int));
        if !condition_needs_detection(&parts[i], detections) {
            proof {
                lemma_all_need_detection(parts@, i as int, detections@);
            }
            return false;
        }
        i = i + 1;
    }
    assert(parts@.take(i as int) =~= parts@);
    true
}

fn selects_some(
    pattern: &SelectorPattern,
    detections: &Vec<(String, CompiledDetection)>,
) -> (res: bool)
    ensures
        res == some_selected(detections@, *pattern),
{
    let mut i: usize = 0;
    while i < detections.len()
        invariant
            0 <= i <= detections@.len(),
            forall|j: int|
                0 <= j < i ==> !selector::selects(*pattern, (#[trigger] detections@[j]).0@),
        decreases detections@.len() - i,
    {
        if pattern.matches_detection_name(detections[i].0.as_str()) {
            return true;
        }
        i = i + 1;
    }
    false
}

/// [`some_needs_detection`], element by element.
proof fn lemma_some_needs_detection(
    parts: Seq<ConditionExpr>,
    i: int,
    detections: Seq<(String, CompiledDetection)>,
)
    requires
        0 <= i < parts.len(),
        needs_detection(parts[i], detections),
    ensures
        some_needs_detection(parts, detections),
    decreases parts.len(),
{
    if i < parts.len() - 1 {
        lemma_some_needs_detection(parts.drop_last(), i, detections);
    }
}

/// [`all_need_detection`], element by element.
proof fn lemma_all_need_detection(
    parts: Seq<ConditionExpr>,
    i: int,
    detections: Seq<(String, CompiledDetection)>,
)
    requires
        0 <= i < parts.len(),
    ensures
        all_need_detection(parts, detections) ==> needs_detection(parts[i], detections),
    decreases parts.len(),
{
    if i < parts.len() - 1 {
        lemma_all_need_detection(parts.drop_last(), i, detections);
    }
}

/// [`all_pure`], element by element.
proof fn lemma_all_pure(children: Seq<CompiledMatcher>, i: int)
    requires
        0 <= i < children.len(),
    ensures
        all_pure(children) ==> pure_matcher(children[i]),
    decreases children.len(),
{
    if i < children.len() - 1 {
        lemma_all_pure(children.drop_last(), i);
    }
}

/// [`all_pure_detections`], element by element.
proof fn lemma_all_pure_detections(subs: Seq<CompiledDetection>, i: int)
    requires
        0 <= i < subs.len(),
    ensures
        all_pure_detections(subs) ==> pure_detection(subs[i]),
    decreases subs.len(),
{
    if i < subs.len() - 1 {
        lemma_all_pure_detections(subs.drop_last(), i);
    }
}

/// [`all_negation_free`], element by element.
proof fn lemma_all_negation_free(parts: Seq<ConditionExpr>, i: int)
    requires
        0 <= i < parts.len(),
    ensures
        all_negation_free(parts) ==> negation_free(parts[i]),
    decreases parts.len(),
{
    if i < parts.len() - 1 {
        lemma_all_negation_free(parts.drop_last(), i);
    }
}

// ---------------------------------------------------------------------------
// A rule that is not marked cannot fire
// ---------------------------------------------------------------------------

/// The item does not hold of the event unless one of its needles occurs there: its
/// field is missing, or it is a text.
pub open spec fn bound_item(item: CompiledDetectionItem, event: Seq<(String, EventValue)>) -> bool {
    match item.field {
        None => false,
        Some(field) => !(matcher::given(matcher::field_value(event, field@)) is Other),
    }
}

/// The detection does not hold of the event unless one of its needles occurs there.
pub open spec fn bound_detection(d: CompiledDetection, event: Seq<(String, EventValue)>) -> bool
    decreases d,
{
    match d {
        CompiledDetection::AllOf(items) => exists|i: int|
            0 <= i < items@.len() && bound_item(#[trigger] items@[i], event),
        CompiledDetection::AnyOf(subs) => all_bound_detections(subs@, event),
        _ => false,
    }
}

/// None of the detections holds of the event unless one of its needles occurs there.
pub open spec fn all_bound_detections(
    subs: Seq<CompiledDetection>,
    event: Seq<(String, EventValue)>,
) -> bool
    decreases subs,
{
    subs.len() > 0 ==> all_bound_detections(subs.drop_last(), event) && bound_detection(
        subs.last(),
        event,
    )
}

/// How many of the detections are selected and not bound to their needles.
pub open spec fn unbound_count(
    detections: Seq<(String, CompiledDetection)>,
    pattern: SelectorPattern,
    event: Seq<(String, EventValue)>,
) -> nat
    decreases detections.len(),
{
    if detections.len() == 0 {
        0
    } else {
        let last = detections.last();
        let here: nat = if selector::selects(pattern, last.0@) && !bound_detection(last.1, event) {
            1
        } else {
            0
        };
        unbound_count(detections.drop_last(), pattern, event) + here
    }
}

/// How many of the detections are selected.
pub open spec fn selected_total(
    detections: Seq<(String, CompiledDetection)>,
    pattern: SelectorPattern,
) -> nat
    decreases detections.len(),
{
    if detections.len() == 0 {
        0
    } else {
        let here: nat = if selector::selects(pattern, detections.last().0@) {
            1
        } else {
            0
        };
        selected_total(detections.drop_last(), pattern) + here
    }
}

/// The condition does not hold of the event unless a needle of the rule occurs
/// there. An empty conjunction, `all of` no detection and `0 of` hold of every
/// event.
pub open spec fn bound_condition(
    c: ConditionExpr,
    rule: CompiledRule,
    event: Seq<(String, EventValue)>,
) -> bool
    decreases c,
{
    match c {
        ConditionExpr::And(parts) => some_bound_condition(parts@, rule, event),
        ConditionExpr::Or(parts) => all_bound_conditions(parts@, rule, event),
        ConditionExpr::Not(_) => false,
        ConditionExpr::Identifier(name) => forall|i: int|
            0 <= i < rule.detections@.len() && (#[trigger] rule.detections@[i]).0@ == name@
                ==> bound_detection(rule.detections@[i].1, event),
        ConditionExpr::Selector { quantifier, pattern } => {
            let unbound = unbound_count(rule.detections@, pattern, event);
            match quantifier {
                Quantifier::Any => unbound == 0,
                Quantifier::All => unbound < selected_total(rule.detections@, pattern),
                Quantifier::Count(n) => unbound < n,
            }
        },
    }
}

/// Some condition is bound to the needles of the rule.
pub open spec fn some_bound_condition(
    parts: Seq<ConditionExpr>,
    rule: CompiledRule,
    event: Seq<(String, EventValue)>,
) -> bool
    decreases parts,
{
    parts.len() > 0 && (some_bound_condition(parts.drop_last(), rule, event) || bound_condition(
        parts.last(),
        rule,
        event,
    ))
}

/// All the conditions are bound to the needles of the rule.
pub open spec fn all_bound_conditions(
    parts: Seq<ConditionExpr>,
    rule: CompiledRule,
    event: Seq<(String, EventValue)>,
) -> bool
    decreases parts,
{
    parts.len() > 0 ==> all_bound_conditions(parts.drop_last(), rule, event) && bound_condition(
        parts.last(),
        rule,
        event,
    )
}

/// None of the needles occurs in the text of its field.
spec fn quiet(needles: Seq<NeedleView>, event: Seq<(String, EventValue)>) -> bool {
    forall|n: NeedleView, s: Seq<char>| #[trigger]
        needles.contains(n) && matcher::given(matcher::field_value(event, n.field)) == Given::Text(
            s,
        ) ==> !(#[trigger] substring::occurs(n.needle, text::ascii_lower(s)))
}

/// None of the needles occurs in the text.
spec fn silent(needles: Seq<Seq<char>>, s: Seq<char>) -> bool {
    forall|n: Seq<char>| #[trigger]
        needles.contains(n) ==> !substring::occurs(n, text::ascii_lower(s))
}

proof fn lemma_concat_contains<T>(a: Seq<T>, b: Seq<T>)
    ensures
        forall|x: T| #[trigger] (a + b).contains(x) ==> a.contains(x) || b.contains(x),
        forall|x: T| #[trigger] a.contains(x) ==> (a + b).contains(x),
        forall|x: T| #[trigger] b.contains(x) ==> (a + b).contains(x),
{
    assert forall|x: T| #[trigger] (a + b).contains(x) <==> a.contains(x) || b.contains(x) by {
        if a.contains(x) {
            assert((a + b)[a.index_of(x)] == x);
        }
        if b.contains(x) {
            assert((a + b)[a.len() + b.index_of(x)] == x);
        }
        if (a + b).contains(x) {
            let i = (a + b).index_of(x);
            if i < a.len() {
                assert(a[i] == x);
            } else {
                assert(b[i - a.len()] == x);
            }
        }
    }
}

/// A substring matcher does not match where its needles do not occur.
proof fn lemma_silent_leaf(m: CompiledMatcher, s: Seq<char>)
    requires
        searches(m),
        silent(needles::needles_of(m), s),
    ensures
        !matcher::substring_matches(m, s),
{
    match m {
        CompiledMatcher::Contains { value, case_insensitive } => {
            lemma_silent_needle(value@, s, case_insensitive);
        },
        CompiledMatcher::StartsWith { value, case_insensitive } => {
            lemma_silent_needle(value@, s, case_insensitive);
            substring::lemma_ends_occur(value@, matcher::folded(s, case_insensitive));
        },
        CompiledMatcher::EndsWith { value, case_insensitive } => {
            lemma_silent_needle(value@, s, case_insensitive);
            substring::lemma_ends_occur(value@, matcher::folded(s, case_insensitive));
        },
        CompiledMatcher::AhoCorasickSet { needles, case_insensitive } => {
            let hay = matcher::folded(s, case_insensitive);
            if matcher::some_occurs(needles@, hay) {
                let i = choose|i: int|
                    0 <= i < needles@.len() && substring::occurs((#[trigger] needles@[i])@, hay);
                lemma_listed_needle(needles@, i);
                assert forall|n: Seq<char>| #[trigger]
                    needles::indexed_needle(needles@[i]@).contains(n) implies !substring::occurs(
                    n,
                    text::ascii_lower(s),
                ) by {}
                lemma_silent_needle(needles@[i]@, s, case_insensitive);
            }
        },
        _ => {},
    }
}

/// The needles of a list hold each of them.
proof fn lemma_listed_needle(needles: Seq<String>, i: int)
    requires
        0 <= i < needles.len(),
    ensures
        forall|n: Seq<char>| #[trigger]
            needles::indexed_needle(needles[i]@).contains(n) ==> needles::indexed_needles(needles).contains(n),
    decreases needles.len(),
{
    let front = needles.drop_last();
    lemma_concat_contains(needles::indexed_needles(front), needles::indexed_needle(needles.last()@));
    if i < front.len() {
        lemma_listed_needle(front, i);
        assert(front[i] == needles[i]);
    } else {
        assert(needles.last() == needles[i]);
    }
}

proof fn lemma_silent_needle(needle: Seq<char>, s: Seq<char>, case_insensitive: bool)
    requires
        needle.len() > 0,
        silent(needles::indexed_needle(needle), s),
    ensures
        !substring::occurs(needle, matcher::folded(s, case_insensitive)),
{
    let hay = matcher::folded(s, case_insensitive);
    if substring::occurs(needle, hay) {
        substring::lemma_occurs_lower(needle, hay);
        assert(text::ascii_lower(hay) =~= text::ascii_lower(s));
        assert(needles::indexed_needle(needle)[0] == text::ascii_lower(needle));
        assert(needles::indexed_needle(needle).contains(text::ascii_lower(needle)));
    }
}

/// A pure matcher does not match where none of its needles occurs.
proof fn lemma_silent_matcher(
    m: CompiledMatcher,
    s: Seq<char>,
    v: Option<EventValue>,
    verdicts: Verdicts,
)
    requires
        pure_matcher(m),
        silent(needles::needles_of(m), s),
    ensures
        !matcher::matches(m, Given::Text(s), v, verdicts),
    decreases m,
{
    let low = text::ascii_lower(s);
    assert(text::ascii_lower(low) =~= low);
    match m {
        CompiledMatcher::AnyOf(children) => {
            lemma_silent_any(children@, s, v, verdicts);
        },
        CompiledMatcher::AllOf(children) => {
            lemma_silent_all(children@, s, v, verdicts);
        },
        CompiledMatcher::CaseInsensitiveGroup { children, mode } => {
            assert(silent(needles::needles_of_all(children@), low));
            match mode {
                GroupMode::Any => lemma_silent_any(children@, low, v, verdicts),
                GroupMode::All => lemma_silent_all(children@, low, v, verdicts),
            }
        },
        _ => {
            lemma_silent_leaf(m, s);
        },
    }
}

proof fn lemma_silent_any(
    children: Seq<CompiledMatcher>,
    s: Seq<char>,
    v: Option<EventValue>,
    verdicts: Verdicts,
)
    requires
        all_pure(children),
        silent(needles::needles_of_all(children), s),
    ensures
        !matcher::any_matches(children, Given::Text(s), v, verdicts),
    decreases children,
{
    if children.len() > 0 {
        let front = children.drop_last();
        lemma_concat_contains(needles::needles_of_all(front), needles::needles_of(children.last()));
        assert(silent(needles::needles_of_all(front), s));
        assert(silent(needles::needles_of(children.last()), s));
        lemma_silent_any(front, s, v, verdicts);
        lemma_silent_matcher(children.last(), s, v, verdicts);
    }
}

proof fn lemma_silent_all(
    children: Seq<CompiledMatcher>,
    s: Seq<char>,
    v: Option<EventValue>,
    verdicts: Verdicts,
)
    requires
        all_pure(children),
        children.len() > 0,
        silent(needles::needles_of_all(children), s),
    ensures
        !matcher::all_match(children, Given::Text(s), v, verdicts),
    decreases children,
{
    lemma_concat_contains(
        needles::needles_of_all(children.drop_last()),
        needles::needles_of(children.last()),
    );
    assert(silent(needles::needles_of(children.last()), s));
    lemma_silent_matcher(children.last(), s, v, verdicts);
}

/// A pure matcher does not match a missing value.
proof fn lemma_missing(m: CompiledMatcher, v: Option<EventValue>, verdicts: Verdicts)
    requires
        pure_matcher(m),
    ensures
        !matcher::matches(m, Given::Nothing, v, verdicts),
    decreases m,
{
    match m {
        CompiledMatcher::AnyOf(children) => lemma_missing_children(children@, v, verdicts),
        CompiledMatcher::AllOf(children) => lemma_missing_children(children@, v, verdicts),
        CompiledMatcher::CaseInsensitiveGroup { children, .. } => lemma_missing_children(
            children@,
            v,
            verdicts,
        ),
        _ => {},
    }
}

proof fn lemma_missing_children(
    children: Seq<CompiledMatcher>,
    v: Option<EventValue>,
    verdicts: Verdicts,
)
    requires
        all_pure(children),
    ensures
        !matcher::any_matches(children, Given::Nothing, v, verdicts),
        children.len() > 0 ==> !matcher::all_match(children, Given::Nothing, v, verdicts),
    decreases children,
{
    if children.len() > 0 {
        lemma_missing_children(children.drop_last(), v, verdicts);
        lemma_missing(children.last(), v, verdicts);
    }
}

/// The needles of an item are among those of its detection.
proof fn lemma_item_needles(items: Seq<CompiledDetectionItem>, i: int, rule: u32)
    requires
        0 <= i < items.len(),
        items[i].field is Some,
    ensures
        forall|n: NeedleView| #[trigger]
            needles::on_field(needles::needles_of(items[i].matcher), items[i].field->0@, rule).contains(n)
                ==> needles::item_needles(items, rule).contains(n),
    decreases items.len(),
{
    let front = items.drop_last();
    let last = match items.last().field {
        Some(field) => needles::on_field(needles::needles_of(items.last().matcher), field@, rule),
        None => Seq::empty(),
    };
    lemma_concat_contains(needles::item_needles(front, rule), last);
    if i < front.len() {
        lemma_item_needles(front, i, rule);
    }
}

/// A detection that is bound to its needles does not hold where none occurs.
proof fn lemma_quiet_detection(
    d: CompiledDetection,
    rule: u32,
    event: Seq<(String, EventValue)>,
    verdicts: Verdicts,
)
    requires
        pure_detection(d),
        bound_detection(d, event),
        quiet(needles::detection_needles(d, rule), event),
    ensures
        !matcher::detection_holds(d, event, verdicts),
    decreases d,
{
    match d {
        CompiledDetection::AllOf(items) => {
            let i = choose|i: int| 0 <= i < items@.len() && bound_item(#[trigger] items@[i], event);
            let item = items@[i];
            assert(pure_item(item));
            let field = item.field->0@;
            let v = matcher::field_value(event, field);
            lemma_item_needles(items@, i, rule);
            match matcher::given(v) {
                Given::Nothing => lemma_missing(item.matcher, v, verdicts),
                Given::Text(s) => {
                    let mine = needles::needles_of(item.matcher);
                    assert forall|n: Seq<char>| #[trigger]
                        mine.contains(n) implies !substring::occurs(n, text::ascii_lower(s)) by {
                        let k = mine.index_of(n);
                        let whole = NeedleView { field, needle: n, rule };
                        assert(needles::on_field(mine, field, rule)[k] == whole);
                        assert(needles::on_field(mine, field, rule).contains(whole));
                        assert(needles::item_needles(items@, rule).contains(whole));
                        assert(needles::detection_needles(d, rule).contains(whole));
                        assert(!substring::occurs(whole.needle, text::ascii_lower(s)));
                    }
                    lemma_silent_matcher(item.matcher, s, v, verdicts);
                },
                Given::Other(_) => {},
            }
            assert(!matcher::item_holds(items@[i], event, verdicts));
        },
        CompiledDetection::AnyOf(subs) => {
            lemma_quiet_detections(subs@, rule, event, verdicts);
        },
        _ => {},
    }
}

proof fn lemma_quiet_detections(
    subs: Seq<CompiledDetection>,
    rule: u32,
    event: Seq<(String, EventValue)>,
    verdicts: Verdicts,
)
    requires
        all_pure_detections(subs),
        all_bound_detections(subs, event),
        quiet(needles::all_detection_needles(subs, rule), event),
    ensures
        !matcher::any_holds(subs, event, verdicts),
    decreases subs,
{
    if subs.len() > 0 {
        let front = subs.drop_last();
        lemma_concat_contains(
            needles::all_detection_needles(front, rule),
            needles::detection_needles(subs.last(), rule),
        );
        assert(quiet(needles::all_detection_needles(front, rule), event));
        assert(quiet(needles::detection_needles(subs.last(), rule), event));
        lemma_quiet_detections(front, rule, event, verdicts);
        lemma_quiet_detection(subs.last(), rule, event, verdicts);
    }
}

/// No detection that is bound to its needles holds of the event.
spec fn all_fail(
    detections: Seq<(String, CompiledDetection)>,
    event: Seq<(String, EventValue)>,
    verdicts: Verdicts,
) -> bool {
    forall|i: int|
        0 <= i < detections.len() && bound_detection((#[trigger] detections[i]).1, event)
            ==> !matcher::detection_holds(detections[i].1, event, verdicts)
}

proof fn lemma_all_fail(
    detections: Seq<(String, CompiledDetection)>,
    rule: u32,
    event: Seq<(String, EventValue)>,
    verdicts: Verdicts,
)
    requires
        forall|i: int| 0 <= i < detections.len() ==> pure_detection((#[trigger] detections[i]).1),
        quiet(needles::named_needles(detections, rule), event),
    ensures
        all_fail(detections, event, verdicts),
    decreases detections.len(),
{
    if detections.len() > 0 {
        let front = detections.drop_last();
        let last = detections.last().1;
        lemma_concat_contains(needles::named_needles(front, rule), needles::detection_needles(last, rule));
        assert(quiet(needles::named_needles(front, rule), event));
        assert(quiet(needles::detection_needles(last, rule), event));
        assert forall|i: int| 0 <= i < front.len() implies pure_detection(
            (#[trigger] front[i]).1,
        ) by {
            assert(front[i] == detections[i]);
        }
        lemma_all_fail(front, rule, event, verdicts);
        assert(pure_detection(detections[detections.len() - 1].1));
        assert forall|i: int|
            0 <= i < detections.len() && bound_detection(
                (#[trigger] detections[i]).1,
                event,
            ) implies !matcher::detection_holds(detections[i].1, event, verdicts) by {
            if i < front.len() {
                assert(front[i] == detections[i]);
            } else {
                lemma_quiet_detection(last, rule, event, verdicts);
            }
        }
    }
}

/// Only detections that are not bound to their needles hold.
proof fn lemma_counts(
    detections: Seq<(String, CompiledDetection)>,
    pattern: SelectorPattern,
    event: Seq<(String, EventValue)>,
    verdicts: Verdicts,
)
    requires
        all_fail(detections, event, verdicts),
    ensures
        matcher::selected_count(detections, pattern, true, event, verdicts) <= unbound_count(
            detections,
            pattern,
            event,
        ),
        matcher::selected_count(detections, pattern, false, event, verdicts) == selected_total(
            detections,
            pattern,
        ),
    decreases detections.len(),
{
    if detections.len() > 0 {
        let front = detections.drop_last();
        assert forall|i: int|
            0 <= i < front.len() && bound_detection(
                (#[trigger] front[i]).1,
                event,
            ) implies !matcher::detection_holds(front[i].1, event, verdicts) by {
            assert(front[i] == detections[i]);
        }
        lemma_counts(front, pattern, event, verdicts);
        assert(detections.last() == detections[detections.len() - 1]);
    }
}

proof fn lemma_condition_fails(
    c: ConditionExpr,
    rule: CompiledRule,
    event: Seq<(String, EventValue)>,
    verdicts: Verdicts,
)
    requires
        all_fail(rule.detections@, event, verdicts),
        bound_condition(c, rule, event),
    ensures
        !matcher::condition_holds(c, rule, event, verdicts),
    decreases c,
{
    match c {
        ConditionExpr::And(parts) => lemma_some_condition_fails(parts@, rule, event, verdicts),
        ConditionExpr::Or(parts) => lemma_conditions_fail(parts@, rule, event, verdicts),
        ConditionExpr::Selector { pattern, .. } => lemma_counts(
            rule.detections@,
            pattern,
            event,
            verdicts,
        ),
        _ => {},
    }
}

proof fn lemma_some_condition_fails(
    parts: Seq<ConditionExpr>,
    rule: CompiledRule,
    event: Seq<(String, EventValue)>,
    verdicts: Verdicts,
)
    requires
        all_fail(rule.detections@, event, verdicts),
        some_bound_condition(parts, rule, event),
    ensures
        !matcher::all_conditions_hold(parts, rule, event, verdicts),
    decreases parts,
{
    if some_bound_condition(parts.drop_last(), rule, event) {
        lemma_some_condition_fails(parts.drop_last(), rule, event, verdicts);
    } else {
        lemma_condition_fails(parts.last(), rule, event, verdicts);
    }
}

proof fn lemma_conditions_fail(
    parts: Seq<ConditionExpr>,
    rule: CompiledRule,
    event: Seq<(String, EventValue)>,
    verdicts: Verdicts,
)
    requires
        all_fail(rule.detections@, event, verdicts),
        all_bound_conditions(parts, rule, event),
    ensures
        !matcher::any_condition_holds(parts, rule, event, verdicts),
    decreases parts,
{
    if parts.len() > 0 {
        lemma_conditions_fail(parts.drop_last(), rule, event, verdicts);
        lemma_condition_fails(parts.last(), rule, event, verdicts);
    }
}

/// The needles of a rule are among those of all the rules.
proof fn lemma_rule_needles(rules: Seq<CompiledRule>, i: int)
    requires
        0 <= i < rules.len(),
    ensures
        forall|n: NeedleView| #[trigger]
            needles::named_needles(rules[i].detections@, needles::rule_number(i)).contains(n) ==> needles::rule_needles(
                rules,
            ).contains(n) && n.rule == needles::rule_number(i),
    decreases rules.len(),
{
    let front = rules.drop_last();
    let last = needles::named_needles(rules.last().detections@, needles::rule_number(rules.len() - 1));
    lemma_concat_contains(needles::rule_needles(front), last);
    if i < front.len() {
        lemma_rule_needles(front, i);
        assert(front[i] == rules[i]);
    } else {
        assert(rules.last() == rules[i]);
        lemma_named_number(rules[i].detections@, needles::rule_number(i));
    }
}

proof fn lemma_named_number(detections: Seq<(String, CompiledDetection)>, rule: u32)
    ensures
        forall|n: NeedleView| #[trigger]
            needles::named_needles(detections, rule).contains(n) ==> n.rule == rule,
    decreases detections.len(),
{
    if detections.len() > 0 {
        lemma_concat_contains(
            needles::named_needles(detections.drop_last(), rule),
            needles::detection_needles(detections.last().1, rule),
        );
        lemma_named_number(detections.drop_last(), rule);
        lemma_detection_number(detections.last().1, rule);
    }
}

proof fn lemma_detection_number(d: CompiledDetection, rule: u32)
    ensures
        forall|n: NeedleView| #[trigger] needles::detection_needles(d, rule).contains(n) ==> n.rule == rule,
    decreases d,
{
    assert forall|n: NeedleView| #[trigger] needles::detection_needles(d, rule).contains(n) implies n.rule
        == rule by {
        match d {
            CompiledDetection::AllOf(items) => {
                lemma_item_number(items@, rule);
                assert(needles::item_needles(items@, rule).contains(n));
            },
            CompiledDetection::AnyOf(subs) => {
                lemma_detections_number(subs@, rule);
                assert(needles::all_detection_needles(subs@, rule).contains(n));
            },
            CompiledDetection::And(subs) => {
                lemma_detections_number(subs@, rule);
                assert(needles::all_detection_needles(subs@, rule).contains(n));
            },
            _ => {},
        }
    }
}

proof fn lemma_detections_number(subs: Seq<CompiledDetection>, rule: u32)
    ensures
        forall|n: NeedleView| #[trigger]
            needles::all_detection_needles(subs, rule).contains(n) ==> n.rule == rule,
    decreases subs,
{
    if subs.len() > 0 {
        lemma_concat_contains(
            needles::all_detection_needles(subs.drop_last(), rule),
            needles::detection_needles(subs.last(), rule),
        );
        lemma_detections_number(subs.drop_last(), rule);
        lemma_detection_number(subs.last(), rule);
    }
}

proof fn lemma_item_number(items: Seq<CompiledDetectionItem>, rule: u32)
    ensures
        forall|n: NeedleView| #[trigger] needles::item_needles(items, rule).contains(n) ==> n.rule == rule,
    decreases items.len(),
{
    if items.len() > 0 {
        let last = match items.last().field {
            Some(field) => needles::on_field(needles::needles_of(items.last().matcher), field@, rule),
            None => Seq::empty(),
        };
        lemma_concat_contains(needles::item_needles(items.drop_last(), rule), last);
        lemma_item_number(items.drop_last(), rule);
    }
}

/// A prunable rule that the scan of an event does not mark cannot fire on it, whatever
/// the matchers would say of values that are no texts, where such values do not decide
/// the conditions of the rule: those hold only if a detection does that is bound to its
/// needles.
pub proof fn lemma_unmarked_and_bound_cannot_fire(
    ix: IndexView,
    rules: Seq<CompiledRule>,
    i: int,
    event: Seq<(String, EventValue)>,
    verdicts: Verdicts,
)
    requires
        cross_rule_ac::indexes(ix, needles::rule_needles(rules)),
        0 <= i < rules.len(),
        i <= u32::MAX,
        prunable(rules[i]),
        all_bound_conditions(rules[i].conditions@, rules[i], event),
        !cross_rule_ac::hit(ix, event, i as u32),
    ensures
        !matcher::fires(rules[i], event, verdicts),
{
    let rule = rules[i];
    let all = needles::rule_needles(rules);
    let mine = needles::named_needles(rule.detections@, needles::rule_number(i));
    lemma_rule_needles(rules, i);
    assert forall|n: NeedleView, s: Seq<char>| #[trigger]
        mine.contains(n) && matcher::given(matcher::field_value(event, n.field)) == Given::Text(
            s,
        ) implies !(#[trigger] substring::occurs(n.needle, text::ascii_lower(s))) by {
        assert(all.contains(n));
        if !cross_rule_ac::is_indexed(ix, n.field) {
            assert(cross_rule_ac::owns_unindexed(ix, all, n.rule));
            assert(ix.kept.contains(n.rule));
        } else {
            assert(grouping::held(ix.fields, n));
            let (k, p) = choose|k: int, p: int| grouping::held_at(ix.fields, k, p, n);
            if substring::occurs(n.needle, text::ascii_lower(s)) {
                assert(substring::occurs(ix.fields[k].patterns[p], text::ascii_lower(s)));
                assert(cross_rule_ac::field_hit(ix.fields[k], event, n.rule));
            }
        }
    }
    lemma_all_fail(rule.detections@, needles::rule_number(i), event, verdicts);
    lemma_conditions_fail(rule.conditions@, rule, event, verdicts);
}

/// The event has no value other than a text for the fields of the detection.
pub open spec fn detection_on_texts(d: CompiledDetection, event: Seq<(String, EventValue)>) -> bool
    decreases d,
{
    match d {
        CompiledDetection::AllOf(items) => forall|i: int|
            0 <= i < items@.len() ==> bound_item(#[trigger] items@[i], event),
        CompiledDetection::AnyOf(subs) => detections_on_texts(subs@, event),
        _ => false,
    }
}

/// The event has no value other than a text for the fields of the detections.
pub open spec fn detections_on_texts(
    subs: Seq<CompiledDetection>,
    event: Seq<(String, EventValue)>,
) -> bool
    decreases subs,
{
    subs.len() > 0 ==> detections_on_texts(subs.drop_last(), event) && detection_on_texts(
        subs.last(),
        event,
    )
}

/// The event has no value other than a text for the fields of the rule.
pub open spec fn on_texts(rule: CompiledRule, event: Seq<(String, EventValue)>) -> bool {
    forall|i: int|
        0 <= i < rule.detections@.len() ==> detection_on_texts(
            (#[trigger] rule.detections@[i]).1,
            event,
        )
}

proof fn lemma_texts_bind(d: CompiledDetection, event: Seq<(String, EventValue)>)
    requires
        pure_detection(d),
        detection_on_texts(d, event),
    ensures
        bound_detection(d, event),
    decreases d,
{
    match d {
        CompiledDetection::AllOf(items) => {
            assert(bound_item(items@[0], event));
        },
        CompiledDetection::AnyOf(subs) => lemma_texts_bind_all(subs@, event),
        _ => {},
    }
}

proof fn lemma_texts_bind_all(subs: Seq<CompiledDetection>, event: Seq<(String, EventValue)>)
    requires
        all_pure_detections(subs),
        detections_on_texts(subs, event),
    ensures
        all_bound_detections(subs, event),
    decreases subs,
{
    if subs.len() > 0 {
        lemma_texts_bind_all(subs.drop_last(), event);
        lemma_texts_bind(subs.last(), event);
    }
}

/// Where all detections are bound, none that is selected is not, and a selection that
/// holds one counts one at least.
proof fn lemma_all_bound_counts(
    detections: Seq<(String, CompiledDetection)>,
    pattern: SelectorPattern,
    event: Seq<(String, EventValue)>,
)
    requires
        forall|i: int|
            0 <= i < detections.len() ==> bound_detection((#[trigger] detections[i]).1, event),
    ensures
        unbound_count(detections, pattern, event) == 0,
        some_selected(detections, pattern) ==> selected_total(detections, pattern) > 0,
    decreases detections.len(),
{
    if detections.len() > 0 {
        let front = detections.drop_last();
        assert forall|i: int| 0 <= i < front.len() implies bound_detection(
            (#[trigger] front[i]).1,
            event,
        ) by {
            assert(front[i] == detections[i]);
        }
        lemma_all_bound_counts(front, pattern, event);
        assert(detections.last() == detections[detections.len() - 1]);
        if some_selected(detections, pattern) {
            let i = choose|i: int|
                0 <= i < detections.len() && selector::selects(
                    pattern,
                    (#[trigger] detections[i]).0@,
                );
            if i < front.len() {
                assert(front[i] == detections[i]);
            }
        }
    }
}

/// Where all detections are bound, a condition that needs a detection is bound too.
proof fn lemma_condition_bound(
    c: ConditionExpr,
    rule: CompiledRule,
    event: Seq<(String, EventValue)>,
)
    requires
        forall|i: int|
            0 <= i < rule.detections@.len() ==> bound_detection(
                (#[trigger] rule.detections@[i]).1,
                event,
            ),
        needs_detection(c, rule.detections@),
    ensures
        bound_condition(c, rule, event),
    decreases c,
{
    match c {
        ConditionExpr::And(parts) => lemma_some_condition_bound(parts@, rule, event),
        ConditionExpr::Or(parts) => lemma_conditions_bound(parts@, rule, event),
        ConditionExpr::Selector { pattern, .. } => lemma_all_bound_counts(
            rule.detections@,
            pattern,
            event,
        ),
        _ => {},
    }
}

proof fn lemma_some_condition_bound(
    parts: Seq<ConditionExpr>,
    rule: CompiledRule,
    event: Seq<(String, EventValue)>,
)
    requires
        forall|i: int|
            0 <= i < rule.detections@.len() ==> bound_detection(
                (#[trigger] rule.detections@[i]).1,
                event,
            ),
        some_needs_detection(parts, rule.detections@),
    ensures
        some_bound_condition(parts, rule, event),
    decreases parts,
{
    if some_needs_detection(parts.drop_last(), rule.detections@) {
        lemma_some_condition_bound(parts.drop_last(), rule, event);
    } else {
        lemma_condition_bound(parts.last(), rule, event);
    }
}

proof fn lemma_conditions_bound(
    parts: Seq<ConditionExpr>,
    rule: CompiledRule,
    event: Seq<(String, EventValue)>,
)
    requires
        forall|i: int|
            0 <= i < rule.detections@.len() ==> bound_detection(
                (#[trigger] rule.detections@[i]).1,
                event,
            ),
        all_need_detection(parts, rule.detections@),
    ensures
        all_bound_conditions(parts, rule, event),
    decreases parts,
{
    if parts.len() > 0 {
        lemma_conditions_bound(parts.drop_last(), rule, event);
        lemma_condition_bound(parts.last(), rule, event);
    }
}

/// A prunable rule that the scan of an event does not mark cannot fire on it, if the
/// event has no value other than a text for the fields of the rule.
pub proof fn lemma_unmarked_cannot_fire(
    ix: IndexView,
    rules: Seq<CompiledRule>,
    i: int,
    event: Seq<(String, EventValue)>,
    verdicts: Verdicts,
)
    requires
        cross_rule_ac::indexes(ix, needles::rule_needles(rules)),
        0 <= i < rules.len(),
        i <= u32::MAX,
        prunable(rules[i]),
        on_texts(rules[i], event),
        !cross_rule_ac::hit(ix, event, i as u32),
    ensures
        !matcher::fires(rules[i], event, verdicts),
{
    let rule = rules[i];
    assert forall|k: int| 0 <= k < rule.detections@.len() implies bound_detection(
        (#[trigger] rule.detections@[k]).1,
        event,
    ) by {
        lemma_texts_bind(rule.detections@[k].1, event);
    }
    lemma_conditions_bound(rule.conditions@, rule, event);
    lemma_unmarked_and_bound_cannot_fire(ix, rules, i, event, verdicts);
}

/// A rule is marked only if one of its needles occurs in the event, or stands on a
/// field that is not indexed.
pub proof fn lemma_marks_are_needles(
    ix: IndexView,
    rules: Seq<CompiledRule>,
    event: Seq<(String, EventValue)>,
    rule: u32,
)
    requires
        cross_rule_ac::indexes(ix, needles::rule_needles(rules)),
        cross_rule_ac::hit(ix, event, rule),
    ensures
        exists|n: NeedleView| #[trigger]
            needles::rule_needles(rules).contains(n) && n.rule == rule && (cross_rule_ac::is_indexed(ix, n.field)
                ==> exists|s: String|
                matcher::field_value(event, n.field) == Some(EventValue::Str(s))
                    && substring::occurs(n.needle, text::ascii_lower(#[trigger] s@))),
{
    let all = needles::rule_needles(rules);
    if ix.kept.contains(rule) {
        assert(cross_rule_ac::owns_unindexed(ix, all, rule));
        let n = choose|n: NeedleView| #[trigger]
            all.contains(n) && n.rule == rule && !cross_rule_ac::is_indexed(ix, n.field);
        assert(all.contains(n));
    } else {
        let i = choose|i: int|
            0 <= i < ix.fields.len() && cross_rule_ac::field_hit(#[trigger] ix.fields[i], event, rule);
        let f = ix.fields[i];
        let s = matcher::field_value(event, f.field)->0->Str_0;
        let p = choose|p: int|
            0 <= p < f.patterns.len() && substring::occurs(
                #[trigger] f.patterns[p],
                text::ascii_lower(s@),
            ) && f.rules[p].contains(rule);
        let n = NeedleView { field: f.field, needle: f.patterns[p], rule };
        assert(grouping::held_at(ix.fields, i, p, n));
        assert(grouping::held(ix.fields, n));
        assert(all.contains(n));
    }
}

} // verus!
