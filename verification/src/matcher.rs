//! Compiled rules, and when they fire.

use crate::ast::ArrayQuantifier;
use crate::ast::ConditionExpr;
use crate::ast::Quantifier;
use crate::ast::SelectorPattern;
use crate::selector;
use crate::substring;
use crate::text;
use vstd::prelude::*;

verus! {

// ---------------------------------------------------------------------------
// Compiled rules
// ---------------------------------------------------------------------------

/// How the children of a group are linked.
#[derive(Clone, Copy, PartialEq, Eq, Structural, Debug)]
pub enum GroupMode {
    Any,
    All,
}

/// How two numbers have to stand to each other.
#[derive(Clone, Copy, PartialEq, Eq, Structural, Debug)]
pub enum NumericRelation {
    Equal,
    Greater,
    GreaterOrEqual,
    Less,
    LessOrEqual,
}

/// What the value of a field is matched against. The needles of a matcher that
/// ignores case are in lower case.
#[derive(Debug)]
pub enum CompiledMatcher {
    Exact { value: String, case_insensitive: bool },
    Contains { value: String, case_insensitive: bool },
    StartsWith { value: String, case_insensitive: bool },
    EndsWith { value: String, case_insensitive: bool },
    /// Some needle occurs.
    AhoCorasickSet { needles: Vec<String>, case_insensitive: bool },
    Regex(String),
    RegexSetMatch { patterns: Vec<String>, mode: GroupMode },
    Cidr(String),
    /// A number, held by its bits.
    Numeric { relation: NumericRelation, bits: u64 },
    Exists(bool),
    BoolEq(bool),
    FieldRef { field: String, case_insensitive: bool },
    Null,
    Expand { template: String, case_insensitive: bool },
    TimestampPart { part: String, inner: Box<CompiledMatcher> },
    Not(Box<CompiledMatcher>),
    AnyOf(Vec<CompiledMatcher>),
    AllOf(Vec<CompiledMatcher>),
    /// Children that are matched against the value in lower case.
    CaseInsensitiveGroup { children: Vec<CompiledMatcher>, mode: GroupMode },
}

/// A matcher on a field. With `exists` the item asks only whether the field is
/// there; without a field it is matched against an array member itself.
#[derive(Debug)]
pub struct CompiledDetectionItem {
    pub field: Option<String>,
    pub matcher: CompiledMatcher,
    pub exists: Option<bool>,
}

/// A compiled detection.
#[derive(Debug)]
pub enum CompiledDetection {
    AllOf(Vec<CompiledDetectionItem>),
    AnyOf(Vec<CompiledDetection>),
    And(Vec<CompiledDetection>),
    ArrayMatch { field: String, quantifier: ArrayQuantifier, body: Box<CompiledDetection> },
    Keywords(CompiledMatcher),
}

/// A compiled rule: its detections by name, and its conditions.
#[derive(Debug)]
pub struct CompiledRule {
    pub detections: Vec<(String, CompiledDetection)>,
    pub conditions: Vec<ConditionExpr>,
}

// ---------------------------------------------------------------------------
// Events
// ---------------------------------------------------------------------------

/// The value of a field of an event. A floating-point number is held by its bits.
#[derive(Debug)]
pub enum EventValue {
    Null,
    Bool(bool),
    Int(i64),
    Float(u64),
    Str(String),
    Array(Vec<EventValue>),
    Object(Vec<(String, EventValue)>),
}

/// The value of a field of an event, given as its fields by path.
pub open spec fn field_value(event: Seq<(String, EventValue)>, field: Seq<char>) -> Option<
    EventValue,
>
    decreases event.len(),
{
    if event.len() == 0 {
        None
    } else if event[0].0@ == field {
        Some(event[0].1)
    } else {
        field_value(event.skip(1), field)
    }
}

/// Look a field up.
pub fn get_field<'a>(event: &'a Vec<(String, EventValue)>, field: &str) -> (res: Option<
    &'a EventValue,
>)
    ensures
        match res {
            Some(v) => field_value(event@, field@) == Some(*v),
            None => field_value(event@, field@) is None,
        },
{
    let mut i: usize = 0;
    assert(event@.skip(0) =~= event@);
    while i < event.len()
        invariant
            0 <= i <= event@.len(),
            field_value(event@, field@) == field_value(event@.skip(i as int), field@),
        decreases event@.len() - i,
    {
        assert(event@.skip(i as int)[0] == event@[i as int]);
        if text::same_text(event[i].0.as_str(), field) {
            return Some(&event[i].1);
        }
        assert(event@.skip(i as int).skip(1) =~= event@.skip(i + 1));
        i = i + 1;
    }
    None
}

// ---------------------------------------------------------------------------
// When a rule fires
// ---------------------------------------------------------------------------

/// What is decided beside the matching of substrings: the verdicts of the other
/// matchers, of substring matchers on values that are not strings, of items that
/// ask for no field's value, and of detections on array members and keywords.
pub struct Verdicts {
    pub matcher: spec_fn(CompiledMatcher, Option<EventValue>) -> bool,
    pub item: spec_fn(CompiledDetectionItem) -> bool,
    pub detection: spec_fn(CompiledDetection) -> bool,
}

/// The text as a matcher sees it.
pub open spec fn folded(s: Seq<char>, case_insensitive: bool) -> Seq<char> {
    if case_insensitive {
        text::ascii_lower(s)
    } else {
        s
    }
}

/// Some needle occurs in the text.
pub open spec fn some_occurs(needles: Seq<String>, s: Seq<char>) -> bool {
    exists|i: int| 0 <= i < needles.len() && substring::occurs((#[trigger] needles[i])@, s)
}

/// A matcher that looks for substrings matches the text `s`.
pub open spec fn substring_matches(m: CompiledMatcher, s: Seq<char>) -> bool {
    match m {
        CompiledMatcher::Contains { value, case_insensitive } => substring::occurs(
            value@,
            folded(s, case_insensitive),
        ),
        CompiledMatcher::StartsWith { value, case_insensitive } => text::begins(
            folded(s, case_insensitive),
            value@,
        ),
        CompiledMatcher::EndsWith { value, case_insensitive } => text::ends(
            folded(s, case_insensitive),
            value@,
        ),
        CompiledMatcher::AhoCorasickSet { needles, case_insensitive } => some_occurs(
            needles@,
            folded(s, case_insensitive),
        ),
        _ => false,
    }
}

/// The matchers that look for substrings.
pub open spec fn looks_for_substrings(m: CompiledMatcher) -> bool {
    ||| m is Contains
    ||| m is StartsWith
    ||| m is EndsWith
    ||| m is AhoCorasickSet
}

/// What a matcher is given: nothing, a text, or another value.
pub enum Given {
    Nothing,
    Text(Seq<char>),
    Other(EventValue),
}

/// A value as a matcher is given it.
pub open spec fn given(v: Option<EventValue>) -> Given {
    match v {
        None => Given::Nothing,
        Some(EventValue::Str(s)) => Given::Text(s@),
        Some(other) => Given::Other(other),
    }
}

/// What is given, in lower case if it is a text.
pub open spec fn lowered(g: Given) -> Given {
    match g {
        Given::Text(s) => Given::Text(text::ascii_lower(s)),
        _ => g,
    }
}

/// The matcher matches what it is given; `v` is the value that this comes from.
pub open spec fn matches(
    m: CompiledMatcher,
    g: Given,
    v: Option<EventValue>,
    verdicts: Verdicts,
) -> bool
    decreases m,
{
    match m {
        CompiledMatcher::Not(inner) => !matches(*inner, g, v, verdicts),
        CompiledMatcher::AnyOf(children) => any_matches(children@, g, v, verdicts),
        CompiledMatcher::AllOf(children) => all_match(children@, g, v, verdicts),
        CompiledMatcher::CaseInsensitiveGroup { children, mode } => match mode {
            GroupMode::Any => any_matches(children@, lowered(g), v, verdicts),
            GroupMode::All => all_match(children@, lowered(g), v, verdicts),
        },
        _ => if looks_for_substrings(m) && !(g is Other) {
            g matches Given::Text(s) && substring_matches(m, s)
        } else {
            (verdicts.matcher)(m, v)
        },
    }
}

/// Some child matches.
pub open spec fn any_matches(
    children: Seq<CompiledMatcher>,
    g: Given,
    v: Option<EventValue>,
    verdicts: Verdicts,
) -> bool
    decreases children,
{
    children.len() > 0 && (any_matches(children.drop_last(), g, v, verdicts) || matches(
        children.last(),
        g,
        v,
        verdicts,
    ))
}

/// Every child matches.
pub open spec fn all_match(
    children: Seq<CompiledMatcher>,
    g: Given,
    v: Option<EventValue>,
    verdicts: Verdicts,
) -> bool
    decreases children,
{
    children.len() > 0 ==> all_match(children.drop_last(), g, v, verdicts) && matches(
        children.last(),
        g,
        v,
        verdicts,
    )
}

/// The item holds of the event.
pub open spec fn item_holds(
    item: CompiledDetectionItem,
    event: Seq<(String, EventValue)>,
    verdicts: Verdicts,
) -> bool {
    match item.field {
        Some(field) if item.exists is None => matches(
            item.matcher,
            given(field_value(event, field@)),
            field_value(event, field@),
            verdicts,
        ),
        _ => (verdicts.item)(item),
    }
}

/// The detection holds of the event.
pub open spec fn detection_holds(
    d: CompiledDetection,
    event: Seq<(String, EventValue)>,
    verdicts: Verdicts,
) -> bool
    decreases d,
{
    match d {
        CompiledDetection::AllOf(items) => forall|i: int|
            0 <= i < items@.len() ==> item_holds(#[trigger] items@[i], event, verdicts),
        CompiledDetection::AnyOf(subs) => any_holds(subs@, event, verdicts),
        CompiledDetection::And(subs) => all_hold(subs@, event, verdicts),
        _ => (verdicts.detection)(d),
    }
}

/// Some detection holds.
pub open spec fn any_holds(
    subs: Seq<CompiledDetection>,
    event: Seq<(String, EventValue)>,
    verdicts: Verdicts,
) -> bool
    decreases subs,
{
    subs.len() > 0 && (any_holds(subs.drop_last(), event, verdicts) || detection_holds(
        subs.last(),
        event,
        verdicts,
    ))
}

/// Every detection holds.
pub open spec fn all_hold(
    subs: Seq<CompiledDetection>,
    event: Seq<(String, EventValue)>,
    verdicts: Verdicts,
) -> bool
    decreases subs,
{
    subs.len() > 0 ==> all_hold(subs.drop_last(), event, verdicts) && detection_holds(
        subs.last(),
        event,
        verdicts,
    )
}

/// A detection of that name holds of the event.
pub open spec fn named_holds(
    rule: CompiledRule,
    name: Seq<char>,
    event: Seq<(String, EventValue)>,
    verdicts: Verdicts,
) -> bool {
    exists|i: int|
        0 <= i < rule.detections@.len() && (#[trigger] rule.detections@[i]).0@ == name
            && detection_holds(rule.detections@[i].1, event, verdicts)
}

/// How many of the detections are selected and, if `holding`, hold of the event.
pub open spec fn selected_count(
    detections: Seq<(String, CompiledDetection)>,
    pattern: SelectorPattern,
    holding: bool,
    event: Seq<(String, EventValue)>,
    verdicts: Verdicts,
) -> nat
    decreases detections.len(),
{
    if detections.len() == 0 {
        0
    } else {
        let last = detections.last();
        let here: nat = if selector::selects(pattern, last.0@) && (holding ==> detection_holds(
            last.1,
            event,
            verdicts,
        )) {
            1
        } else {
            0
        };
        selected_count(detections.drop_last(), pattern, holding, event, verdicts) + here
    }
}

/// The condition holds of the event.
pub open spec fn condition_holds(
    c: ConditionExpr,
    rule: CompiledRule,
    event: Seq<(String, EventValue)>,
    verdicts: Verdicts,
) -> bool
    decreases c,
{
    match c {
        ConditionExpr::And(parts) => all_conditions_hold(parts@, rule, event, verdicts),
        ConditionExpr::Or(parts) => any_condition_holds(parts@, rule, event, verdicts),
        ConditionExpr::Not(inner) => !condition_holds(*inner, rule, event, verdicts),
        ConditionExpr::Identifier(name) => named_holds(rule, name@, event, verdicts),
        ConditionExpr::Selector { quantifier, pattern } => {
            let holding = selected_count(rule.detections@, pattern, true, event, verdicts);
            match quantifier {
                Quantifier::Any => holding >= 1,
                Quantifier::All => holding == selected_count(
                    rule.detections@,
                    pattern,
                    false,
                    event,
                    verdicts,
                ),
                Quantifier::Count(n) => holding >= n,
            }
        },
    }
}

/// Every condition holds.
pub open spec fn all_conditions_hold(
    parts: Seq<ConditionExpr>,
    rule: CompiledRule,
    event: Seq<(String, EventValue)>,
    verdicts: Verdicts,
) -> bool
    decreases parts,
{
    parts.len() > 0 ==> all_conditions_hold(parts.drop_last(), rule, event, verdicts)
        && condition_holds(parts.last(), rule, event, verdicts)
}

/// Some condition holds.
pub open spec fn any_condition_holds(
    parts: Seq<ConditionExpr>,
    rule: CompiledRule,
    event: Seq<(String, EventValue)>,
    verdicts: Verdicts,
) -> bool
    decreases parts,
{
    parts.len() > 0 && (any_condition_holds(parts.drop_last(), rule, event, verdicts)
        || condition_holds(parts.last(), rule, event, verdicts))
}

/// The rule fires on the event: one of its conditions holds.
pub open spec fn fires(
    rule: CompiledRule,
    event: Seq<(String, EventValue)>,
    verdicts: Verdicts,
) -> bool {
    any_condition_holds(rule.conditions@, rule, event, verdicts)
}

} // verus!
