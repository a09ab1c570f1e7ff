//! When conditions, detections and matchers hold.

use crate::ast::ConditionExpr;
use crate::ast::Quantifier;
use crate::ast::SelectorPattern;
use crate::matcher::CompiledDetection;
use crate::matcher::CompiledDetectionItem;
use crate::matcher::CompiledMatcher;
use crate::matcher::CompiledRule;
use crate::matcher::EventValue;
use crate::matcher::Given;
use crate::matcher::GroupMode;
use crate::matcher::Verdicts;
use crate::matcher;
use crate::selector;
use crate::substring;
use crate::text;
use vstd::prelude::*;

verus! {

// ---------------------------------------------------------------------------
// Conditions
// ---------------------------------------------------------------------------

proof fn lemma_conditions(
    parts: Seq<ConditionExpr>,
    rule: CompiledRule,
    event: Seq<(String, EventValue)>,
    verdicts: Verdicts,
)
    ensures
        matcher::all_conditions_hold(parts, rule, event, verdicts) <==> forall|i: int|
            0 <= i < parts.len() ==> matcher::condition_holds(
                #[trigger] parts[i],
                rule,
                event,
                verdicts,
            ),
        matcher::any_condition_holds(parts, rule, event, verdicts) <==> exists|i: int|
            0 <= i < parts.len() && matcher::condition_holds(
                #[trigger] parts[i],
                rule,
                event,
                verdicts,
            ),
    decreases parts.len(),
{
    if parts.len() > 0 {
        let front = parts.drop_last();
        let n = front.len() as int;
        lemma_conditions(front, rule, event, verdicts);
        assert forall|i: int| 0 <= i < n implies #[trigger] parts[i] == front[i] by {}
        assert(parts.last() == parts[n]);
        if matcher::all_conditions_hold(parts, rule, event, verdicts) {
            assert forall|i: int| 0 <= i < parts.len() implies matcher::condition_holds(
                #[trigger] parts[i],
                rule,
                event,
                verdicts,
            ) by {
                if i < n {
                    assert(matcher::condition_holds(front[i], rule, event, verdicts));
                }
            }
        }
        if forall|i: int|
            0 <= i < parts.len() ==> matcher::condition_holds(
                #[trigger] parts[i],
                rule,
                event,
                verdicts,
            ) {
            assert forall|i: int| 0 <= i < n implies matcher::condition_holds(
                #[trigger] front[i],
                rule,
                event,
                verdicts,
            ) by {
                assert(matcher::condition_holds(parts[i], rule, event, verdicts));
            }
        }
        if exists|i: int|
            0 <= i < parts.len() && matcher::condition_holds(
                #[trigger] parts[i],
                rule,
                event,
                verdicts,
            ) {
            let i = choose|i: int|
                0 <= i < parts.len() && matcher::condition_holds(
                    #[trigger] parts[i],
                    rule,
                    event,
                    verdicts,
                );
            if i < n {
                assert(matcher::condition_holds(front[i], rule, event, verdicts));
            }
        }
        if matcher::any_condition_holds(front, rule, event, verdicts) {
            let i = choose|i: int|
                0 <= i < front.len() && matcher::condition_holds(
                    #[trigger] front[i],
                    rule,
                    event,
                    verdicts,
                );
            assert(matcher::condition_holds(parts[i], rule, event, verdicts));
        }
    }
}

/// A conjunction holds if each part does, a disjunction if some part does, a negation if
/// what it negates does not, a name if a detection of that name does, and a rule fires if
/// some condition of it does.
pub proof fn lemma_conditions_mean(
    c: ConditionExpr,
    rule: CompiledRule,
    event: Seq<(String, EventValue)>,
    verdicts: Verdicts,
)
    ensures
        c matches ConditionExpr::And(parts) ==> (matcher::condition_holds(c, rule, event, verdicts)
            <==> forall|i: int|
            0 <= i < parts@.len() ==> matcher::condition_holds(
                #[trigger] parts@[i],
                rule,
                event,
                verdicts,
            )),
        c matches ConditionExpr::Or(parts) ==> (matcher::condition_holds(c, rule, event, verdicts)
            <==> exists|i: int|
            0 <= i < parts@.len() && matcher::condition_holds(
                #[trigger] parts@[i],
                rule,
                event,
                verdicts,
            )),
        c matches ConditionExpr::Not(inner) ==> (matcher::condition_holds(c, rule, event, verdicts)
            <==> !matcher::condition_holds(*inner, rule, event, verdicts)),
        c matches ConditionExpr::Identifier(name) ==> (matcher::condition_holds(
            c,
            rule,
            event,
            verdicts,
        ) <==> exists|i: int|
            0 <= i < rule.detections@.len() && (#[trigger] rule.detections@[i]).0@ == name@
                && matcher::detection_holds(rule.detections@[i].1, event, verdicts)),
        matcher::fires(rule, event, verdicts) <==> exists|i: int|
            0 <= i < rule.conditions@.len() && matcher::condition_holds(
                #[trigger] rule.conditions@[i],
                rule,
                event,
                verdicts,
            ),
{
    lemma_conditions(rule.conditions@, rule, event, verdicts);
    match c {
        ConditionExpr::And(parts) => lemma_conditions(parts@, rule, event, verdicts),
        ConditionExpr::Or(parts) => lemma_conditions(parts@, rule, event, verdicts),
        _ => {},
    }
}

/// The places of the detections that are selected, and, if `holding`, hold.
pub open spec fn chosen(
    detections: Seq<(String, CompiledDetection)>,
    pattern: SelectorPattern,
    holding: bool,
    event: Seq<(String, EventValue)>,
    verdicts: Verdicts,
) -> Set<int> {
    Set::new(
        |i: int|
            0 <= i < detections.len() && selector::selects(pattern, detections[i].0@) && (holding
                ==> matcher::detection_holds(detections[i].1, event, verdicts)),
    )
}

proof fn lemma_chosen(
    detections: Seq<(String, CompiledDetection)>,
    pattern: SelectorPattern,
    holding: bool,
    event: Seq<(String, EventValue)>,
    verdicts: Verdicts,
)
    ensures
        chosen(detections, pattern, holding, event, verdicts).finite(),
        matcher::selected_count(detections, pattern, holding, event, verdicts) == chosen(
            detections,
            pattern,
            holding,
            event,
            verdicts,
        ).len(),
    decreases detections.len(),
{
    let all = chosen(detections, pattern, holding, event, verdicts);
    if detections.len() == 0 {
        assert(all =~= Set::empty());
    } else {
        let front = detections.drop_last();
        let n = front.len() as int;
        let before = chosen(front, pattern, holding, event, verdicts);
        lemma_chosen(front, pattern, holding, event, verdicts);
        assert forall|i: int| 0 <= i < n implies #[trigger] detections[i] == front[i] by {}
        assert(detections.last() == detections[n]);
        assert(!before.contains(n));
        if all.contains(n) {
            assert(all =~= before.insert(n));
        } else {
            assert(all =~= before);
        }
    }
}

/// `1 of` a pattern holds if some detection that it selects does, `all of` it if each does
/// that it selects, and `n of` it if as many do.
pub proof fn lemma_selectors_mean(
    quantifier: Quantifier,
    pattern: SelectorPattern,
    rule: CompiledRule,
    event: Seq<(String, EventValue)>,
    verdicts: Verdicts,
)
    ensures
        quantifier is Any ==> (matcher::condition_holds(
            ConditionExpr::Selector { quantifier, pattern },
            rule,
            event,
            verdicts,
        ) <==> exists|i: int|
            0 <= i < rule.detections@.len() && selector::selects(
                pattern,
                (#[trigger] rule.detections@[i]).0@,
            ) && matcher::detection_holds(rule.detections@[i].1, event, verdicts)),
        quantifier is All ==> (matcher::condition_holds(
            ConditionExpr::Selector { quantifier, pattern },
            rule,
            event,
            verdicts,
        ) <==> forall|i: int|
            0 <= i < rule.detections@.len() && selector::selects(
                pattern,
                (#[trigger] rule.detections@[i]).0@,
            ) ==> matcher::detection_holds(rule.detections@[i].1, event, verdicts)),
        quantifier matches Quantifier::Count(n) ==> (matcher::condition_holds(
            ConditionExpr::Selector { quantifier, pattern },
            rule,
            event,
            verdicts,
        ) <==> chosen(rule.detections@, pattern, true, event, verdicts).len() >= n),
{
    let d = rule.detections@;
    let holding = chosen(d, pattern, true, event, verdicts);
    let all = chosen(d, pattern, false, event, verdicts);
    lemma_chosen(d, pattern, true, event, verdicts);
    lemma_chosen(d, pattern, false, event, verdicts);
    assert(holding.subset_of(all));
    if exists|i: int|
        0 <= i < d.len() && selector::selects(pattern, (#[trigger] d[i]).0@)
            && matcher::detection_holds(d[i].1, event, verdicts) {
        let i = choose|i: int|
            0 <= i < d.len() && selector::selects(pattern, (#[trigger] d[i]).0@)
                && matcher::detection_holds(d[i].1, event, verdicts);
        assert(holding.contains(i));
        vstd::set_lib::lemma_set_empty_equivalency_len(holding);
        assert(holding.len() >= 1);
    } else {
        assert(holding =~= Set::empty());
    }
    if forall|i: int|
        0 <= i < d.len() && selector::selects(pattern, (#[trigger] d[i]).0@)
            ==> matcher::detection_holds(d[i].1, event, verdicts) {
        assert(holding =~= all);
    } else {
        let i = choose|i: int|
            0 <= i < d.len() && selector::selects(pattern, (#[trigger] d[i]).0@)
                && !matcher::detection_holds(d[i].1, event, verdicts);
        assert(all.contains(i) && !holding.contains(i));
        vstd::set_lib::lemma_len_subset(holding, all.remove(i));
    }
}

// ---------------------------------------------------------------------------
// Detections and matchers
// ---------------------------------------------------------------------------

proof fn lemma_sub_detections(
    subs: Seq<CompiledDetection>,
    event: Seq<(String, EventValue)>,
    verdicts: Verdicts,
)
    ensures
        matcher::any_holds(subs, event, verdicts) <==> exists|i: int|
            0 <= i < subs.len() && matcher::detection_holds(#[trigger] subs[i], event, verdicts),
        matcher::all_hold(subs, event, verdicts) <==> forall|i: int|
            0 <= i < subs.len() ==> matcher::detection_holds(#[trigger] subs[i], event, verdicts),
    decreases subs.len(),
{
    if subs.len() > 0 {
        let front = subs.drop_last();
        let n = front.len() as int;
        lemma_sub_detections(front, event, verdicts);
        assert forall|i: int| 0 <= i < n implies #[trigger] subs[i] == front[i] by {}
        assert(subs.last() == subs[n]);
        if matcher::any_holds(front, event, verdicts) {
            let i = choose|i: int|
                0 <= i < front.len() && matcher::detection_holds(
                    #[trigger] front[i],
                    event,
                    verdicts,
                );
            assert(matcher::detection_holds(subs[i], event, verdicts));
        }
        if exists|i: int|
            0 <= i < subs.len() && matcher::detection_holds(#[trigger] subs[i], event, verdicts) {
            let i = choose|i: int|
                0 <= i < subs.len() && matcher::detection_holds(
                    #[trigger] subs[i],
                    event,
                    verdicts,
                );
            if i < n {
                assert(matcher::detection_holds(front[i], event, verdicts));
            }
        }
        if matcher::all_hold(subs, event, verdicts) {
            assert forall|i: int| 0 <= i < subs.len() implies matcher::detection_holds(
                #[trigger] subs[i],
                event,
                verdicts,
            ) by {
                if i < n {
                    assert(matcher::detection_holds(front[i], event, verdicts));
                }
            }
        }
        if forall|i: int|
            0 <= i < subs.len() ==> matcher::detection_holds(#[trigger] subs[i], event, verdicts) {
            assert forall|i: int| 0 <= i < n implies matcher::detection_holds(
                #[trigger] front[i],
                event,
                verdicts,
            ) by {
                assert(matcher::detection_holds(subs[i], event, verdicts));
            }
        }
    }
}

/// Items hold together if each does; of detections in a list some has to hold, of those
/// that are joined each.
pub proof fn lemma_detections_mean(
    d: CompiledDetection,
    event: Seq<(String, EventValue)>,
    verdicts: Verdicts,
)
    ensures
        d matches CompiledDetection::AllOf(items) ==> (matcher::detection_holds(d, event, verdicts)
            <==> forall|i: int|
            0 <= i < items@.len() ==> matcher::item_holds(#[trigger] items@[i], event, verdicts)),
        d matches CompiledDetection::AnyOf(subs) ==> (matcher::detection_holds(d, event, verdicts)
            <==> exists|i: int|
            0 <= i < subs@.len() && matcher::detection_holds(
                #[trigger] subs@[i],
                event,
                verdicts,
            )),
        d matches CompiledDetection::And(subs) ==> (matcher::detection_holds(d, event, verdicts)
            <==> forall|i: int|
            0 <= i < subs@.len() ==> matcher::detection_holds(
                #[trigger] subs@[i],
                event,
                verdicts,
            )),
{
    match d {
        CompiledDetection::AnyOf(subs) => lemma_sub_detections(subs@, event, verdicts),
        CompiledDetection::And(subs) => lemma_sub_detections(subs@, event, verdicts),
        _ => {},
    }
}

proof fn lemma_children(
    children: Seq<CompiledMatcher>,
    g: Given,
    v: Option<EventValue>,
    verdicts: Verdicts,
)
    ensures
        matcher::any_matches(children, g, v, verdicts) <==> exists|i: int|
            0 <= i < children.len() && matcher::matches(#[trigger] children[i], g, v, verdicts),
        matcher::all_match(children, g, v, verdicts) <==> forall|i: int|
            0 <= i < children.len() ==> matcher::matches(#[trigger] children[i], g, v, verdicts),
    decreases children.len(),
{
    if children.len() > 0 {
        let front = children.drop_last();
        let n = front.len() as int;
        lemma_children(front, g, v, verdicts);
        assert forall|i: int| 0 <= i < n implies #[trigger] children[i] == front[i] by {}
        assert(children.last() == children[n]);
        if matcher::any_matches(front, g, v, verdicts) {
            let i = choose|i: int|
                0 <= i < front.len() && matcher::matches(#[trigger] front[i], g, v, verdicts);
            assert(matcher::matches(children[i], g, v, verdicts));
        }
        if exists|i: int|
            0 <= i < children.len() && matcher::matches(#[trigger] children[i], g, v, verdicts) {
            let i = choose|i: int|
                0 <= i < children.len() && matcher::matches(#[trigger] children[i], g, v, verdicts);
            if i < n {
                assert(matcher::matches(front[i], g, v, verdicts));
            }
        }
        if matcher::all_match(children, g, v, verdicts) {
            assert forall|i: int| 0 <= i < children.len() implies matcher::matches(
                #[trigger] children[i],
                g,
                v,
                verdicts,
            ) by {
                if i < n {
                    assert(matcher::matches(front[i], g, v, verdicts));
                }
            }
        }
        if forall|i: int|
            0 <= i < children.len() ==> matcher::matches(#[trigger] children[i], g, v, verdicts) {
            assert forall|i: int| 0 <= i < n implies matcher::matches(
                #[trigger] front[i],
                g,
                v,
                verdicts,
            ) by {
                assert(matcher::matches(children[i], g, v, verdicts));
            }
        }
    }
}

/// Of the matchers in a group some or each has to match, as the group says, and a group
/// that ignores case gives them the text in lower case; a negated one must not match.
pub proof fn lemma_groups_mean(
    m: CompiledMatcher,
    s: Seq<char>,
    v: Option<EventValue>,
    verdicts: Verdicts,
)
    ensures
        m matches CompiledMatcher::AnyOf(children) ==> (matcher::matches(
            m,
            Given::Text(s),
            v,
            verdicts,
        ) <==> exists|i: int|
            0 <= i < children@.len() && matcher::matches(
                #[trigger] children@[i],
                Given::Text(s),
                v,
                verdicts,
            )),
        m matches CompiledMatcher::AllOf(children) ==> (matcher::matches(
            m,
            Given::Text(s),
            v,
            verdicts,
        ) <==> forall|i: int|
            0 <= i < children@.len() ==> matcher::matches(
                #[trigger] children@[i],
                Given::Text(s),
                v,
                verdicts,
            )),
        m matches CompiledMatcher::CaseInsensitiveGroup { children, mode: GroupMode::Any } ==> (
        matcher::matches(m, Given::Text(s), v, verdicts) <==> exists|i: int|
            0 <= i < children@.len() && matcher::matches(
                #[trigger] children@[i],
                Given::Text(text::ascii_lower(s)),
                v,
                verdicts,
            )),
        m matches CompiledMatcher::CaseInsensitiveGroup { children, mode: GroupMode::All } ==> (
        matcher::matches(m, Given::Text(s), v, verdicts) <==> forall|i: int|
            0 <= i < children@.len() ==> matcher::matches(
                #[trigger] children@[i],
                Given::Text(text::ascii_lower(s)),
                v,
                verdicts,
            )),
        m matches CompiledMatcher::Not(inner) ==> (matcher::matches(m, Given::Text(s), v, verdicts)
            <==> !matcher::matches(*inner, Given::Text(s), v, verdicts)),
{
    match m {
        CompiledMatcher::AnyOf(children) => lemma_children(
            children@,
            Given::Text(s),
            v,
            verdicts,
        ),
        CompiledMatcher::AllOf(children) => lemma_children(
            children@,
            Given::Text(s),
            v,
            verdicts,
        ),
        CompiledMatcher::CaseInsensitiveGroup { children, .. } => lemma_children(
            children@,
            Given::Text(text::ascii_lower(s)),
            v,
            verdicts,
        ),
        _ => {},
    }
}

/// A text matches what looks for a part of it: anywhere in it, at its beginning or at its
/// end, or for some of several; where case is ignored, in lower case.
pub proof fn lemma_substrings_match(
    value: String,
    needles: Vec<String>,
    a: Seq<char>,
    v: Option<EventValue>,
    verdicts: Verdicts,
    case_insensitive: bool,
)
    ensures
        ({
            let seen = |s: Seq<char>|
                if case_insensitive {
                    text::ascii_lower(s)
                } else {
                    s
                };
            &&& matcher::matches(
                CompiledMatcher::Contains { value, case_insensitive },
                Given::Text(a),
                v,
                verdicts,
            ) <==> substring::occurs(value@, seen(a))
            &&& matcher::matches(
                CompiledMatcher::StartsWith { value, case_insensitive },
                Given::Text(a),
                v,
                verdicts,
            ) <==> text::begins(seen(a), value@)
            &&& matcher::matches(
                CompiledMatcher::EndsWith { value, case_insensitive },
                Given::Text(a),
                v,
                verdicts,
            ) <==> text::ends(seen(a), value@)
            &&& matcher::matches(
                CompiledMatcher::AhoCorasickSet { needles, case_insensitive },
                Given::Text(a),
                v,
                verdicts,
            ) <==> exists|k: int|
                0 <= k < needles@.len() && substring::occurs((#[trigger] needles@[k])@, seen(a))
        }),
{
}

/// An item holds if its matcher matches the value of its field, which is the first that the
/// event gives for that name.
pub proof fn lemma_items_mean(
    item: CompiledDetectionItem,
    event: Seq<(String, EventValue)>,
    verdicts: Verdicts,
    i: int,
)
    requires
        item.exists is None,
        item.field is Some,
    ensures
        0 <= i < event.len() && event[i].0@ == item.field->0@ && (forall|j: int|
            0 <= j < i ==> (#[trigger] event[j]).0@ != item.field->0@) ==> (matcher::item_holds(
            item,
            event,
            verdicts,
        ) <==> matcher::matches(
            item.matcher,
            matcher::given(Some(event[i].1)),
            Some(event[i].1),
            verdicts,
        )),
        (forall|j: int| 0 <= j < event.len() ==> (#[trigger] event[j]).0@ != item.field->0@) ==> (
        matcher::item_holds(item, event, verdicts) <==> matcher::matches(
            item.matcher,
            Given::Nothing,
            None,
            verdicts,
        )),
{
    let field = item.field->0@;
    if 0 <= i < event.len() && event[i].0@ == field && (forall|j: int|
        0 <= j < i ==> (#[trigger] event[j]).0@ != field) {
        lemma_field_value(event, field, i);
    }
    if forall|j: int| 0 <= j < event.len() ==> (#[trigger] event[j]).0@ != field {
        lemma_field_value(event, field, event.len() as int);
    }
}

/// The value of a field is that of the first entry of its name; without one there is none.
pub proof fn lemma_field_value(event: Seq<(String, EventValue)>, field: Seq<char>, i: int)
    requires
        0 <= i <= event.len(),
        forall|j: int| 0 <= j < i ==> (#[trigger] event[j]).0@ != field,
        i < event.len() ==> event[i].0@ == field,
    ensures
        matcher::field_value(event, field) == (if i < event.len() {
            Some(event[i].1)
        } else {
            None
        }),
    decreases event.len(),
{
    if event.len() > 0 && i > 0 {
        let rest = event.skip(1);
        assert(event[0].0@ != field);
        assert forall|j: int| 0 <= j < i - 1 implies (#[trigger] rest[j]).0@ != field by {
            assert(rest[j] == event[j + 1]);
        }
        if i < event.len() {
            assert(rest[i - 1] == event[i]);
        }
        lemma_field_value(rest, field, i - 1);
    }
}

} // verus!
