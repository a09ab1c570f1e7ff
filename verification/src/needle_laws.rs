//! Which needles rules have, and which rules need one to fire.

use crate::ast::ConditionExpr;
use crate::ast::Quantifier;
use crate::cross_rule_ac::CrossRuleAcIndex;
use crate::cross_rule_ac::IndexView;
use crate::cross_rule_ac;
use crate::grouping;
use crate::matcher::CompiledDetection;
use crate::matcher::CompiledDetectionItem;
use crate::matcher::CompiledMatcher;
use crate::matcher::CompiledRule;
use crate::matcher::EventValue;
use crate::matcher::Verdicts;
use crate::matcher;
use crate::matcher_laws;
use crate::needles::NeedleView;
use crate::needles;
use crate::order;
use crate::pruning;
use crate::selector;
use crate::substring;
use crate::text;
use vstd::prelude::*;

verus! {

// ---------------------------------------------------------------------------
// Needles
// ---------------------------------------------------------------------------

/// The text is a needle: it is not empty, and this is it in lower case.
pub open spec fn is_needle(value: Seq<char>, x: Seq<char>) -> bool {
    value.len() > 0 && x == text::ascii_lower(value)
}

/// The matcher looks for that needle, with a substring matcher of its own or one of those
/// that it groups. What it negates it does not look for.
pub open spec fn looks_for(m: CompiledMatcher, x: Seq<char>) -> bool
    decreases m,
{
    match m {
        CompiledMatcher::Contains { value, .. } => is_needle(value@, x),
        CompiledMatcher::StartsWith { value, .. } => is_needle(value@, x),
        CompiledMatcher::EndsWith { value, .. } => is_needle(value@, x),
        CompiledMatcher::AhoCorasickSet { needles, .. } => some_needle(needles@, x),
        CompiledMatcher::AnyOf(children) => some_looks_for(children@, x),
        CompiledMatcher::AllOf(children) => some_looks_for(children@, x),
        CompiledMatcher::CaseInsensitiveGroup { children, .. } => some_looks_for(children@, x),
        _ => false,
    }
}

/// Some of the matchers looks for that needle.
pub open spec fn some_looks_for(children: Seq<CompiledMatcher>, x: Seq<char>) -> bool
    decreases children,
{
    children.len() > 0 && (some_looks_for(children.drop_last(), x) || looks_for(
        children.last(),
        x,
    ))
}

/// One of the texts is the needle.
pub open spec fn some_needle(values: Seq<String>, x: Seq<char>) -> bool {
    exists|i: int| 0 <= i < values.len() && is_needle((#[trigger] values[i])@, x)
}

proof fn lemma_contains_sum<A>(a: Seq<A>, b: Seq<A>, x: A)
    ensures
        (a + b).contains(x) <==> a.contains(x) || b.contains(x),
{
    if a.contains(x) {
        assert((a + b)[a.index_of(x)] == x);
    }
    if b.contains(x) {
        assert((a + b)[a.len() + b.index_of(x)] == x);
    }
    if (a + b).contains(x) {
        let i = (a + b).index_of(x);
        if i < a.len() {
            assert(a[i] == x);
        } else {
            assert(b[i - a.len()] == x);
        }
    }
}

proof fn lemma_indexed_needle(value: Seq<char>, x: Seq<char>)
    ensures
        needles::indexed_needle(value).contains(x) <==> is_needle(value, x),
{
    if value.len() > 0 {
        assert(needles::indexed_needle(value)[0] == text::ascii_lower(value));
    }
}

proof fn lemma_indexed_needles(values: Seq<String>, x: Seq<char>)
    ensures
        needles::indexed_needles(values).contains(x) <==> some_needle(values, x),
    decreases values.len(),
{
    if values.len() > 0 {
        let front = values.drop_last();
        let n = front.len() as int;
        lemma_indexed_needles(front, x);
        lemma_indexed_needle(values[n]@, x);
        lemma_contains_sum(
            needles::indexed_needles(front),
            needles::indexed_needle(values[n]@),
            x,
        );
        assert forall|i: int| 0 <= i < n implies #[trigger] values[i] == front[i] by {}
        if some_needle(front, x) {
            let i = choose|i: int| 0 <= i < front.len() && is_needle((#[trigger] front[i])@, x);
            assert(is_needle(values[i]@, x));
        }
        if some_needle(values, x) {
            let i = choose|i: int| 0 <= i < values.len() && is_needle((#[trigger] values[i])@, x);
            if i < n {
                assert(is_needle(front[i]@, x));
            }
        }
    }
}

/// The needles of a matcher are those that it looks for.
pub proof fn lemma_needles_of_matcher(m: CompiledMatcher, x: Seq<char>)
    ensures
        needles::needles_of(m).contains(x) <==> looks_for(m, x),
    decreases m,
{
    match m {
        CompiledMatcher::Contains { value, .. } => lemma_indexed_needle(value@, x),
        CompiledMatcher::StartsWith { value, .. } => lemma_indexed_needle(value@, x),
        CompiledMatcher::EndsWith { value, .. } => lemma_indexed_needle(value@, x),
        CompiledMatcher::AhoCorasickSet { needles, .. } => lemma_indexed_needles(needles@, x),
        CompiledMatcher::AnyOf(children) => lemma_needles_of_all(children@, x),
        CompiledMatcher::AllOf(children) => lemma_needles_of_all(children@, x),
        CompiledMatcher::CaseInsensitiveGroup { children, .. } => lemma_needles_of_all(
            children@,
            x,
        ),
        _ => {},
    }
}

proof fn lemma_needles_of_all(children: Seq<CompiledMatcher>, x: Seq<char>)
    ensures
        needles::needles_of_all(children).contains(x) <==> some_looks_for(children, x),
    decreases children,
{
    if children.len() > 0 {
        let front = children.drop_last();
        lemma_needles_of_all(front, x);
        lemma_needles_of_matcher(children.last(), x);
        lemma_contains_sum(needles::needles_of_all(front), needles::needles_of(children.last()), x);
    }
}

/// The item looks for that needle in that field.
pub open spec fn item_asks(item: CompiledDetectionItem, field: Seq<char>, x: Seq<char>) -> bool {
    item.field matches Some(f) && f@ == field && looks_for(item.matcher, x)
}

/// Some item looks for that needle in that field.
pub open spec fn some_item_asks(
    items: Seq<CompiledDetectionItem>,
    field: Seq<char>,
    x: Seq<char>,
) -> bool {
    exists|i: int| 0 <= i < items.len() && item_asks(#[trigger] items[i], field, x)
}

/// The detection looks for that needle in that field, with an item of its own or of the
/// detections that it is made of. Array members and keywords have no field of the event.
pub open spec fn asks(d: CompiledDetection, field: Seq<char>, x: Seq<char>) -> bool
    decreases d,
{
    match d {
        CompiledDetection::AllOf(items) => some_item_asks(items@, field, x),
        CompiledDetection::AnyOf(subs) => some_asks(subs@, field, x),
        CompiledDetection::And(subs) => some_asks(subs@, field, x),
        _ => false,
    }
}

/// Some of the detections looks for that needle in that field.
pub open spec fn some_asks(subs: Seq<CompiledDetection>, field: Seq<char>, x: Seq<char>) -> bool
    decreases subs,
{
    subs.len() > 0 && (some_asks(subs.drop_last(), field, x) || asks(subs.last(), field, x))
}

proof fn lemma_on_field(list: Seq<Seq<char>>, field: Seq<char>, rule: u32, n: NeedleView)
    ensures
        needles::on_field(list, field, rule).contains(n) <==> n.field == field && n.rule == rule
            && list.contains(n.needle),
{
    let all = needles::on_field(list, field, rule);
    if all.contains(n) {
        let i = all.index_of(n);
        assert(list[i] == n.needle);
    }
    if n.field == field && n.rule == rule && list.contains(n.needle) {
        let i = list.index_of(n.needle);
        assert(all[i] == n);
    }
}

proof fn lemma_item_needles(items: Seq<CompiledDetectionItem>, rule: u32, n: NeedleView)
    ensures
        needles::item_needles(items, rule).contains(n) <==> n.rule == rule && some_item_asks(
            items,
            n.field,
            n.needle,
        ),
    decreases items.len(),
{
    if items.len() > 0 {
        let front = items.drop_last();
        let k = front.len() as int;
        lemma_item_needles(front, rule, n);
        assert forall|i: int| 0 <= i < k implies #[trigger] items[i] == front[i] by {}
        lemma_needles_of_matcher(items[k].matcher, n.needle);
        let none = Seq::<NeedleView>::empty();
        let last = match items[k].field {
            Some(field) => needles::on_field(
                needles::needles_of(items[k].matcher),
                field@,
                rule,
            ),
            None => none,
        };
        if let Some(field) = items[k].field {
            lemma_on_field(needles::needles_of(items[k].matcher), field@, rule, n);
        }
        assert(last.contains(n) <==> n.rule == rule && item_asks(items[k], n.field, n.needle));
        lemma_contains_sum(needles::item_needles(front, rule), last, n);
        if some_item_asks(front, n.field, n.needle) {
            let i = choose|i: int|
                0 <= i < front.len() && item_asks(#[trigger] front[i], n.field, n.needle);
            assert(item_asks(items[i], n.field, n.needle));
        }
        if some_item_asks(items, n.field, n.needle) {
            let i = choose|i: int|
                0 <= i < items.len() && item_asks(#[trigger] items[i], n.field, n.needle);
            if i < k {
                assert(item_asks(front[i], n.field, n.needle));
            }
        }
    }
}

/// The needles of a detection are those that it looks for in some field.
pub proof fn lemma_needles_of_detection(d: CompiledDetection, rule: u32, n: NeedleView)
    ensures
        needles::detection_needles(d, rule).contains(n) <==> n.rule == rule && asks(
            d,
            n.field,
            n.needle,
        ),
    decreases d,
{
    match d {
        CompiledDetection::AllOf(items) => lemma_item_needles(items@, rule, n),
        CompiledDetection::AnyOf(subs) => lemma_all_detection_needles(subs@, rule, n),
        CompiledDetection::And(subs) => lemma_all_detection_needles(subs@, rule, n),
        _ => {},
    }
}

proof fn lemma_all_detection_needles(subs: Seq<CompiledDetection>, rule: u32, n: NeedleView)
    ensures
        needles::all_detection_needles(subs, rule).contains(n) <==> n.rule == rule && some_asks(
            subs,
            n.field,
            n.needle,
        ),
    decreases subs,
{
    if subs.len() > 0 {
        let front = subs.drop_last();
        lemma_all_detection_needles(front, rule, n);
        lemma_needles_of_detection(subs.last(), rule, n);
        lemma_contains_sum(
            needles::all_detection_needles(front, rule),
            needles::detection_needles(subs.last(), rule),
            n,
        );
    }
}

/// Some detection of the rule looks for that needle in that field.
pub open spec fn rule_asks(rule: CompiledRule, field: Seq<char>, x: Seq<char>) -> bool {
    exists|i: int|
        0 <= i < rule.detections@.len() && asks((#[trigger] rule.detections@[i]).1, field, x)
}

proof fn lemma_named_needles(
    detections: Seq<(String, CompiledDetection)>,
    rule: u32,
    n: NeedleView,
)
    ensures
        needles::named_needles(detections, rule).contains(n) <==> n.rule == rule && exists|i: int|
            0 <= i < detections.len() && asks((#[trigger] detections[i]).1, n.field, n.needle),
    decreases detections.len(),
{
    if detections.len() > 0 {
        let front = detections.drop_last();
        let k = front.len() as int;
        lemma_named_needles(front, rule, n);
        lemma_needles_of_detection(detections[k].1, rule, n);
        lemma_contains_sum(
            needles::named_needles(front, rule),
            needles::detection_needles(detections[k].1, rule),
            n,
        );
        assert forall|i: int| 0 <= i < k implies #[trigger] detections[i] == front[i] by {}
        if exists|i: int|
            0 <= i < front.len() && asks((#[trigger] front[i]).1, n.field, n.needle) {
            let i = choose|i: int|
                0 <= i < front.len() && asks((#[trigger] front[i]).1, n.field, n.needle);
            assert(asks(detections[i].1, n.field, n.needle));
        }
        if exists|i: int|
            0 <= i < detections.len() && asks((#[trigger] detections[i]).1, n.field, n.needle) {
            let i = choose|i: int|
                0 <= i < detections.len() && asks((#[trigger] detections[i]).1, n.field, n.needle);
            if i < k {
                assert(asks(front[i].1, n.field, n.needle));
            }
        }
    }
}

/// The needle is one that the rule at its place looks for.
pub open spec fn belongs(rules: Seq<CompiledRule>, i: int, n: NeedleView) -> bool {
    &&& 0 <= i < rules.len()
    &&& n.rule == (if i <= u32::MAX {
        i
    } else {
        u32::MAX as int
    })
    &&& rule_asks(rules[i], n.field, n.needle)
}

/// The needles of rules are those that each of them looks for, under its place.
pub proof fn lemma_needles_of_rules(rules: Seq<CompiledRule>, n: NeedleView)
    ensures
        needles::rule_needles(rules).contains(n) <==> exists|i: int| #[trigger]
            belongs(rules, i, n),
    decreases rules.len(),
{
    if rules.len() > 0 {
        let front = rules.drop_last();
        let k = front.len() as int;
        lemma_needles_of_rules(front, n);
        lemma_named_needles(rules[k].detections@, needles::rule_number(k), n);
        lemma_contains_sum(
            needles::rule_needles(front),
            needles::named_needles(rules[k].detections@, needles::rule_number(k)),
            n,
        );
        assert forall|i: int| 0 <= i < k implies #[trigger] rules[i] == front[i] by {}
        if exists|i: int| #[trigger] belongs(front, i, n) {
            let i = choose|i: int| #[trigger] belongs(front, i, n);
            assert(belongs(rules, i, n));
        }
        if exists|i: int| #[trigger] belongs(rules, i, n) {
            let i = choose|i: int| #[trigger] belongs(rules, i, n);
            if i < k {
                assert(belongs(front, i, n));
            }
        }
        if needles::named_needles(rules[k].detections@, needles::rule_number(k)).contains(n) {
            assert(belongs(rules, k, n));
        }
    }
}

// ---------------------------------------------------------------------------
// The index
// ---------------------------------------------------------------------------

/// The patterns of a field are its needles, each once, in strictly increasing order.
pub proof fn lemma_patterns_of_field(list: Seq<NeedleView>, field: Seq<char>, x: Seq<char>)
    ensures
        order::ascending(cross_rule_ac::needles_on(list, field)),
        cross_rule_ac::needles_on(list, field).contains(x) <==> exists|i: int|
            0 <= i < list.len() && (#[trigger] list[i]).field == field && list[i].needle == x,
    decreases list.len(),
{
    if list.len() > 0 {
        let front = list.drop_last();
        let k = front.len() as int;
        lemma_patterns_of_field(front, field, x);
        let before = cross_rule_ac::needles_on(front, field);
        assert forall|i: int| 0 <= i < k implies #[trigger] list[i] == front[i] by {}
        if list[k].field == field {
            order::lemma_inserted(before, list[k].needle);
        }
        if exists|i: int|
            0 <= i < front.len() && (#[trigger] front[i]).field == field && front[i].needle == x {
            let i = choose|i: int|
                0 <= i < front.len() && (#[trigger] front[i]).field == field && front[i].needle
                    == x;
            assert(list[i].field == field);
        }
        if exists|i: int|
            0 <= i < list.len() && (#[trigger] list[i]).field == field && list[i].needle == x {
            let i = choose|i: int|
                0 <= i < list.len() && (#[trigger] list[i]).field == field && list[i].needle == x;
            if i < k {
                assert(front[i].field == field);
            }
        }
    }
}

/// A field with up to 100000 needles that together have up to 8388608 bytes is indexed; one
/// with no needle or with more than 100000 is not.
pub proof fn lemma_indexed_fields(ix: IndexView, list: Seq<NeedleView>, field: Seq<char>)
    requires
        cross_rule_ac::indexes(ix, list),
    ensures
        ({
            let patterns = cross_rule_ac::needles_on(list, field);
            &&& 0 < patterns.len() <= 100_000 && cross_rule_ac::total_bytes(
                cross_rule_ac::text_bytes(patterns),
            ) <= 8_388_608 ==> cross_rule_ac::is_indexed(ix, field)
            &&& patterns.len() == 0 || patterns.len() > 100_000 ==> !cross_rule_ac::is_indexed(
                ix,
                field,
            )
        }),
{
}

/// The scan marks a rule if and only if it has a needle on a field that is not indexed, or
/// one on an indexed field whose text holds it, case aside.
pub proof fn lemma_marked_rules(
    ix: IndexView,
    list: Seq<NeedleView>,
    event: Seq<(String, EventValue)>,
    rule: u32,
)
    requires
        cross_rule_ac::indexes(ix, list),
    ensures
        cross_rule_ac::hit(ix, event, rule) <==> exists|n: NeedleView| #[trigger]
            list.contains(n) && n.rule == rule && (!cross_rule_ac::is_indexed(ix, n.field)
                || found(event, n)),
{
    if cross_rule_ac::hit(ix, event, rule) {
        if ix.kept.contains(rule) {
            assert(cross_rule_ac::owns_unindexed(ix, list, rule));
            let n = choose|n: NeedleView| #[trigger]
                list.contains(n) && n.rule == rule && !cross_rule_ac::is_indexed(ix, n.field);
            assert(list.contains(n));
        } else {
            let i = choose|i: int|
                0 <= i < ix.fields.len() && cross_rule_ac::field_hit(
                    #[trigger] ix.fields[i],
                    event,
                    rule,
                );
            let f = ix.fields[i];
            let s = matcher::field_value(event, f.field)->0->Str_0;
            let p = choose|p: int|
                0 <= p < f.patterns.len() && substring::occurs(
                    #[trigger] f.patterns[p],
                    text::ascii_lower(s@),
                ) && f.rules[p].contains(rule);
            let n = NeedleView { field: f.field, needle: f.patterns[p], rule };
            assert(grouping::held_at(ix.fields, i, p, n));
            assert(grouping::held(ix.fields, n));
            assert(list.contains(n));
            assert(found(event, n));
        }
    }
    if exists|n: NeedleView| #[trigger]
        list.contains(n) && n.rule == rule && (!cross_rule_ac::is_indexed(ix, n.field) || found(
            event,
            n,
        )) {
        let n = choose|n: NeedleView| #[trigger]
            list.contains(n) && n.rule == rule && (!cross_rule_ac::is_indexed(ix, n.field) || found(
                event,
                n,
            ));
        if !cross_rule_ac::is_indexed(ix, n.field) {
            assert(cross_rule_ac::owns_unindexed(ix, list, rule));
            assert(ix.kept.contains(rule));
        } else {
            assert(grouping::held(ix.fields, n));
            let (i, p) = choose|i: int, p: int| grouping::held_at(ix.fields, i, p, n);
            assert(substring::occurs(
                ix.fields[i].patterns[p],
                text::ascii_lower(matcher::field_value(event, n.field)->0->Str_0@),
            ));
            assert(cross_rule_ac::field_hit(ix.fields[i], event, rule));
        }
    }
}

/// The text of the needle's field holds the needle, case aside.
pub open spec fn found(event: Seq<(String, EventValue)>, n: NeedleView) -> bool {
    matcher::field_value(event, n.field) matches Some(EventValue::Str(s)) && substring::occurs(
        n.needle,
        text::ascii_lower(s@),
    )
}

// ---------------------------------------------------------------------------
// Rules that need a needle
// ---------------------------------------------------------------------------

/// The matcher does nothing but look for substrings that are not empty: with one of its
/// own, or with some others that it groups.
pub open spec fn only_searches(m: CompiledMatcher) -> bool
    decreases m,
{
    match m {
        CompiledMatcher::Contains { value, .. } => value@.len() > 0,
        CompiledMatcher::StartsWith { value, .. } => value@.len() > 0,
        CompiledMatcher::EndsWith { value, .. } => value@.len() > 0,
        CompiledMatcher::AhoCorasickSet { needles, .. } => none_is_empty(needles@),
        CompiledMatcher::AnyOf(children) => children@.len() > 0 && all_search(children@),
        CompiledMatcher::AllOf(children) => children@.len() > 0 && all_search(children@),
        CompiledMatcher::CaseInsensitiveGroup { children, .. } => children@.len() > 0 && all_search(children@),
        _ => false,
    }
}

/// All the matchers do nothing but look for substrings that are not empty.
pub open spec fn all_search(children: Seq<CompiledMatcher>) -> bool
    decreases children,
{
    children.len() > 0 ==> all_search(children.drop_last()) && only_searches(children.last())
}

/// None of the texts is empty.
pub open spec fn none_is_empty(values: Seq<String>) -> bool {
    forall|i: int| 0 <= i < values.len() ==> (#[trigger] values[i])@.len() > 0
}

proof fn lemma_only_searches(m: CompiledMatcher)
    ensures
        pruning::pure_matcher(m) <==> only_searches(m),
    decreases m,
{
    match m {
        CompiledMatcher::AnyOf(children) => lemma_all_search(children@),
        CompiledMatcher::AllOf(children) => lemma_all_search(children@),
        CompiledMatcher::CaseInsensitiveGroup { children, .. } => lemma_all_search(children@),
        _ => {},
    }
}

proof fn lemma_all_search(children: Seq<CompiledMatcher>)
    ensures
        pruning::all_pure(children) <==> all_search(children),
    decreases children,
{
    if children.len() > 0 {
        lemma_all_search(children.drop_last());
        lemma_only_searches(children.last());
    }
}

/// Every item asks a field, and only for substrings that are not empty; there is one.
pub open spec fn items_search(items: Seq<CompiledDetectionItem>) -> bool {
    items.len() > 0 && forall|i: int|
        0 <= i < items.len() ==> (#[trigger] items[i]).field is Some && items[i].exists is None
            && only_searches(items[i].matcher)
}

/// The detection does nothing but ask fields for substrings that are not empty: with items
/// of its own, or with one of several detections that do.
pub open spec fn detection_searches(d: CompiledDetection) -> bool
    decreases d,
{
    match d {
        CompiledDetection::AllOf(items) => items_search(items@),
        CompiledDetection::AnyOf(subs) => subs@.len() > 0 && all_detections_search(subs@),
        _ => false,
    }
}

/// All the detections do nothing but that.
pub open spec fn all_detections_search(subs: Seq<CompiledDetection>) -> bool
    decreases subs,
{
    subs.len() > 0 ==> all_detections_search(subs.drop_last()) && detection_searches(subs.last())
}

proof fn lemma_detection_searches(d: CompiledDetection)
    ensures
        pruning::pure_detection(d) <==> detection_searches(d),
    decreases d,
{
    match d {
        CompiledDetection::AllOf(items) => {
            assert forall|i: int| 0 <= i < items@.len() implies (pruning::pure_item(
                #[trigger] items@[i],
            ) <==> items@[i].field is Some && items@[i].exists is None && only_searches(
                items@[i].matcher,
            )) by {
                lemma_only_searches(items@[i].matcher);
            }
        },
        CompiledDetection::AnyOf(subs) => lemma_all_detections_search(subs@),
        _ => {},
    }
}

proof fn lemma_all_detections_search(subs: Seq<CompiledDetection>)
    ensures
        pruning::all_pure_detections(subs) <==> all_detections_search(subs),
    decreases subs,
{
    if subs.len() > 0 {
        lemma_all_detections_search(subs.drop_last());
        lemma_detection_searches(subs.last());
    }
}

/// No negation stands anywhere in the condition.
pub open spec fn without_not(c: ConditionExpr) -> bool
    decreases c,
{
    match c {
        ConditionExpr::Not(_) => false,
        ConditionExpr::And(parts) => all_without_not(parts@),
        ConditionExpr::Or(parts) => all_without_not(parts@),
        _ => true,
    }
}

/// No negation stands anywhere in the conditions.
pub open spec fn all_without_not(parts: Seq<ConditionExpr>) -> bool
    decreases parts,
{
    parts.len() > 0 ==> all_without_not(parts.drop_last()) && without_not(parts.last())
}

proof fn lemma_without_not(c: ConditionExpr)
    ensures
        pruning::negation_free(c) <==> without_not(c),
    decreases c,
{
    match c {
        ConditionExpr::And(parts) => lemma_all_without_not(parts@),
        ConditionExpr::Or(parts) => lemma_all_without_not(parts@),
        _ => {},
    }
}

proof fn lemma_all_without_not(parts: Seq<ConditionExpr>)
    ensures
        pruning::all_negation_free(parts) <==> all_without_not(parts),
    decreases parts,
{
    if parts.len() > 0 {
        lemma_all_without_not(parts.drop_last());
        lemma_without_not(parts.last());
    }
}

/// No detection of the rule holds of the event.
pub open spec fn nothing_holds(
    rule: CompiledRule,
    event: Seq<(String, EventValue)>,
    verdicts: Verdicts,
) -> bool {
    forall|i: int|
        0 <= i < rule.detections@.len() ==> !matcher::detection_holds(
            (#[trigger] rule.detections@[i]).1,
            event,
            verdicts,
        )
}

/// A condition without negation needs a detection if and only if it does not hold where no
/// detection does.
pub proof fn lemma_what_needs_a_detection(
    c: ConditionExpr,
    rule: CompiledRule,
    event: Seq<(String, EventValue)>,
    verdicts: Verdicts,
)
    requires
        without_not(c),
        nothing_holds(rule, event, verdicts),
    ensures
        pruning::needs_detection(c, rule.detections@) <==> !matcher::condition_holds(
            c,
            rule,
            event,
            verdicts,
        ),
    decreases c,
{
    match c {
        ConditionExpr::And(parts) => lemma_parts_need(parts@, rule, event, verdicts),
        ConditionExpr::Or(parts) => lemma_parts_need(parts@, rule, event, verdicts),
        ConditionExpr::Selector { quantifier, pattern } => {
            let d = rule.detections@;
            matcher_laws::lemma_selectors_mean(quantifier, pattern, rule, event, verdicts);
            if let Quantifier::Count(n) = quantifier {
                let holding = matcher_laws::chosen(d, pattern, true, event, verdicts);
                assert(holding =~= Set::empty());
            }
            assert(pruning::some_selected(d, pattern) <==> exists|i: int|
                0 <= i < d.len() && selector::selects(pattern, (#[trigger] d[i]).0@));
        },
        _ => {},
    }
}

proof fn lemma_parts_need(
    parts: Seq<ConditionExpr>,
    rule: CompiledRule,
    event: Seq<(String, EventValue)>,
    verdicts: Verdicts,
)
    requires
        all_without_not(parts),
        nothing_holds(rule, event, verdicts),
    ensures
        pruning::some_needs_detection(parts, rule.detections@) <==> !matcher::all_conditions_hold(
            parts,
            rule,
            event,
            verdicts,
        ),
        pruning::all_need_detection(parts, rule.detections@) <==> !matcher::any_condition_holds(
            parts,
            rule,
            event,
            verdicts,
        ),
    decreases parts,
{
    if parts.len() > 0 {
        lemma_parts_need(parts.drop_last(), rule, event, verdicts);
        lemma_what_needs_a_detection(parts.last(), rule, event, verdicts);
    }
}

/// Which rules are left out unless they are marked: those with a detection whose detections
/// do nothing but ask fields for substrings that are not empty, and whose conditions are
/// without negation and each need a detection.
pub proof fn lemma_prunable_rules(rule: CompiledRule)
    ensures
        pruning::prunable(rule) <==> {
            &&& rule.detections@.len() > 0
            &&& forall|i: int|
                0 <= i < rule.detections@.len() ==> detection_searches(
                    (#[trigger] rule.detections@[i]).1,
                )
            &&& all_without_not(rule.conditions@)
            &&& pruning::all_need_detection(rule.conditions@, rule.detections@)
        },
{
    lemma_all_without_not(rule.conditions@);
    assert forall|i: int| 0 <= i < rule.detections@.len() implies (pruning::pure_detection(
        (#[trigger] rule.detections@[i]).1,
    ) <==> detection_searches(rule.detections@[i].1)) by {
        lemma_detection_searches(rule.detections@[i].1);
    }
    if rule.detections@.len() > 0 && (forall|i: int|
        0 <= i < rule.detections@.len() ==> detection_searches((#[trigger] rule.detections@[i]).1)) {
        assert(detection_searches(rule.detections@[0].1));
        pruning::lemma_pure_detection_has_substring(rule.detections@[0].1);
    }
}

/// The index of rules counts them, and is empty if and only if it indexes no field, which
/// is so if the needles of no field get an automaton.
pub proof fn lemma_index_counts(
    rules: &[CompiledRule],
    ix: CrossRuleAcIndex,
    empty: bool,
    fields: usize,
    count: usize,
)
    requires
        call_ensures(CrossRuleAcIndex::build, (rules,), ix),
        call_ensures(CrossRuleAcIndex::is_empty, (&ix,), empty),
        call_ensures(CrossRuleAcIndex::field_count, (&ix,), fields),
        call_ensures(CrossRuleAcIndex::rule_count, (&ix,), count),
    ensures
        count == rules@.len(),
        empty <==> fields == 0,
        empty <==> forall|field: Seq<char>|
            !cross_rule_ac::get_automaton(
                #[trigger] cross_rule_ac::needles_on(needles::rule_needles(rules@), field),
            ),
{
    cross_rule_ac::lemma_empty_index(ix@, needles::rule_needles(rules@));
}

/// An index of nothing marks no rule.
pub proof fn lemma_nothing_marks_nothing(
    ix: CrossRuleAcIndex,
    event: Seq<(String, EventValue)>,
    rule: u32,
)
    requires
        call_ensures(CrossRuleAcIndex::empty, (), ix),
    ensures
        !cross_rule_ac::hit(ix@, event, rule),
        ix@.rule_count == 0,
{
}

} // verus!
