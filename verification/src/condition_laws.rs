//! What a converted condition means.

use crate::ast::ConditionExpr;
use crate::ast::DetectionView;
use crate::ast::Quantifier;
use crate::ast::SelectorPattern;
use crate::condition::Backend;
use crate::condition::ConvertErrorView;
use crate::condition;
use crate::matcher::CompiledRule;
use crate::matcher::EventValue;
use crate::matcher::Verdicts;
use crate::matcher;
use crate::selector;
use crate::table;
use crate::text;
use vstd::prelude::*;

verus! {

/// The fragments of a backend mean something, `means` telling which of them hold of an
/// event: that of a detection holds where the detection does, fragments linked by AND
/// hold where all of them do, by OR where one of them does, and a negated fragment
/// holds where the fragment does not.
pub open spec fn denotes<S, B: Backend<S>>(
    backend: &B,
    means: spec_fn(Seq<char>) -> bool,
    truth: spec_fn(DetectionView) -> bool,
) -> bool {
    &&& forall|d: DetectionView, state: S|
        match (#[trigger] backend.detection_fragment(d, state)).0 {
            Ok(f) => means(f) == truth(d),
            Err(_) => true,
        }
    &&& forall|parts: Seq<Seq<char>>|
        match #[trigger] backend.and_fragment(parts) {
            Ok(f) => means(f) == all_mean(means, parts),
            Err(_) => true,
        }
    &&& forall|parts: Seq<Seq<char>>|
        match #[trigger] backend.or_fragment(parts) {
            Ok(f) => means(f) == some_means(means, parts),
            Err(_) => true,
        }
    &&& forall|part: Seq<char>|
        match #[trigger] backend.not_fragment(part) {
            Ok(f) => means(f) == !means(part),
            Err(_) => true,
        }
}

/// All the fragments hold.
pub open spec fn all_mean(means: spec_fn(Seq<char>) -> bool, parts: Seq<Seq<char>>) -> bool {
    forall|i: int| 0 <= i < parts.len() ==> means(#[trigger] parts[i])
}

/// Some fragment holds.
pub open spec fn some_means(means: spec_fn(Seq<char>) -> bool, parts: Seq<Seq<char>>) -> bool {
    exists|i: int| 0 <= i < parts.len() && means(#[trigger] parts[i])
}

/// The compiled rule has the same detections under the same names, and each holds of
/// the event as `truth` tells; no name stands twice.
pub open spec fn compiles(
    detections: Seq<(Seq<char>, DetectionView)>,
    truth: spec_fn(DetectionView) -> bool,
    rule: CompiledRule,
    event: Seq<(String, EventValue)>,
    verdicts: Verdicts,
) -> bool {
    &&& table::distinct(detections)
    &&& rule.detections@.len() == detections.len()
    &&& forall|i: int|
        0 <= i < detections.len() ==> (#[trigger] rule.detections@[i]).0@ == detections[i].0
            && matcher::detection_holds(rule.detections@[i].1, event, verdicts) == truth(
            detections[i].1,
        )
}

/// How many of the detections hold.
spec fn count_true(ds: Seq<DetectionView>, truth: spec_fn(DetectionView) -> bool) -> nat
    decreases ds.len(),
{
    if ds.len() == 0 {
        0
    } else {
        count_true(ds.drop_last(), truth) + (if truth(ds.last()) {
            1nat
        } else {
            0
        })
    }
}

proof fn lemma_count_true(ds: Seq<DetectionView>, truth: spec_fn(DetectionView) -> bool)
    ensures
        count_true(ds, truth) <= ds.len(),
        count_true(ds, truth) == ds.len() <==> forall|i: int|
            0 <= i < ds.len() ==> truth(#[trigger] ds[i]),
        count_true(ds, truth) >= 1 <==> exists|i: int| 0 <= i < ds.len() && truth(#[trigger] ds[i]),
    decreases ds.len(),
{
    if ds.len() > 0 {
        let front = ds.drop_last();
        lemma_count_true(front, truth);
        assert(ds.last() == ds[ds.len() - 1]);
        if forall|i: int| 0 <= i < ds.len() ==> truth(#[trigger] ds[i]) {
            assert forall|i: int| 0 <= i < front.len() implies truth(#[trigger] front[i]) by {
                assert(front[i] == ds[i]);
            }
        }
        if forall|i: int| 0 <= i < front.len() ==> truth(#[trigger] front[i]) {
            assert forall|i: int| 0 <= i < front.len() implies truth(#[trigger] ds[i]) by {
                assert(front[i] == ds[i]);
            }
        }
        if exists|i: int| 0 <= i < ds.len() && truth(#[trigger] ds[i]) {
            let i = choose|i: int| 0 <= i < ds.len() && truth(#[trigger] ds[i]);
            if i < front.len() {
                assert(front[i] == ds[i]);
            }
        }
        if exists|i: int| 0 <= i < front.len() && truth(#[trigger] front[i]) {
            let i = choose|i: int| 0 <= i < front.len() && truth(#[trigger] front[i]);
            assert(ds[i] == front[i]);
        }
    }
}

/// The detections that are selected, counted in the compiled rule.
proof fn lemma_counts_agree(
    detections: Seq<(Seq<char>, DetectionView)>,
    truth: spec_fn(DetectionView) -> bool,
    rule: CompiledRule,
    event: Seq<(String, EventValue)>,
    verdicts: Verdicts,
    pattern: SelectorPattern,
    n: int,
)
    requires
        compiles(detections, truth, rule, event, verdicts),
        0 <= n <= detections.len(),
    ensures
        matcher::selected_count(rule.detections@.take(n), pattern, true, event, verdicts)
            == count_true(condition::selected(detections.take(n), pattern), truth),
        matcher::selected_count(rule.detections@.take(n), pattern, false, event, verdicts)
            == condition::selected(detections.take(n), pattern).len(),
    decreases n,
{
    if n > 0 {
        lemma_counts_agree(detections, truth, rule, event, verdicts, pattern, n - 1);
        let compiled = rule.detections@.take(n);
        let named = detections.take(n);
        assert(compiled.drop_last() =~= rule.detections@.take(n - 1));
        assert(named.drop_last() =~= detections.take(n - 1));
        assert(compiled.last() == rule.detections@[n - 1]);
        assert(named.last() == detections[n - 1]);
        let before = condition::selected(detections.take(n - 1), pattern);
        assert(before.push(named.last().1).drop_last() =~= before);
    }
}

/// Fragments of detections hold where the detections do.
proof fn lemma_detections_mean<S, B: Backend<S>>(
    backend: &B,
    means: spec_fn(Seq<char>) -> bool,
    truth: spec_fn(DetectionView) -> bool,
    ds: Seq<DetectionView>,
    state: S,
)
    requires
        denotes(backend, means, truth),
        condition::detection_fragments(backend, ds, state).0 is Ok,
    ensures
        condition::detection_fragments(backend, ds, state).0->Ok_0.len() == ds.len(),
        forall|i: int|
            0 <= i < ds.len() ==> means(
                #[trigger] condition::detection_fragments(backend, ds, state).0->Ok_0[i],
            ) == truth(ds[i]),
    decreases ds.len(),
{
    if ds.len() > 0 {
        lemma_detections_mean(backend, means, truth, ds.drop_last(), state);
    }
}

/// All and any of a list of conditions.
proof fn lemma_lists_hold(
    parts: Seq<ConditionExpr>,
    rule: CompiledRule,
    event: Seq<(String, EventValue)>,
    verdicts: Verdicts,
)
    ensures
        matcher::all_conditions_hold(parts, rule, event, verdicts) <==> forall|i: int|
            0 <= i < parts.len() ==> matcher::condition_holds(
                #[trigger] parts[i],
                rule,
                event,
                verdicts,
            ),
        matcher::any_condition_holds(parts, rule, event, verdicts) <==> exists|i: int|
            0 <= i < parts.len() && matcher::condition_holds(
                #[trigger] parts[i],
                rule,
                event,
                verdicts,
            ),
    decreases parts.len(),
{
    if parts.len() > 0 {
        let front = parts.drop_last();
        lemma_lists_hold(front, rule, event, verdicts);
        assert(parts.last() == parts[parts.len() - 1]);
        assert forall|i: int| 0 <= i < front.len() implies #[trigger] front[i] == parts[i] by {}
        if matcher::any_condition_holds(front, rule, event, verdicts) {
            let i = choose|i: int|
                0 <= i < front.len() && matcher::condition_holds(
                    #[trigger] front[i],
                    rule,
                    event,
                    verdicts,
                );
            assert(matcher::condition_holds(parts[i], rule, event, verdicts));
        }
        if exists|i: int|
            0 <= i < parts.len() && matcher::condition_holds(
                #[trigger] parts[i],
                rule,
                event,
                verdicts,
            ) {
            let i = choose|i: int|
                0 <= i < parts.len() && matcher::condition_holds(
                    #[trigger] parts[i],
                    rule,
                    event,
                    verdicts,
                );
            if i < front.len() {
                assert(matcher::condition_holds(front[i], rule, event, verdicts));
            }
        }
        if forall|i: int|
            0 <= i < parts.len() ==> matcher::condition_holds(
                #[trigger] parts[i],
                rule,
                event,
                verdicts,
            ) {
            assert forall|i: int| 0 <= i < front.len() implies matcher::condition_holds(
                #[trigger] front[i],
                rule,
                event,
                verdicts,
            ) by {
                assert(matcher::condition_holds(parts[i], rule, event, verdicts));
            }
        }
        if matcher::all_conditions_hold(parts, rule, event, verdicts) {
            assert forall|i: int| 0 <= i < parts.len() implies matcher::condition_holds(
                #[trigger] parts[i],
                rule,
                event,
                verdicts,
            ) by {
                if i < front.len() {
                    assert(matcher::condition_holds(front[i], rule, event, verdicts));
                }
            }
        }
    }
}

/// A query means what the condition does: for every backend whose fragments mean
/// something, what a condition is converted to holds of an event if and only if the
/// condition does, whatever stands in the condition.
pub proof fn lemma_query_means_condition<S, B: Backend<S>>(
    backend: &B,
    means: spec_fn(Seq<char>) -> bool,
    truth: spec_fn(DetectionView) -> bool,
    expr: ConditionExpr,
    detections: Seq<(Seq<char>, DetectionView)>,
    state: S,
    rule: CompiledRule,
    event: Seq<(String, EventValue)>,
    verdicts: Verdicts,
)
    requires
        denotes(backend, means, truth),
        compiles(detections, truth, rule, event, verdicts),
    ensures
        match condition::condition_fragment(backend, expr, detections, state).0 {
            Ok(f) => means(f) == matcher::condition_holds(expr, rule, event, verdicts),
            Err(_) => true,
        },
    decreases expr,
{
    if condition::condition_fragment(backend, expr, detections, state).0 is Ok {
        match expr {
            ConditionExpr::Identifier(name) => {
                table::lemma_position(detections, name@);
                let k = table::position(detections, name@);
                assert(rule.detections@[k].0@ == detections[k].0);
                let d = backend.detection_fragment(detections[k].1, state);
                if matcher::named_holds(rule, name@, event, verdicts) {
                    let i = choose|i: int|
                        0 <= i < rule.detections@.len() && (#[trigger] rule.detections@[i]).0@
                            == name@ && matcher::detection_holds(
                            rule.detections@[i].1,
                            event,
                            verdicts,
                        );
                    assert(detections[i].0 == name@);
                    assert(i == k);
                }
            },
            ConditionExpr::And(exprs) => {
                lemma_queries_mean_conditions(
                    backend,
                    means,
                    truth,
                    exprs@,
                    detections,
                    state,
                    rule,
                    event,
                    verdicts,
                );
                lemma_lists_hold(exprs@, rule, event, verdicts);
                let parts = condition::condition_fragments(backend, exprs@, detections, state).0->Ok_0;
                assert(backend.and_fragment(parts) is Ok);
                if all_mean(means, parts) {
                    assert forall|i: int| 0 <= i < exprs@.len() implies matcher::condition_holds(
                        #[trigger] exprs@[i],
                        rule,
                        event,
                        verdicts,
                    ) by {
                        assert(means(parts[i]));
                    }
                }
            },
            ConditionExpr::Or(exprs) => {
                lemma_queries_mean_conditions(
                    backend,
                    means,
                    truth,
                    exprs@,
                    detections,
                    state,
                    rule,
                    event,
                    verdicts,
                );
                lemma_lists_hold(exprs@, rule, event, verdicts);
                let parts = condition::condition_fragments(backend, exprs@, detections, state).0->Ok_0;
                assert(backend.or_fragment(parts) is Ok);
                if matcher::any_condition_holds(exprs@, rule, event, verdicts) {
                    let i = choose|i: int|
                        0 <= i < exprs@.len() && matcher::condition_holds(
                            #[trigger] exprs@[i],
                            rule,
                            event,
                            verdicts,
                        );
                    assert(means(parts[i]));
                }
            },
            ConditionExpr::Not(inner) => {
                lemma_query_means_condition(
                    backend,
                    means,
                    truth,
                    *inner,
                    detections,
                    state,
                    rule,
                    event,
                    verdicts,
                );
                let part = condition::condition_fragment(backend, *inner, detections, state).0->Ok_0;
                assert(backend.not_fragment(part) is Ok);
            },
            ConditionExpr::Selector { quantifier, pattern } => {
                let ds = condition::selected(detections, pattern);
                let n = detections.len() as int;
                lemma_counts_agree(detections, truth, rule, event, verdicts, pattern, n);
                assert(detections.take(n) =~= detections);
                assert(rule.detections@.take(n) =~= rule.detections@);
                lemma_count_true(ds, truth);
                lemma_detections_mean(backend, means, truth, ds, state);
                let parts = condition::detection_fragments(backend, ds, state).0->Ok_0;
                assert(all_mean(means, parts) == forall|i: int|
                    0 <= i < ds.len() ==> truth(#[trigger] ds[i])) by {
                    if all_mean(means, parts) {
                        assert forall|i: int| 0 <= i < ds.len() implies truth(#[trigger] ds[i]) by {
                            assert(means(parts[i]));
                        }
                    }
                }
                assert(some_means(means, parts) == exists|i: int|
                    0 <= i < ds.len() && truth(#[trigger] ds[i])) by {
                    if exists|i: int| 0 <= i < ds.len() && truth(#[trigger] ds[i]) {
                        let i = choose|i: int| 0 <= i < ds.len() && truth(#[trigger] ds[i]);
                        assert(means(parts[i]));
                    }
                }
                match quantifier {
                    Quantifier::All => {
                        assert(backend.and_fragment(parts) is Ok);
                    },
                    _ => {
                        assert(backend.or_fragment(parts) is Ok);
                    },
                }
            },
        }
    }
}

proof fn lemma_queries_mean_conditions<S, B: Backend<S>>(
    backend: &B,
    means: spec_fn(Seq<char>) -> bool,
    truth: spec_fn(DetectionView) -> bool,
    exprs: Seq<ConditionExpr>,
    detections: Seq<(Seq<char>, DetectionView)>,
    state: S,
    rule: CompiledRule,
    event: Seq<(String, EventValue)>,
    verdicts: Verdicts,
)
    requires
        denotes(backend, means, truth),
        compiles(detections, truth, rule, event, verdicts),
        condition::condition_fragments(backend, exprs, detections, state).0 is Ok,
    ensures
        condition::condition_fragments(backend, exprs, detections, state).0->Ok_0.len()
            == exprs.len(),
        forall|i: int|
            0 <= i < exprs.len() ==> means(
                #[trigger] condition::condition_fragments(
                    backend,
                    exprs,
                    detections,
                    state,
                ).0->Ok_0[i],
            ) == matcher::condition_holds(exprs[i], rule, event, verdicts),
    decreases exprs,
{
    if exprs.len() > 0 {
        let front = exprs.drop_last();
        lemma_queries_mean_conditions(
            backend,
            means,
            truth,
            front,
            detections,
            state,
            rule,
            event,
            verdicts,
        );
        let (before, after) = condition::condition_fragments(backend, front, detections, state);
        lemma_query_means_condition(
            backend,
            means,
            truth,
            exprs.last(),
            detections,
            after,
            rule,
            event,
            verdicts,
        );
    }
}

/// Negating a condition negates its query, whatever the condition is, and a failure of
/// the condition is the failure of its negation.
pub proof fn lemma_negation_is_converted<S, B: Backend<S>>(
    backend: &B,
    inner: Box<ConditionExpr>,
    detections: Seq<(Seq<char>, DetectionView)>,
    state: S,
)
    ensures
        match condition::condition_fragment(backend, *inner, detections, state) {
            (Ok(part), after) => condition::condition_fragment(
                backend,
                ConditionExpr::Not(inner),
                detections,
                state,
            ) == (backend.not_fragment(part), after),
            (Err(e), after) => condition::condition_fragment(
                backend,
                ConditionExpr::Not(inner),
                detections,
                state,
            ) == (Err::<Seq<char>, ConvertErrorView>(e), after),
        },
{
}

// ---------------------------------------------------------------------------
// When a condition is converted
// ---------------------------------------------------------------------------

/// A backend that converts everything.
pub open spec fn never_fails<S, B: Backend<S>>(backend: &B) -> bool {
    &&& forall|d: DetectionView, state: S| (#[trigger] backend.detection_fragment(d, state)).0 is Ok
    &&& forall|parts: Seq<Seq<char>>| (#[trigger] backend.and_fragment(parts)) is Ok
    &&& forall|parts: Seq<Seq<char>>| (#[trigger] backend.or_fragment(parts)) is Ok
    &&& forall|part: Seq<char>| (#[trigger] backend.not_fragment(part)) is Ok
}

/// Some detection has that name.
pub open spec fn is_named(detections: Seq<(Seq<char>, DetectionView)>, name: Seq<char>) -> bool {
    exists|i: int| 0 <= i < detections.len() && (#[trigger] detections[i]).0 == name
}

/// Some detection is selected.
pub open spec fn some_selected(
    detections: Seq<(Seq<char>, DetectionView)>,
    pattern: SelectorPattern,
) -> bool {
    exists|i: int|
        0 <= i < detections.len() && selector::selects(pattern, (#[trigger] detections[i]).0)
}

/// Every name in the condition is that of a detection, every selector selects some
/// detection, and none asks for another number of them than one, any or all.
pub open spec fn convertible(
    expr: ConditionExpr,
    detections: Seq<(Seq<char>, DetectionView)>,
) -> bool
    decreases expr,
{
    match expr {
        ConditionExpr::Identifier(name) => is_named(detections, name@),
        ConditionExpr::And(exprs) => all_convertible(exprs@, detections),
        ConditionExpr::Or(exprs) => all_convertible(exprs@, detections),
        ConditionExpr::Not(inner) => convertible(*inner, detections),
        ConditionExpr::Selector { quantifier, pattern } => some_selected(detections, pattern) && (
        quantifier matches Quantifier::Count(n) ==> n == 1),
    }
}

/// All the conditions can be converted.
pub open spec fn all_convertible(
    exprs: Seq<ConditionExpr>,
    detections: Seq<(Seq<char>, DetectionView)>,
) -> bool
    decreases exprs,
{
    exprs.len() > 0 ==> all_convertible(exprs.drop_last(), detections) && convertible(
        exprs.last(),
        detections,
    )
}

proof fn lemma_selected_some(
    detections: Seq<(Seq<char>, DetectionView)>,
    pattern: SelectorPattern,
)
    ensures
        condition::selected(detections, pattern).len() > 0 <==> some_selected(detections, pattern),
    decreases detections.len(),
{
    if detections.len() > 0 {
        let front = detections.drop_last();
        lemma_selected_some(front, pattern);
        assert(detections.last() == detections[detections.len() - 1]);
        if some_selected(front, pattern) {
            let i = choose|i: int|
                0 <= i < front.len() && selector::selects(pattern, (#[trigger] front[i]).0);
            assert(detections[i] == front[i]);
        }
        if some_selected(detections, pattern) {
            let i = choose|i: int|
                0 <= i < detections.len() && selector::selects(
                    pattern,
                    (#[trigger] detections[i]).0,
                );
            if i < front.len() {
                assert(front[i] == detections[i]);
            }
        }
    }
}

proof fn lemma_detections_converted<S, B: Backend<S>>(
    backend: &B,
    ds: Seq<DetectionView>,
    state: S,
)
    requires
        never_fails(backend),
    ensures
        condition::detection_fragments(backend, ds, state).0 is Ok,
    decreases ds.len(),
{
    if ds.len() > 0 {
        lemma_detections_converted(backend, ds.drop_last(), state);
    }
}

/// A backend that converts everything converts a condition if and only if the condition
/// can be converted.
pub proof fn lemma_what_is_converted<S, B: Backend<S>>(
    backend: &B,
    expr: ConditionExpr,
    detections: Seq<(Seq<char>, DetectionView)>,
    state: S,
)
    requires
        never_fails(backend),
    ensures
        condition::condition_fragment(backend, expr, detections, state).0 is Ok <==> convertible(
            expr,
            detections,
        ),
    decreases expr,
{
    match expr {
        ConditionExpr::Identifier(name) => {
            table::lemma_position(detections, name@);
            let k = table::position(detections, name@);
            if k < detections.len() {
                assert(detections[k].0 == name@);
            }
        },
        ConditionExpr::And(exprs) => lemma_what_is_converted_all(
            backend,
            exprs@,
            detections,
            state,
        ),
        ConditionExpr::Or(exprs) => lemma_what_is_converted_all(backend, exprs@, detections, state),
        ConditionExpr::Not(inner) => lemma_what_is_converted(backend, *inner, detections, state),
        ConditionExpr::Selector { quantifier, pattern } => {
            lemma_selected_some(detections, pattern);
            lemma_detections_converted(backend, condition::selected(detections, pattern), state);
        },
    }
}

proof fn lemma_what_is_converted_all<S, B: Backend<S>>(
    backend: &B,
    exprs: Seq<ConditionExpr>,
    detections: Seq<(Seq<char>, DetectionView)>,
    state: S,
)
    requires
        never_fails(backend),
    ensures
        condition::condition_fragments(backend, exprs, detections, state).0 is Ok
            <==> all_convertible(exprs, detections),
    decreases exprs,
{
    if exprs.len() > 0 {
        let front = exprs.drop_last();
        lemma_what_is_converted_all(backend, front, detections, state);
        let (before, after) = condition::condition_fragments(backend, front, detections, state);
        lemma_what_is_converted(backend, exprs.last(), detections, after);
    }
}

/// What is said of a name that no detection has, of a selector that selects none, and
/// of a number of detections that cannot be asked for.
pub proof fn lemma_why_not_converted<S, B: Backend<S>>(
    backend: &B,
    name: String,
    n: u64,
    pattern: SelectorPattern,
    quantifier: Quantifier,
    detections: Seq<(Seq<char>, DetectionView)>,
    state: S,
)
    requires
        never_fails(backend),
    ensures
        !is_named(detections, name@) ==> condition::condition_fragment(
            backend,
            ConditionExpr::Identifier(name),
            detections,
            state,
        ).0 == Err::<Seq<char>, ConvertErrorView>(
            ConvertErrorView::RuleConversion("detection '"@ + name@ + "' not found"@),
        ),
        !some_selected(detections, pattern) ==> condition::condition_fragment(
            backend,
            (ConditionExpr::Selector { quantifier, pattern }),
            detections,
            state,
        ).0 == Err::<Seq<char>, ConvertErrorView>(
            ConvertErrorView::RuleConversion("selector matched no detections"@),
        ),
        some_selected(detections, pattern) && n != 1 ==> condition::condition_fragment(
            backend,
            (ConditionExpr::Selector { quantifier: Quantifier::Count(n), pattern }),
            detections,
            state,
        ).0 == Err::<Seq<char>, ConvertErrorView>(
            ConvertErrorView::RuleConversion(
                "'"@ + text::decimal(n as nat) + " of' quantifier not supported in conversion"@,
            ),
        ),
{
    table::lemma_position(detections, name@);
    lemma_selected_some(detections, pattern);
    lemma_detections_converted(backend, condition::selected(detections, pattern), state);
    let k = table::position(detections, name@);
    if k < detections.len() {
        assert(detections[k].0 == name@);
    }
}

// ---------------------------------------------------------------------------
// What a backend notes
// ---------------------------------------------------------------------------

/// The detections that a condition speaks of, from left to right.
pub open spec fn spoken_of(
    expr: ConditionExpr,
    detections: Seq<(Seq<char>, DetectionView)>,
) -> Seq<DetectionView>
    decreases expr,
{
    match expr {
        ConditionExpr::Identifier(name) => match table::value_of(detections, name@) {
            Some(d) => seq![d],
            None => Seq::empty(),
        },
        ConditionExpr::And(exprs) => all_spoken_of(exprs@, detections),
        ConditionExpr::Or(exprs) => all_spoken_of(exprs@, detections),
        ConditionExpr::Not(inner) => spoken_of(*inner, detections),
        ConditionExpr::Selector { pattern, .. } => condition::selected(detections, pattern),
    }
}

/// The detections that the conditions speak of, one condition behind the other.
pub open spec fn all_spoken_of(
    exprs: Seq<ConditionExpr>,
    detections: Seq<(Seq<char>, DetectionView)>,
) -> Seq<DetectionView>
    decreases exprs,
{
    if exprs.len() == 0 {
        Seq::empty()
    } else {
        all_spoken_of(exprs.drop_last(), detections) + spoken_of(exprs.last(), detections)
    }
}

/// What a backend has noted after it has converted the detections, in their order.
pub open spec fn notes<S, B: Backend<S>>(backend: &B, ds: Seq<DetectionView>, state: S) -> S
    decreases ds.len(),
{
    if ds.len() == 0 {
        state
    } else {
        backend.detection_fragment(ds.last(), notes(backend, ds.drop_last(), state)).1
    }
}

proof fn lemma_notes_add<S, B: Backend<S>>(
    backend: &B,
    a: Seq<DetectionView>,
    b: Seq<DetectionView>,
    state: S,
)
    ensures
        notes(backend, a + b, state) == notes(backend, b, notes(backend, a, state)),
    decreases b.len(),
{
    if b.len() == 0 {
        assert(a + b =~= a);
    } else {
        assert((a + b).drop_last() =~= a + b.drop_last());
        lemma_notes_add(backend, a, b.drop_last(), state);
    }
}

proof fn lemma_detection_notes<S, B: Backend<S>>(backend: &B, ds: Seq<DetectionView>, state: S)
    requires
        condition::detection_fragments(backend, ds, state).0 is Ok,
    ensures
        condition::detection_fragments(backend, ds, state).1 == notes(backend, ds, state),
    decreases ds.len(),
{
    if ds.len() > 0 {
        lemma_detection_notes(backend, ds.drop_last(), state);
    }
}

/// Converting a condition converts the detections that it speaks of, each where it is
/// spoken of, from left to right and no others: the backend has noted just that.
pub proof fn lemma_detections_are_converted_in_order<S, B: Backend<S>>(
    backend: &B,
    expr: ConditionExpr,
    detections: Seq<(Seq<char>, DetectionView)>,
    state: S,
)
    requires
        condition::condition_fragment(backend, expr, detections, state).0 is Ok,
    ensures
        condition::condition_fragment(backend, expr, detections, state).1 == notes(
            backend,
            spoken_of(expr, detections),
            state,
        ),
    decreases expr,
{
    match expr {
        ConditionExpr::Identifier(name) => {
            let d = table::value_of(detections, name@)->0;
            assert(seq![d].drop_last() =~= Seq::empty());
            assert(notes(backend, seq![d].drop_last(), state) == state);
        },
        ConditionExpr::And(exprs) => lemma_noted_in_order(backend, exprs@, detections, state),
        ConditionExpr::Or(exprs) => lemma_noted_in_order(backend, exprs@, detections, state),
        ConditionExpr::Not(inner) => lemma_detections_are_converted_in_order(
            backend,
            *inner,
            detections,
            state,
        ),
        ConditionExpr::Selector { pattern, .. } => lemma_detection_notes(
            backend,
            condition::selected(detections, pattern),
            state,
        ),
    }
}

proof fn lemma_noted_in_order<S, B: Backend<S>>(
    backend: &B,
    exprs: Seq<ConditionExpr>,
    detections: Seq<(Seq<char>, DetectionView)>,
    state: S,
)
    requires
        condition::condition_fragments(backend, exprs, detections, state).0 is Ok,
    ensures
        condition::condition_fragments(backend, exprs, detections, state).1 == notes(
            backend,
            all_spoken_of(exprs, detections),
            state,
        ),
    decreases exprs,
{
    if exprs.len() > 0 {
        let front = exprs.drop_last();
        lemma_noted_in_order(backend, front, detections, state);
        let after = condition::condition_fragments(backend, front, detections, state).1;
        lemma_detections_are_converted_in_order(backend, exprs.last(), detections, after);
        lemma_notes_add(
            backend,
            all_spoken_of(front, detections),
            spoken_of(exprs.last(), detections),
            state,
        );
    }
}

// ---------------------------------------------------------------------------
// The order of the fragments
// ---------------------------------------------------------------------------

/// What the condition at place `i` is converted to, behind those before it.
pub open spec fn query_at<S, B: Backend<S>>(
    backend: &B,
    exprs: Seq<ConditionExpr>,
    detections: Seq<(Seq<char>, DetectionView)>,
    state: S,
    i: int,
) -> Result<Seq<char>, ConvertErrorView> {
    condition::condition_fragment(
        backend,
        exprs[i],
        detections,
        notes(backend, all_spoken_of(exprs.take(i), detections), state),
    ).0
}

/// `parts` are the queries of the conditions, each converted behind those before it.
pub open spec fn queries_of<S, B: Backend<S>>(
    backend: &B,
    exprs: Seq<ConditionExpr>,
    detections: Seq<(Seq<char>, DetectionView)>,
    state: S,
    parts: Seq<Seq<char>>,
) -> bool {
    &&& parts.len() == exprs.len()
    &&& forall|i: int|
        0 <= i < exprs.len() ==> #[trigger] query_at(backend, exprs, detections, state, i) == Ok::<
            Seq<char>,
            ConvertErrorView,
        >(parts[i])
}

/// `parts` are the queries of the detections, each converted behind those before it.
pub open spec fn fragments_of<S, B: Backend<S>>(
    backend: &B,
    ds: Seq<DetectionView>,
    state: S,
    parts: Seq<Seq<char>>,
) -> bool {
    &&& parts.len() == ds.len()
    &&& forall|i: int|
        0 <= i < ds.len() ==> backend.detection_fragment(
            #[trigger] ds[i],
            notes(backend, ds.take(i), state),
        ).0 == Ok::<Seq<char>, ConvertErrorView>(parts[i])
}

proof fn lemma_queries_of<S, B: Backend<S>>(
    backend: &B,
    exprs: Seq<ConditionExpr>,
    detections: Seq<(Seq<char>, DetectionView)>,
    state: S,
    parts: Seq<Seq<char>>,
)
    requires
        queries_of(backend, exprs, detections, state, parts),
    ensures
        condition::condition_fragments(backend, exprs, detections, state).0 == Ok::<
            Seq<Seq<char>>,
            ConvertErrorView,
        >(parts),
    decreases exprs.len(),
{
    if exprs.len() > 0 {
        let front = exprs.drop_last();
        let n = exprs.len() - 1;
        assert(queries_of(backend, front, detections, state, parts.drop_last())) by {
            lemma_front_queries(backend, exprs, detections, state, parts);
        }
        lemma_queries_of(backend, front, detections, state, parts.drop_last());
        lemma_noted_in_order(backend, front, detections, state);
        assert(exprs.take(n) =~= front);
        assert(exprs[n] == exprs.last());
        assert(query_at(backend, exprs, detections, state, n) == Ok::<
            Seq<char>,
            ConvertErrorView,
        >(parts[n]));
        assert(parts.drop_last().push(parts[n]) =~= parts);
    } else {
        assert(parts =~= Seq::empty());
    }
}

proof fn lemma_front_queries<S, B: Backend<S>>(
    backend: &B,
    exprs: Seq<ConditionExpr>,
    detections: Seq<(Seq<char>, DetectionView)>,
    state: S,
    parts: Seq<Seq<char>>,
)
    requires
        exprs.len() > 0,
        queries_of(backend, exprs, detections, state, parts),
    ensures
        queries_of(backend, exprs.drop_last(), detections, state, parts.drop_last()),
{
    let front = exprs.drop_last();
    assert forall|i: int| 0 <= i < front.len() implies #[trigger] query_at(
        backend,
        front,
        detections,
        state,
        i,
    ) == Ok::<Seq<char>, ConvertErrorView>(parts.drop_last()[i]) by {
        assert(front.take(i) =~= exprs.take(i));
        assert(query_at(backend, exprs, detections, state, i) == Ok::<Seq<char>, ConvertErrorView>(
            parts[i],
        ));
    }
}

proof fn lemma_fragments_of<S, B: Backend<S>>(
    backend: &B,
    ds: Seq<DetectionView>,
    state: S,
    parts: Seq<Seq<char>>,
)
    requires
        fragments_of(backend, ds, state, parts),
    ensures
        condition::detection_fragments(backend, ds, state).0 == Ok::<
            Seq<Seq<char>>,
            ConvertErrorView,
        >(parts),
    decreases ds.len(),
{
    if ds.len() > 0 {
        let front = ds.drop_last();
        let n = ds.len() - 1;
        assert forall|i: int| 0 <= i < front.len() implies backend.detection_fragment(
            #[trigger] front[i],
            notes(backend, front.take(i), state),
        ).0 == Ok::<Seq<char>, ConvertErrorView>(parts.drop_last()[i]) by {
            assert(front[i] == ds[i]);
            assert(front.take(i) =~= ds.take(i));
        }
        lemma_fragments_of(backend, front, state, parts.drop_last());
        lemma_detection_notes(backend, front, state);
        assert(ds.take(n) =~= front);
        assert(ds[n] == ds.last());
        assert(parts.drop_last().push(parts[n]) =~= parts);
    } else {
        assert(parts =~= Seq::empty());
    }
}

/// Fragments are linked in the order of the conditions and of the detections that they
/// come from, each once.
pub proof fn lemma_fragments_keep_their_order<S, B: Backend<S>>(
    backend: &B,
    exprs: Vec<ConditionExpr>,
    pattern: SelectorPattern,
    detections: Seq<(Seq<char>, DetectionView)>,
    state: S,
    parts: Seq<Seq<char>>,
)
    ensures
        queries_of(backend, exprs@, detections, state, parts) ==> condition::condition_fragment(
            backend,
            ConditionExpr::And(exprs),
            detections,
            state,
        ).0 == backend.and_fragment(parts) && condition::condition_fragment(
            backend,
            ConditionExpr::Or(exprs),
            detections,
            state,
        ).0 == backend.or_fragment(parts),
        parts.len() > 0 && fragments_of(
            backend,
            condition::selected(detections, pattern),
            state,
            parts,
        ) ==> {
            &&& condition::condition_fragment(
                backend,
                ConditionExpr::Selector { quantifier: Quantifier::All, pattern },
                detections,
                state,
            ).0 == backend.and_fragment(parts)
            &&& condition::condition_fragment(
                backend,
                ConditionExpr::Selector { quantifier: Quantifier::Any, pattern },
                detections,
                state,
            ).0 == backend.or_fragment(parts)
            &&& condition::condition_fragment(
                backend,
                ConditionExpr::Selector { quantifier: Quantifier::Count(1), pattern },
                detections,
                state,
            ).0 == backend.or_fragment(parts)
        },
{
    if queries_of(backend, exprs@, detections, state, parts) {
        lemma_queries_of(backend, exprs@, detections, state, parts);
    }
    if fragments_of(backend, condition::selected(detections, pattern), state, parts) {
        lemma_fragments_of(backend, condition::selected(detections, pattern), state, parts);
    }
}

/// A selection keeps the order of the detections: what is selected from two lists, one
/// behind the other, is what is selected from the first and then from the second, and
/// of one detection it is that detection or none.
pub proof fn lemma_selection_keeps_order(
    a: Seq<(Seq<char>, DetectionView)>,
    b: Seq<(Seq<char>, DetectionView)>,
    name: Seq<char>,
    d: DetectionView,
    pattern: SelectorPattern,
)
    ensures
        condition::selected(a + b, pattern) == condition::selected(a, pattern)
            + condition::selected(b, pattern),
        selector::selects(pattern, name) ==> condition::selected(seq![(name, d)], pattern)
            == seq![d],
        !selector::selects(pattern, name) ==> condition::selected(seq![(name, d)], pattern).len()
            == 0,
    decreases b.len(),
{
    let one = seq![(name, d)];
    assert(one.drop_last() =~= Seq::empty());
    assert(condition::selected(one.drop_last(), pattern) =~= Seq::empty());
    assert(one.last() == (name, d));
    if b.len() == 0 {
        assert(a + b =~= a);
        assert(condition::selected(a, pattern) + condition::selected(b, pattern)
            =~= condition::selected(a, pattern));
    } else {
        assert((a + b).drop_last() =~= a + b.drop_last());
        lemma_selection_keeps_order(a, b.drop_last(), name, d, pattern);
        assert(condition::selected(a + b, pattern) =~= condition::selected(a, pattern)
            + condition::selected(b, pattern));
    }
}

proof fn lemma_stops_at_failure<S, B: Backend<S>>(
    backend: &B,
    exprs: Seq<ConditionExpr>,
    detections: Seq<(Seq<char>, DetectionView)>,
    state: S,
    i: int,
    k: int,
)
    requires
        0 <= i < k <= exprs.len(),
        condition::condition_fragments(backend, exprs.take(i), detections, state).0 is Ok,
        condition::condition_fragment(
            backend,
            exprs[i],
            detections,
            condition::condition_fragments(backend, exprs.take(i), detections, state).1,
        ).0 is Err,
    ensures
        ({
            let mid = condition::condition_fragments(
                backend,
                exprs.take(i),
                detections,
                state,
            ).1;
            let stop = condition::condition_fragment(backend, exprs[i], detections, mid);
            let all = condition::condition_fragments(backend, exprs.take(k), detections, state);
            all.0 matches Err(e) && stop.0 == Err::<Seq<char>, ConvertErrorView>(e) && all.1
                == stop.1
        }),
    decreases k,
{
    let front = exprs.take(k);
    assert(front.drop_last() =~= exprs.take(k - 1));
    assert(front.last() == exprs[k - 1]);
    if i < k - 1 {
        lemma_stops_at_failure(backend, exprs, detections, state, i, k - 1);
    }
}

/// A conjunction or disjunction fails as the first of its parts that does, and nothing
/// behind that part is converted; a negation fails as what it negates.
pub proof fn lemma_first_failure_counts<S, B: Backend<S>>(
    backend: &B,
    exprs: Vec<ConditionExpr>,
    inner: ConditionExpr,
    detections: Seq<(Seq<char>, DetectionView)>,
    state: S,
    i: int,
)
    ensures
        condition::condition_fragment(backend, inner, detections, state).0 is Err
            ==> condition::condition_fragment(
            backend,
            ConditionExpr::Not(Box::new(inner)),
            detections,
            state,
        ) == condition::condition_fragment(backend, inner, detections, state),
        0 <= i < exprs@.len() && condition::condition_fragments(
            backend,
            exprs@.take(i),
            detections,
            state,
        ).0 is Ok ==> {
            let mid = condition::condition_fragments(
                backend,
                exprs@.take(i),
                detections,
                state,
            ).1;
            let stop = condition::condition_fragment(backend, exprs@[i], detections, mid);
            stop.0 is Err ==> condition::condition_fragment(
                backend,
                ConditionExpr::And(exprs),
                detections,
                state,
            ) == stop && condition::condition_fragment(
                backend,
                ConditionExpr::Or(exprs),
                detections,
                state,
            ) == stop
        },
{
    let n = exprs@.len() as int;
    assert(exprs@.take(n) =~= exprs@);
    if 0 <= i < n && condition::condition_fragments(
        backend,
        exprs@.take(i),
        detections,
        state,
    ).0 is Ok {
        let mid = condition::condition_fragments(backend, exprs@.take(i), detections, state).1;
        if condition::condition_fragment(backend, exprs@[i], detections, mid).0 is Err {
            lemma_stops_at_failure(backend, exprs@, detections, state, i, n);
        }
    }
}

} // verus!
