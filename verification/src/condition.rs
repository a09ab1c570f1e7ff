//! Converting conditions into queries.

use crate::ast::ConditionExpr;
use crate::ast::Detection;
use crate::ast::DetectionView;
use crate::ast::Quantifier;
use crate::ast::SelectorPattern;
use crate::selector;
use crate::table;
use crate::text;
use vstd::prelude::*;

verus! {

/// Why a rule could not be converted.
#[derive(Debug)]
pub enum ConvertError {
    RuleConversion(String),
    UnsupportedArrayMatching(String),
}

/// What an error is.
pub enum ConvertErrorView {
    RuleConversion(Seq<char>),
    UnsupportedArrayMatching(Seq<char>),
}

impl View for ConvertError {
    type V = ConvertErrorView;

    open spec fn view(&self) -> ConvertErrorView {
        match self {
            ConvertError::RuleConversion(s) => ConvertErrorView::RuleConversion(s@),
            ConvertError::UnsupportedArrayMatching(s) => ConvertErrorView::UnsupportedArrayMatching(
                s@,
            ),
        }
    }
}

/// What the result of a conversion is.
pub open spec fn converted(r: Result<String, ConvertError>) -> Result<Seq<char>, ConvertErrorView> {
    match r {
        Ok(s) => Ok(s@),
        Err(e) => Err(e@),
    }
}

/// A query language. A backend converts detections, and links the fragments that
/// it made; `S` is what it notes in the course of a conversion. The spec functions
/// stand for what the methods give: each method is a function of its arguments. A
/// backend that is verified says what these functions are; of any other backend
/// nothing more is known.
pub trait Backend<S> {
    /// What converting a detection gives, and the notes after it.
    open spec fn detection_fragment(&self, detection: DetectionView, state: S) -> (
        Result<Seq<char>, ConvertErrorView>,
        S,
    ) {
        arbitrary()
    }

    /// What linking fragments by AND gives.
    open spec fn and_fragment(&self, parts: Seq<Seq<char>>) -> Result<Seq<char>, ConvertErrorView> {
        arbitrary()
    }

    /// What linking fragments by OR gives.
    open spec fn or_fragment(&self, parts: Seq<Seq<char>>) -> Result<Seq<char>, ConvertErrorView> {
        arbitrary()
    }

    /// What negating a fragment gives.
    open spec fn not_fragment(&self, part: Seq<char>) -> Result<Seq<char>, ConvertErrorView> {
        arbitrary()
    }

    fn convert_detection(&self, detection: &Detection, state: &mut S) -> (res: Result<
        String,
        ConvertError,
    >)
        ensures
            (converted(res), *final(state)) == self.detection_fragment(detection@, *old(state)),
    ;

    fn convert_condition_and(&self, parts: &Vec<String>) -> (res: Result<String, ConvertError>)
        ensures
            converted(res) == self.and_fragment(text::texts(parts@)),
    ;

    fn convert_condition_or(&self, parts: &Vec<String>) -> (res: Result<String, ConvertError>)
        ensures
            converted(res) == self.or_fragment(text::texts(parts@)),
    ;

    fn convert_condition_not(&self, part: &str) -> (res: Result<String, ConvertError>)
        ensures
            converted(res) == self.not_fragment(part@),
    ;
}

/// What a conversion gives, and the notes after it.
pub type Converted<T, S> = (Result<T, ConvertErrorView>, S);

/// The detections that a selector selects, in order.
pub open spec fn selected(
    detections: Seq<(Seq<char>, DetectionView)>,
    pattern: SelectorPattern,
) -> Seq<DetectionView>
    decreases detections.len(),
{
    if detections.len() == 0 {
        Seq::empty()
    } else if selector::selects(pattern, detections.last().0) {
        selected(detections.drop_last(), pattern).push(detections.last().1)
    } else {
        selected(detections.drop_last(), pattern)
    }
}

/// The detections converted one behind the other, up to the first failure.
pub open spec fn detection_fragments<S, B: Backend<S>>(
    backend: &B,
    detections: Seq<DetectionView>,
    state: S,
) -> Converted<Seq<Seq<char>>, S>
    decreases detections.len(),
{
    if detections.len() == 0 {
        (Ok(Seq::empty()), state)
    } else {
        match detection_fragments(backend, detections.drop_last(), state) {
            (Err(e), after) => (Err(e), after),
            (Ok(parts), after) => match backend.detection_fragment(detections.last(), after) {
                (Err(e), last) => (Err(e), last),
                (Ok(part), last) => (Ok(parts.push(part)), last),
            },
        }
    }
}

pub open spec fn not_found(name: Seq<char>) -> ConvertErrorView {
    ConvertErrorView::RuleConversion("detection '"@ + name + "' not found"@)
}

pub open spec fn nothing_selected() -> ConvertErrorView {
    ConvertErrorView::RuleConversion("selector matched no detections"@)
}

pub open spec fn count_unsupported(n: u64) -> ConvertErrorView {
    ConvertErrorView::RuleConversion(
        "'"@ + text::decimal(n as nat) + " of' quantifier not supported in conversion"@,
    )
}

/// The fragments of selected detections, linked as the quantifier asks.
pub open spec fn quantified<S, B: Backend<S>>(
    backend: &B,
    quantifier: Quantifier,
    parts: Seq<Seq<char>>,
) -> Result<Seq<char>, ConvertErrorView> {
    match quantifier {
        Quantifier::Any => backend.or_fragment(parts),
        Quantifier::All => backend.and_fragment(parts),
        Quantifier::Count(n) => if n == 1 {
            backend.or_fragment(parts)
        } else {
            Err(count_unsupported(n))
        },
    }
}

/// What the condition is converted to.
pub open spec fn condition_fragment<S, B: Backend<S>>(
    backend: &B,
    expr: ConditionExpr,
    detections: Seq<(Seq<char>, DetectionView)>,
    state: S,
) -> Converted<Seq<char>, S>
    decreases expr,
{
    match expr {
        ConditionExpr::Identifier(name) => match table::value_of(detections, name@) {
            None => (Err(not_found(name@)), state),
            Some(d) => backend.detection_fragment(d, state),
        },
        ConditionExpr::And(exprs) => match condition_fragments(
            backend,
            exprs@,
            detections,
            state,
        ) {
            (Err(e), after) => (Err(e), after),
            (Ok(parts), after) => (backend.and_fragment(parts), after),
        },
        ConditionExpr::Or(exprs) => match condition_fragments(backend, exprs@, detections, state) {
            (Err(e), after) => (Err(e), after),
            (Ok(parts), after) => (backend.or_fragment(parts), after),
        },
        ConditionExpr::Not(inner) => match condition_fragment(
            backend,
            *inner,
            detections,
            state,
        ) {
            (Err(e), after) => (Err(e), after),
            (Ok(part), after) => (backend.not_fragment(part), after),
        },
        ConditionExpr::Selector { quantifier, pattern } => if selected(
            detections,
            pattern,
        ).len() == 0 {
            (Err(nothing_selected()), state)
        } else {
            match detection_fragments(backend, selected(detections, pattern), state) {
                (Err(e), after) => (Err(e), after),
                (Ok(parts), after) => (quantified(backend, quantifier, parts), after),
            }
        },
    }
}

/// The conditions converted one behind the other, up to the first failure.
pub open spec fn condition_fragments<S, B: Backend<S>>(
    backend: &B,
    exprs: Seq<ConditionExpr>,
    detections: Seq<(Seq<char>, DetectionView)>,
    state: S,
) -> Converted<Seq<Seq<char>>, S>
    decreases exprs,
{
    if exprs.len() == 0 {
        (Ok(Seq::empty()), state)
    } else {
        match condition_fragments(backend, exprs.drop_last(), detections, state) {
            (Err(e), after) => (Err(e), after),
            (Ok(parts), after) => match condition_fragment(
                backend,
                exprs.last(),
                detections,
                after,
            ) {
                (Err(e), last) => (Err(e), last),
                (Ok(part), last) => (Ok(parts.push(part)), last),
            },
        }
    }
}

/// A failure among the first detections is the failure of the whole.
proof fn lemma_detections_stop<S, B: Backend<S>>(
    backend: &B,
    detections: Seq<DetectionView>,
    state: S,
    n: int,
)
    requires
        0 <= n <= detections.len(),
        detection_fragments(backend, detections.take(n), state).0 is Err,
    ensures
        detection_fragments(backend, detections, state) == detection_fragments(
            backend,
            detections.take(n),
            state,
        ),
    decreases detections.len() - n,
{
    if n < detections.len() {
        assert(detections.take(n + 1).drop_last() =~= detections.take(n));
        lemma_detections_stop(backend, detections, state, n + 1);
    } else {
        assert(detections.take(n) =~= detections);
    }
}

/// A failure among the first conditions is the failure of the whole.
proof fn lemma_conditions_stop<S, B: Backend<S>>(
    backend: &B,
    exprs: Seq<ConditionExpr>,
    detections: Seq<(Seq<char>, DetectionView)>,
    state: S,
    n: int,
)
    requires
        0 <= n <= exprs.len(),
        condition_fragments(backend, exprs.take(n), detections, state).0 is Err,
    ensures
        condition_fragments(backend, exprs, detections, state) == condition_fragments(
            backend,
            exprs.take(n),
            detections,
            state,
        ),
    decreases exprs.len() - n,
{
    if n < exprs.len() {
        assert(exprs.take(n + 1).drop_last() =~= exprs.take(n));
        lemma_conditions_stop(backend, exprs, detections, state, n + 1);
    } else {
        assert(exprs.take(n) =~= exprs);
    }
}

/// What the result of converting several parts is.
pub open spec fn converted_parts(r: Result<Vec<String>, ConvertError>) -> Result<
    Seq<Seq<char>>,
    ConvertErrorView,
> {
    match r {
        Ok(parts) => Ok(text::texts(parts@)),
        Err(e) => Err(e@),
    }
}

/// Convert the conditions one behind the other.
fn convert_each<S, B: Backend<S>>(
    backend: &B,
    exprs: &Vec<ConditionExpr>,
    detections: &Vec<(String, Detection)>,
    state: &mut S,
) -> (res: Result<Vec<String>, ConvertError>)
    ensures
        (converted_parts(res), *final(state)) == condition_fragments(
            backend,
            exprs@,
            table::table_view(detections@),
            *old(state),
        ),
    decreases exprs@,
{
    let ghost start = *state;
    let ghost named = table::table_view(detections@);
    let mut parts: Vec<String> = Vec::new();
    let mut i: usize = 0;
    assert(exprs@.take(0) =~= Seq::empty());
    assert(text::texts(parts@) =~= Seq::empty());
    while i < exprs.len()
        invariant
            0 <= i <= exprs@.len(),
            named == table::table_view(detections@),
            start == *old(state),
            (Ok::<Seq<Seq<char>>, ConvertErrorView>(text::texts(parts@)), *state)
                == condition_fragments(backend, exprs@.take(i as int), named, start),
        decreases exprs@.len() - i,
    {
        assert(exprs@.take(i + 1).drop_last() =~= exprs@.take(i as int));
        match convert_condition_expr(backend, &exprs[i], detections, state) {
            Ok(part) => {
                let ghost before = parts@;
                parts.push(part);
                assert(text::texts(parts@) =~= text::texts(before).push(part@));
            },
            Err(e) => {
                proof {
                    lemma_conditions_stop(backend, exprs@, named, start, i + 1);
                }
                return Err(e);
            },
        }
        i = i + 1;
    }
    assert(exprs@.take(i as int) =~= exprs@);
    Ok(parts)
}

/// The places of the detections that a selector selects.
fn select(detections: &Vec<(String, Detection)>, pattern: &SelectorPattern) -> (res: Vec<usize>)
    ensures
        forall|k: int| 0 <= k < res@.len() ==> #[trigger] res@[k] < detections@.len(),
        selected(table::table_view(detections@), *pattern) == res@.map_values(
            |i: usize| detections@[i as int].1@,
        ),
{
    let ghost named = table::table_view(detections@);
    let mut places: Vec<usize> = Vec::new();
    let mut i: usize = 0;
    assert(places@.map_values(|i: usize| detections@[i as int].1@) =~= Seq::empty());
    while i < detections.len()
        invariant
            0 <= i <= detections@.len(),
            named == table::table_view(detections@),
            forall|k: int| 0 <= k < places@.len() ==> #[trigger] places@[k] < detections@.len(),
            selected(named.take(i as int), *pattern) == places@.map_values(
                |i: usize| detections@[i as int].1@,
            ),
        decreases detections@.len() - i,
    {
        assert(named.take(i + 1).drop_last() =~= named.take(i as int));
        if pattern.matches_detection_name(detections[i].0.as_str()) {
            let ghost before = places@;
            places.push(i);
            assert(places@.map_values(|i: usize| detections@[i as int].1@) =~= before.map_values(
                |i: usize| detections@[i as int].1@,
            ).push(detections@[i as int].1@));
        }
        i = i + 1;
    }
    assert(named.take(i as int) =~= named);
    places
}

/// Convert the detections at the given places one behind the other.
fn convert_selected<S, B: Backend<S>>(
    backend: &B,
    places: &Vec<usize>,
    detections: &Vec<(String, Detection)>,
    state: &mut S,
) -> (res: Result<Vec<String>, ConvertError>)
    requires
        forall|k: int| 0 <= k < places@.len() ==> #[trigger] places@[k] < detections@.len(),
    ensures
        (converted_parts(res), *final(state)) == detection_fragments(
            backend,
            places@.map_values(|i: usize| detections@[i as int].1@),
            *old(state),
        ),
{
    let ghost start = *state;
    let ghost all = places@.map_values(|i: usize| detections@[i as int].1@);
    let mut parts: Vec<String> = Vec::new();
    let mut k: usize = 0;
    assert(all.take(0) =~= Seq::empty());
    assert(text::texts(parts@) =~= Seq::empty());
    while k < places.len()
        invariant
            0 <= k <= places@.len(),
            forall|k: int| 0 <= k < places@.len() ==> #[trigger] places@[k] < detections@.len(),
            all == places@.map_values(|i: usize| detections@[i as int].1@),
            start == *old(state),
            (Ok::<Seq<Seq<char>>, ConvertErrorView>(text::texts(parts@)), *state)
                == detection_fragments(backend, all.take(k as int), start),
        decreases places@.len() - k,
    {
        assert(all.take(k + 1).drop_last() =~= all.take(k as int));
        match backend.convert_detection(&detections[places[k]].1, state) {
            Ok(part) => {
                let ghost before = parts@;
                parts.push(part);
                assert(text::texts(parts@) =~= text::texts(before).push(part@));
            },
            Err(e) => {
                proof {
                    lemma_detections_stop(backend, all, start, k + 1);
                }
                return Err(e);
            },
        }
        k = k + 1;
    }
    assert(all.take(k as int) =~= all);
    Ok(parts)
}

/// Convert a condition into a query fragment, walking down its tree.
pub fn convert_condition_expr<S, B: Backend<S>>(
    backend: &B,
    expr: &ConditionExpr,
    detections: &Vec<(String, Detection)>,
    state: &mut S,
) -> (res: Result<String, ConvertError>)
    ensures
        (converted(res), *final(state)) == condition_fragment(
            backend,
            *expr,
            table::table_view(detections@),
            *old(state),
        ),
    decreases expr,
{
    match expr {
        ConditionExpr::Identifier(name) => {
            let k: usize = table::entry_position(detections, name.as_str());
            if k == detections.len() {
                let mut message: String = "detection '".to_owned();
                message.append(name.as_str());
                message.append("' not found");
                return Err(ConvertError::RuleConversion(message));
            }
            assert(table::table_view(detections@)[k as int].1 == detections@[k as int].1@);
            backend.convert_detection(&detections[k].1, state)
        },
        ConditionExpr::And(exprs) => match convert_each(backend, exprs, detections, state) {
            Ok(parts) => backend.convert_condition_and(&parts),
            Err(e) => Err(e),
        },
        ConditionExpr::Or(exprs) => match convert_each(backend, exprs, detections, state) {
            Ok(parts) => backend.convert_condition_or(&parts),
            Err(e) => Err(e),
        },
        ConditionExpr::Not(inner) => match convert_condition_expr(
            backend,
            inner,
            detections,
            state,
        ) {
            Ok(part) => backend.convert_condition_not(part.as_str()),
            Err(e) => Err(e),
        },
        ConditionExpr::Selector { quantifier, pattern } => {
            let places: Vec<usize> = select(detections, pattern);
            if places.len() == 0 {
                return Err(
                    ConvertError::RuleConversion("selector matched no detections".to_owned()),
                );
            }
            let parts: Vec<String> = match convert_selected(backend, &places, detections, state) {
                Ok(parts) => parts,
                Err(e) => {
                    return Err(e);
                },
            };
            match quantifier {
                Quantifier::Any => backend.convert_condition_or(&parts),
                Quantifier::All => backend.convert_condition_and(&parts),
                Quantifier::Count(n) => {
                    if *n == 1 {
                        return backend.convert_condition_or(&parts);
                    }
                    let mut message: String = "'".to_owned();
                    message.append(text::decimal_text(*n).as_str());
                    message.append(" of' quantifier not supported in conversion");
                    Err(ConvertError::RuleConversion(message))
                },
            }
        },
    }
}

/// `1 of` a pattern and `any of` it are converted alike.
pub proof fn lemma_one_of_is_any_of<S, B: Backend<S>>(
    backend: &B,
    pattern: SelectorPattern,
    detections: Seq<(Seq<char>, DetectionView)>,
    state: S,
)
    ensures
        condition_fragment(
            backend,
            ConditionExpr::Selector { quantifier: Quantifier::Count(1), pattern },
            detections,
            state,
        ) == condition_fragment(
            backend,
            ConditionExpr::Selector { quantifier: Quantifier::Any, pattern },
            detections,
            state,
        ),
{
}

} // verus!
