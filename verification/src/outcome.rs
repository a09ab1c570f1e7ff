//! Collecting results: all the values, or the first failure.

use vstd::prelude::*;

verus! {

/// The values of the results if each of them is one, else the first failure.
pub open spec fn collect<T, E>(results: Seq<Result<T, E>>) -> Result<Seq<T>, E>
    decreases results.len(),
{
    if results.len() == 0 {
        Ok(Seq::empty())
    } else {
        match collect(results.drop_last()) {
            Err(e) => Err(e),
            Ok(values) => match results.last() {
                Err(e) => Err(e),
                Ok(v) => Ok(values.push(v)),
            },
        }
    }
}

/// One more result, behind results that collect to values.
pub proof fn lemma_collect_push<T, E>(results: Seq<Result<T, E>>, r: Result<T, E>)
    ensures
        collect(results.push(r)) == match collect(results) {
            Err(e) => Err(e),
            Ok(values) => match r {
                Err(e) => Err(e),
                Ok(v) => Ok(values.push(v)),
            },
        },
{
    assert(results.push(r).drop_last() =~= results);
}

/// A failure among the first results is the failure of the whole.
pub proof fn lemma_collect_stops<T, E>(results: Seq<Result<T, E>>, n: int)
    requires
        0 <= n <= results.len(),
        collect(results.take(n)) is Err,
    ensures
        collect(results) == collect(results.take(n)),
    decreases results.len() - n,
{
    if n < results.len() {
        assert(results.take(n + 1) =~= results.take(n).push(results[n]));
        lemma_collect_push(results.take(n), results[n]);
        lemma_collect_stops(results, n + 1);
    } else {
        assert(results.take(n) =~= results);
    }
}

/// All the values are there if and only if each result is one; else the failure is the
/// first that there is.
pub proof fn lemma_collected<T, E>(results: Seq<Result<T, E>>)
    ensures
        match collect(results) {
            Ok(values) => are_values(results, values),
            Err(e) => fails(results, e),
        },
    decreases results.len(),
{
    if results.len() > 0 {
        let front = results.drop_last();
        let n = front.len() as int;
        lemma_collected(front);
        assert(results.last() == results[n]);
        assert forall|i: int| 0 <= i < n implies #[trigger] front[i] == results[i] by {}
        match collect(front) {
            Ok(values) => {
                match results[n] {
                    Ok(v) => {
                        assert(collect(results) == Ok::<Seq<T>, E>(values.push(v)));
                        assert forall|i: int| 0 <= i < results.len() implies #[trigger] results[i]
                            == Ok::<T, E>(values.push(v)[i]) by {
                            if i < n {
                                assert(front[i] == results[i]);
                                assert(front[i] == Ok::<T, E>(values[i]));
                            }
                        }
                        assert(are_values(results, values.push(v)));
                    },
                    Err(e) => {
                        assert forall|j: int| 0 <= j < n implies (#[trigger] results[j]) is Ok by {
                            assert(front[j] == results[j]);
                        }
                        assert(fails_first(results, n, e));
                        assert(fails(results, e));
                        assert(collect(results) == Err::<Seq<T>, E>(e));
                    },
                }
            },
            Err(e) => {
                let i = choose|i: int| #[trigger] fails_first(front, i, e);
                assert(front[i] == results[i]);
                assert forall|j: int| 0 <= j < i implies (#[trigger] results[j]) is Ok by {
                    assert(front[j] == results[j]);
                }
                assert(fails_first(results, i, e));
                assert(fails(results, e));
                assert(collect(results) == Err::<Seq<T>, E>(e));
            },
        }
    } else {
        assert(are_values(results, Seq::empty()));
    }
}

/// That failure is the first among the results.
pub open spec fn fails<T, E>(results: Seq<Result<T, E>>, e: E) -> bool {
    exists|i: int| #[trigger] fails_first(results, i, e)
}

/// The results are these values.
pub open spec fn are_values<T, E>(results: Seq<Result<T, E>>, values: Seq<T>) -> bool {
    values.len() == results.len() && forall|i: int|
        0 <= i < results.len() ==> #[trigger] results[i] == Ok::<T, E>(values[i])
}

/// The result at place `i` is that failure, and those before it are none.
pub open spec fn fails_first<T, E>(results: Seq<Result<T, E>>, i: int, e: E) -> bool {
    &&& 0 <= i < results.len()
    &&& results[i] == Err::<T, E>(e)
    &&& forall|j: int| 0 <= j < i ==> (#[trigger] results[j]) is Ok
}

} // verus!
