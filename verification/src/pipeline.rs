//! The search, stated over sequences: which pairs a text yields, which
//! candidates they form, which of those meet the relation, and which one wins.

use vstd::prelude::*;
use crate::types::{FailureReason, Pair, PairOfPairs};

verus! {

/// The pairs of the lines that hold a value, in the order of the lines. A line
/// without a value yields nothing and leaves the numbering of the others alone.
pub open spec fn produce(values: Seq<Option<i32>>) -> Seq<Pair>
    decreases values.len(),
{
    if values.len() == 0 {
        Seq::empty()
    } else {
        let before = produce(values.drop_last());
        match values.last() {
            Some(v) => before.push(((values.len() - 1) as usize, v)),
            None => before,
        }
    }
}

/// One outer pair against every inner pair, in the order of the inner pairs.
pub open spec fn row(outer: Pair, inner: Seq<Pair>) -> Seq<PairOfPairs> {
    Seq::new(inner.len(), |k: int| (outer, inner[k]))
}

/// Every outer pair against every inner pair, one row per outer pair.
pub open spec fn generate_from(outer: Seq<Pair>, inner: Seq<Pair>) -> Seq<PairOfPairs>
    decreases outer.len(),
{
    if outer.len() == 0 {
        Seq::empty()
    } else {
        generate_from(outer.drop_last(), inner) + row(outer.last(), inner)
    }
}

/// All candidates of `pairs`: each pair against each pair, itself included.
pub open spec fn generate(pairs: Seq<Pair>) -> Seq<PairOfPairs> {
    generate_from(pairs, pairs)
}

/// The relation that is searched for: the inner value is the outer value
/// plus `a`.
pub open spec fn satisfies(candidate: PairOfPairs, a: int) -> bool {
    (candidate.1).1 as int == (candidate.0).1 as int + a
}

/// The candidates that meet the relation, in their order.
pub open spec fn retain(candidates: Seq<PairOfPairs>, a: int) -> Seq<PairOfPairs>
    decreases candidates.len(),
{
    if candidates.len() == 0 {
        Seq::empty()
    } else {
        let before = retain(candidates.drop_last(), a);
        if satisfies(candidates.last(), a) {
            before.push(candidates.last())
        } else {
            before
        }
    }
}

/// The sum of a candidate's two values.
pub open spec fn sum_of(candidate: PairOfPairs) -> int {
    (candidate.0).1 as int + (candidate.1).1 as int
}

/// Which of two candidates is kept: the one with the larger sum; of two with
/// one sum, `left` where its outer line comes first, else `right`.
pub open spec fn combine(left: PairOfPairs, right: PairOfPairs) -> PairOfPairs {
    if sum_of(left) > sum_of(right) {
        left
    } else if sum_of(left) == sum_of(right) && (left.0).0 < (right.0).0 {
        left
    } else {
        right
    }
}

/// One step of the fold: the candidate kept so far, if any, against the next.
pub open spec fn fold_step(kept: Option<PairOfPairs>, next: PairOfPairs) -> Option<PairOfPairs> {
    match kept {
        Some(k) => Some(combine(k, next)),
        None => Some(next),
    }
}

/// A fold from the left over `candidates` that starts with `kept`.
pub open spec fn fold_from(kept: Option<PairOfPairs>, candidates: Seq<PairOfPairs>) -> Option<
    PairOfPairs,
>
    decreases candidates.len(),
{
    if candidates.len() == 0 {
        kept
    } else {
        fold_step(fold_from(kept, candidates.drop_last()), candidates.last())
    }
}

/// The candidate that a fold from the left keeps, `None` for no candidates.
pub open spec fn reduce(candidates: Seq<PairOfPairs>) -> Option<PairOfPairs> {
    fold_from(None, candidates)
}

/// The winning candidate among the lines' values, if any meets the relation.
pub open spec fn winner(values: Seq<Option<i32>>, a: int) -> Option<PairOfPairs> {
    reduce(retain(generate(produce(values)), a))
}

/// The line numbers of a candidate, counted from one.
pub open spec fn line_numbers(candidate: PairOfPairs) -> (usize, usize) {
    (((candidate.0).0 + 1) as usize, ((candidate.1).0 + 1) as usize)
}

/// What a search over lines with these values returns for the difference `a`.
pub open spec fn outcome(values: Seq<Option<i32>>, a: int) -> Result<(usize, usize), FailureReason> {
    if a < 0 {
        Err(FailureReason::InvalidArgument)
    } else if produce(values).len() == 0 {
        Err(FailureReason::NoParsableInput)
    } else {
        match winner(values, a) {
            Some(w) => Ok(line_numbers(w)),
            None => Err(FailureReason::NoSatisfyingPair),
        }
    }
}

/// Taking one more line into account appends its pair, if it holds a value.
pub proof fn lemma_produce_step(values: Seq<Option<i32>>, i: int)
    requires
        0 <= i < values.len(),
    ensures
        produce(values.take(i + 1)) == match values[i] {
            Some(v) => produce(values.take(i)).push((i as usize, v)),
            None => produce(values.take(i)),
        },
{
    assert(values.take(i + 1).drop_last() =~= values.take(i));
}

/// A row against one more inner pair is one candidate longer.
pub proof fn lemma_row_push(outer: Pair, inner: Seq<Pair>, next: Pair)
    ensures
        row(outer, inner.push(next)) == row(outer, inner).push((outer, next)),
{
    assert(row(outer, inner.push(next)) =~= row(outer, inner).push((outer, next)));
}

/// One more outer pair adds its row behind the rows of the others.
pub proof fn lemma_generate_push(outer: Seq<Pair>, inner: Seq<Pair>, next: Pair)
    ensures
        generate_from(outer.push(next), inner) == generate_from(outer, inner) + row(next, inner),
{
    assert(outer.push(next).drop_last() =~= outer);
}

/// What is retained of candidates with one more at the end.
pub proof fn lemma_retain_push(candidates: Seq<PairOfPairs>, next: PairOfPairs, a: int)
    ensures
        retain(candidates.push(next), a) == if satisfies(next, a) {
            retain(candidates, a).push(next)
        } else {
            retain(candidates, a)
        },
{
    assert(candidates.push(next).drop_last() =~= candidates);
}

/// The fold over candidates with one more at the end is one step further.
pub proof fn lemma_fold_push(kept: Option<PairOfPairs>, candidates: Seq<PairOfPairs>, next: PairOfPairs)
    ensures
        fold_from(kept, candidates.push(next)) == fold_step(fold_from(kept, candidates), next),
{
    assert(candidates.push(next).drop_last() =~= candidates);
}

/// What is retained of two runs of candidates is what is retained of each.
pub proof fn lemma_retain_concat(first: Seq<PairOfPairs>, second: Seq<PairOfPairs>, a: int)
    ensures
        retain(first + second, a) == retain(first, a) + retain(second, a),
    decreases second.len(),
{
    if second.len() == 0 {
        assert(first + second =~= first);
        assert(retain(first, a) + retain(second, a) =~= retain(first, a));
    } else {
        lemma_retain_concat(first, second.drop_last(), a);
        assert((first + second).drop_last() =~= first + second.drop_last());
        assert((first + second).last() == second.last());
        if satisfies(second.last(), a) {
            assert(retain(first, a) + retain(second.drop_last(), a).push(second.last()) =~= (retain(
                first,
                a,
            ) + retain(second.drop_last(), a)).push(second.last()));
        }
    }
}

/// A fold over two runs of candidates is the fold over the second that starts
/// with what the fold over the first kept.
pub proof fn lemma_fold_concat(
    kept: Option<PairOfPairs>,
    first: Seq<PairOfPairs>,
    second: Seq<PairOfPairs>,
)
    ensures
        fold_from(kept, first + second) == fold_from(fold_from(kept, first), second),
    decreases second.len(),
{
    if second.len() == 0 {
        assert(first + second =~= first);
    } else {
        lemma_fold_concat(kept, first, second.drop_last());
        assert((first + second).drop_last() =~= first + second.drop_last());
        assert((first + second).last() == second.last());
    }
}

} // verus!
