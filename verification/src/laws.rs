//! What holds of the candidates and of the one that wins.

use vstd::prelude::*;
use crate::helpers::lemma_produce_keeps_positions;
use crate::pipeline::{
    combine, fold_from, fold_step, generate, generate_from, line_numbers, outcome, produce,
    reduce, retain, row, satisfies, sum_of, winner,
};
use crate::types::FailureReason;
use crate::types::{Pair, PairOfPairs};

verus! {

/// `other` does not beat `best`: its sum is smaller, or the sums are equal and
/// its outer line does not come before that of `best`.
pub open spec fn not_better(other: PairOfPairs, best: PairOfPairs) -> bool {
    sum_of(other) < sum_of(best) || (sum_of(other) == sum_of(best) && (best.0).0 <= (other.0).0)
}

/// Of two candidates with equal sums and different outer lines, the one whose
/// outer line comes first is kept, whichever of them is met first.
pub proof fn lemma_tie_break_either_order(first: PairOfPairs, second: PairOfPairs)
    requires
        sum_of(first) == sum_of(second),
        (first.0).0 < (second.0).0,
    ensures
        combine(first, second) == first,
        combine(second, first) == first,
{
}

/// The candidate that is kept is one of the two, and neither beats it.
pub proof fn lemma_combine_keeps_better(left: PairOfPairs, right: PairOfPairs)
    ensures
        combine(left, right) == left || combine(left, right) == right,
        not_better(left, combine(left, right)),
        not_better(right, combine(left, right)),
{
}

/// Not beating is transitive.
pub proof fn lemma_not_better_transitive(x: PairOfPairs, y: PairOfPairs, z: PairOfPairs)
    requires
        not_better(x, y),
        not_better(y, z),
    ensures
        not_better(x, z),
{
}

/// The candidates of the rows are exactly the pairs of an outer pair with an
/// inner pair.
pub proof fn lemma_generate_members(outer: Seq<Pair>, inner: Seq<Pair>, candidate: PairOfPairs)
    ensures
        generate_from(outer, inner).contains(candidate) <==> outer.contains(candidate.0)
            && inner.contains(candidate.1),
    decreases outer.len(),
{
    let all = generate_from(outer, inner);
    if outer.len() == 0 {
    } else {
        let before = generate_from(outer.drop_last(), inner);
        let last_row = row(outer.last(), inner);
        lemma_generate_members(outer.drop_last(), inner, candidate);
        if all.contains(candidate) {
            let k = choose|k: int| 0 <= k < all.len() && all[k] == candidate;
            if k < before.len() {
                assert(before[k] == candidate);
                assert(before.contains(candidate));
                let m = choose|m: int|
                    0 <= m < outer.drop_last().len() && outer.drop_last()[m] == candidate.0;
                assert(outer[m] == candidate.0);
            } else {
                assert(last_row[k - before.len()] == candidate);
                assert(outer[outer.len() - 1] == candidate.0);
                assert(inner[k - before.len()] == candidate.1);
            }
        }
        if outer.contains(candidate.0) && inner.contains(candidate.1) {
            let m = choose|m: int| 0 <= m < outer.len() && outer[m] == candidate.0;
            let j = choose|j: int| 0 <= j < inner.len() && inner[j] == candidate.1;
            if m < outer.len() - 1 {
                assert(outer.drop_last()[m] == candidate.0);
                assert(before.contains(candidate));
                let k = choose|k: int| 0 <= k < before.len() && before[k] == candidate;
                assert(all[k] == candidate);
            } else {
                assert(last_row[j] == candidate);
                assert(all[before.len() + j] == candidate);
            }
        }
    }
}

/// What is retained are exactly the candidates that meet the relation.
pub proof fn lemma_retain_members(candidates: Seq<PairOfPairs>, a: int, candidate: PairOfPairs)
    ensures
        retain(candidates, a).contains(candidate) <==> candidates.contains(candidate) && satisfies(
            candidate,
            a,
        ),
    decreases candidates.len(),
{
    let kept = retain(candidates, a);
    if candidates.len() > 0 {
        let shorter = candidates.drop_last();
        let before = retain(shorter, a);
        lemma_retain_members(shorter, a, candidate);
        if kept.contains(candidate) {
            let k = choose|k: int| 0 <= k < kept.len() && kept[k] == candidate;
            if k < before.len() {
                assert(before[k] == candidate);
                assert(before.contains(candidate));
                let m = choose|m: int| 0 <= m < shorter.len() && shorter[m] == candidate;
                assert(candidates[m] == candidate);
            } else {
                assert(candidates[candidates.len() - 1] == candidate);
            }
        }
        if candidates.contains(candidate) && satisfies(candidate, a) {
            let m = choose|m: int| 0 <= m < candidates.len() && candidates[m] == candidate;
            if m < candidates.len() - 1 {
                assert(shorter[m] == candidate);
                assert(before.contains(candidate));
                let k = choose|k: int| 0 <= k < before.len() && before[k] == candidate;
                assert(kept[k] == candidate);
            } else {
                assert(kept[kept.len() - 1] == candidate);
            }
        }
    }
}

/// A fold keeps what it started with or one of the candidates, keeps one
/// whenever there is a candidate, and no candidate beats the one it keeps.
pub proof fn lemma_fold_keeps_best(kept: Option<PairOfPairs>, candidates: Seq<PairOfPairs>)
    ensures
        fold_from(kept, candidates) == kept || (fold_from(kept, candidates) is Some
            && candidates.contains(fold_from(kept, candidates)->0)),
        candidates.len() == 0 ==> fold_from(kept, candidates) == kept,
        candidates.len() > 0 ==> fold_from(kept, candidates) is Some,
        kept is Some ==> fold_from(kept, candidates) is Some && not_better(
            kept->0,
            fold_from(kept, candidates)->0,
        ),
        forall|k: int|
            0 <= k < candidates.len() ==> not_better(
                #[trigger] candidates[k],
                fold_from(kept, candidates)->0,
            ),
    decreases candidates.len(),
{
    if candidates.len() > 0 {
        let shorter = candidates.drop_last();
        let last = candidates.last();
        let before = fold_from(kept, shorter);
        let after = fold_from(kept, candidates);
        lemma_fold_keeps_best(kept, shorter);
        assert(after == fold_step(before, last));
        assert(candidates[candidates.len() - 1] == last);
        match before {
            Some(b) => {
                lemma_combine_keeps_better(b, last);
                if candidates.contains(b) || after->0 == last {
                }
                if shorter.contains(b) {
                    let m = choose|m: int| 0 <= m < shorter.len() && shorter[m] == b;
                    assert(candidates[m] == b);
                }
                assert forall|k: int| 0 <= k < candidates.len() implies not_better(
                    #[trigger] candidates[k],
                    after->0,
                ) by {
                    if k < shorter.len() {
                        assert(shorter[k] == candidates[k]);
                        lemma_not_better_transitive(candidates[k], b, after->0);
                    }
                }
                if kept is Some {
                    lemma_not_better_transitive(kept->0, b, after->0);
                }
            },
            None => {
                assert(shorter.len() == 0);
            },
        }
    }
}

/// The candidate that wins is one of the candidates, and none of them beats
/// it: its sum is the largest, and of those with the largest sum its outer
/// line comes first, in whatever order the candidates are met.
pub proof fn lemma_reduce_selects_best(candidates: Seq<PairOfPairs>)
    ensures
        reduce(candidates) is None <==> candidates.len() == 0,
        reduce(candidates) is Some ==> candidates.contains(reduce(candidates)->0),
        forall|k: int|
            0 <= k < candidates.len() ==> not_better(
                #[trigger] candidates[k],
                reduce(candidates)->0,
            ),
{
    lemma_fold_keeps_best(None, candidates);
}

/// `other` loses against `best`: its sum is smaller, or the sums are equal and
/// its outer line comes after that of `best`.
pub open spec fn beaten(other: PairOfPairs, best: PairOfPairs) -> bool {
    sum_of(other) < sum_of(best) || (sum_of(other) == sum_of(best) && (best.0).0 < (other.0).0)
}

/// The order in which the scans meet the candidates: by outer line, and for
/// one outer line by inner line.
pub open spec fn comes_before(x: PairOfPairs, y: PairOfPairs) -> bool {
    (x.0).0 < (y.0).0 || ((x.0).0 == (y.0).0 && (x.1).0 < (y.1).0)
}

/// Every candidate comes before those behind it.
pub open spec fn in_scan_order(candidates: Seq<PairOfPairs>) -> bool {
    forall|k: int, l: int|
        0 <= k < l < candidates.len() ==> comes_before(
            #[trigger] candidates[k],
            #[trigger] candidates[l],
        )
}

/// The lines of the pairs go up.
pub open spec fn ascending(pairs: Seq<Pair>) -> bool {
    forall|k: int, l: int| 0 <= k < l < pairs.len() ==> (#[trigger] pairs[k]).0 < (
    #[trigger] pairs[l]).0
}

/// Pairs in the order of their lines give their candidates in scan order.
pub proof fn lemma_generate_in_scan_order(outer: Seq<Pair>, inner: Seq<Pair>)
    requires
        ascending(outer),
        ascending(inner),
    ensures
        in_scan_order(generate_from(outer, inner)),
    decreases outer.len(),
{
    if outer.len() > 0 {
        let shorter = outer.drop_last();
        let before = generate_from(shorter, inner);
        let last_row = row(outer.last(), inner);
        let all = generate_from(outer, inner);
        assert forall|k: int, l: int| 0 <= k < l < shorter.len() implies (
        #[trigger] shorter[k]).0 < (#[trigger] shorter[l]).0 by {
            assert(shorter[k] == outer[k] && shorter[l] == outer[l]);
        }
        lemma_generate_in_scan_order(shorter, inner);
        assert forall|k: int, l: int| 0 <= k < l < all.len() implies comes_before(
            #[trigger] all[k],
            #[trigger] all[l],
        ) by {
            if l < before.len() {
                assert(all[k] == before[k] && all[l] == before[l]);
            } else if k < before.len() {
                assert(all[k] == before[k]);
                assert(before.contains(all[k]));
                lemma_generate_members(shorter, inner, all[k]);
                let m = choose|m: int| 0 <= m < shorter.len() && shorter[m] == all[k].0;
                assert(outer[m] == shorter[m]);
                assert(all[l] == last_row[l - before.len()]);
                assert(outer[outer.len() - 1] == all[l].0);
            } else {
                assert(all[k] == last_row[k - before.len()]);
                assert(all[l] == last_row[l - before.len()]);
            }
        }
    }
}

/// Leaving candidates out does not change the order of the others.
pub proof fn lemma_retain_in_scan_order(candidates: Seq<PairOfPairs>, a: int)
    requires
        in_scan_order(candidates),
    ensures
        in_scan_order(retain(candidates, a)),
    decreases candidates.len(),
{
    if candidates.len() > 0 {
        let shorter = candidates.drop_last();
        let before = retain(shorter, a);
        let kept = retain(candidates, a);
        assert forall|k: int, l: int| 0 <= k < l < shorter.len() implies comes_before(
            #[trigger] shorter[k],
            #[trigger] shorter[l],
        ) by {
            assert(shorter[k] == candidates[k] && shorter[l] == candidates[l]);
        }
        lemma_retain_in_scan_order(shorter, a);
        assert forall|k: int, l: int| 0 <= k < l < kept.len() implies comes_before(
            #[trigger] kept[k],
            #[trigger] kept[l],
        ) by {
            assert(kept[k] == before[k]);
            if l < before.len() {
                assert(kept[l] == before[l]);
            } else {
                assert(before.contains(before[k]));
                lemma_retain_members(shorter, a, before[k]);
                let m = choose|m: int| 0 <= m < shorter.len() && shorter[m] == before[k];
                assert(candidates[m] == shorter[m]);
                assert(kept[l] == candidates[candidates.len() - 1]);
            }
        }
    }
}

/// The candidate that wins stands at a place behind which every candidate
/// loses against it: of several that none beats, the last one met wins.
pub proof fn lemma_reduce_keeps_last_of_best(candidates: Seq<PairOfPairs>)
    requires
        candidates.len() > 0,
    ensures
        exists|k: int|
            0 <= k < candidates.len() && #[trigger] candidates[k] == reduce(candidates)->0
                && forall|l: int|
                k < l < candidates.len() ==> beaten(
                    #[trigger] candidates[l],
                    reduce(candidates)->0,
                ),
    decreases candidates.len(),
{
    let shorter = candidates.drop_last();
    let last = candidates.last();
    let after = reduce(candidates)->0;
    let end = candidates.len() - 1;
    assert(candidates[end] == last);
    if shorter.len() == 0 {
        assert(after == last);
    } else {
        lemma_reduce_keeps_last_of_best(shorter);
        lemma_fold_keeps_best(None, shorter);
        let b = reduce(shorter)->0;
        assert(after == combine(b, last));
        if after == last {
        } else {
            let k = choose|k: int|
                0 <= k < shorter.len() && #[trigger] shorter[k] == b && forall|l: int|
                    k < l < shorter.len() ==> beaten(#[trigger] shorter[l], b);
            assert(candidates[k] == b);
            assert forall|l: int| k < l < candidates.len() implies beaten(
                #[trigger] candidates[l],
                after,
            ) by {
                if l < shorter.len() {
                    assert(shorter[l] == candidates[l]);
                }
            }
        }
    }
}

/// Lines `i` and `j` both hold a value, and that of `j` is that of `i` plus `a`.
pub open spec fn is_match(values: Seq<Option<i32>>, a: int, i: int, j: int) -> bool {
    &&& 0 <= i < values.len()
    &&& 0 <= j < values.len()
    &&& values[i] is Some
    &&& values[j] is Some
    &&& values[j]->0 as int == values[i]->0 as int + a
}

/// The sum of the values of lines `i` and `j`.
pub open spec fn sum_at(values: Seq<Option<i32>>, i: int, j: int) -> int {
    values[i]->0 as int + values[j]->0 as int
}

/// Lines `i2` and `j2` do not win over lines `i` and `j`: their sum is
/// smaller; or it is the same and `i2` comes after `i`; or sum and first line
/// are the same and `j2` does not come after `j`.
pub open spec fn yields_to(values: Seq<Option<i32>>, i2: int, j2: int, i: int, j: int) -> bool {
    ||| sum_at(values, i2, j2) < sum_at(values, i, j)
    ||| (sum_at(values, i2, j2) == sum_at(values, i, j) && i < i2)
    ||| (sum_at(values, i2, j2) == sum_at(values, i, j) && i == i2 && j2 <= j)
}

/// Lines `i` and `j` are the pair that a search returns: they meet the
/// relation, no pair that meets it has a larger sum, of those with the same
/// sum none has an earlier first line, and of those with the same sum and
/// first line none has a later second line.
pub open spec fn wins(values: Seq<Option<i32>>, a: int, i: int, j: int) -> bool {
    &&& is_match(values, a, i, j)
    &&& forall|i2: int, j2: int| #[trigger]
        is_match(values, a, i2, j2) ==> yields_to(values, i2, j2, i, j)
}

/// At most one pair of lines wins, so that a text and a difference leave one
/// result only.
pub proof fn lemma_wins_unique(values: Seq<Option<i32>>, a: int, i: int, j: int, i2: int, j2: int)
    requires
        wins(values, a, i, j),
        wins(values, a, i2, j2),
    ensures
        i == i2,
        j == j2,
{
    assert(is_match(values, a, i, j));
    assert(is_match(values, a, i2, j2));
}

/// The candidate that the fold keeps, read as lines: where no two lines meet
/// the relation there is none, and else it is made of the lines that win and
/// of their values.
pub proof fn lemma_winner_characterized(values: Seq<Option<i32>>, a: int)
    requires
        values.len() <= usize::MAX,
    ensures
        match winner(values, a) {
            Some(w) => {
                &&& wins(values, a, (w.0).0 as int, (w.1).0 as int)
                &&& values[(w.0).0 as int] == Some((w.0).1)
                &&& values[(w.1).0 as int] == Some((w.1).1)
            },
            None => forall|i: int, j: int| !#[trigger] is_match(values, a, i, j),
        },
{
    let all = produce(values);
    let candidates = retain(generate(all), a);
    lemma_produce_keeps_positions(values);
    lemma_reduce_selects_best(candidates);
    assert(ascending(all));
    lemma_generate_in_scan_order(all, all);
    lemma_retain_in_scan_order(generate(all), a);
    assert forall|i: int, j: int| #[trigger] is_match(values, a, i, j) implies candidates.contains(
        ((i as usize, values[i]->0), (j as usize, values[j]->0)),
    ) by {
        let x: PairOfPairs = ((i as usize, values[i]->0), (j as usize, values[j]->0));
        assert(all.contains(x.0));
        assert(all.contains(x.1));
        lemma_generate_members(all, all, x);
        lemma_retain_members(generate(all), a, x);
    }
    match winner(values, a) {
        Some(w) => {
            lemma_retain_members(generate(all), a, w);
            lemma_generate_members(all, all, w);
            let p = choose|p: int| 0 <= p < all.len() && all[p] == w.0;
            let q = choose|q: int| 0 <= q < all.len() && all[q] == w.1;
            assert(values[all[p].0 as int] == Some(all[p].1));
            assert(values[all[q].0 as int] == Some(all[q].1));
            lemma_reduce_keeps_last_of_best(candidates);
            let k = choose|k: int|
                0 <= k < candidates.len() && #[trigger] candidates[k] == w && forall|l: int|
                    k < l < candidates.len() ==> beaten(#[trigger] candidates[l], w);
            let wi = (w.0).0 as int;
            let wj = (w.1).0 as int;
            assert forall|i2: int, j2: int| #[trigger]
                is_match(values, a, i2, j2) implies yields_to(values, i2, j2, wi, wj) by {
                let x: PairOfPairs = ((i2 as usize, values[i2]->0), (j2 as usize, values[j2]->0));
                assert(candidates.contains(x));
                let m = choose|m: int| 0 <= m < candidates.len() && candidates[m] == x;
                assert(not_better(candidates[m], w));
                if m > k {
                    assert(beaten(candidates[m], w));
                } else if m < k {
                    assert(comes_before(candidates[m], candidates[k]));
                }
            }
        },
        None => {
            assert forall|i: int, j: int| !#[trigger] is_match(values, a, i, j) by {
                if is_match(values, a, i, j) {
                    assert(candidates.contains(
                        ((i as usize, values[i]->0), (j as usize, values[j]->0)),
                    ));
                }
            }
        },
    }
}

/// `result` is what a search over lines with these values owes for the
/// difference `a`. A negative difference is refused whatever the lines hold.
/// Else the search fails for want of input exactly where no line holds a
/// value, fails for want of a pair exactly where some line holds a value and
/// no two lines meet the relation, and in every other case returns the
/// numbers, counted from one, of the lines that win.
pub open spec fn explains(
    values: Seq<Option<i32>>,
    a: int,
    result: Result<(usize, usize), FailureReason>,
) -> bool {
    match result {
        Ok((line_i, line_j)) => a >= 0 && line_i >= 1 && line_j >= 1 && wins(
            values,
            a,
            line_i - 1,
            line_j - 1,
        ),
        Err(FailureReason::InvalidArgument) => a < 0,
        Err(FailureReason::NoParsableInput) => a >= 0 && forall|i: int|
            0 <= i < values.len() ==> (#[trigger] values[i]) is None,
        Err(FailureReason::NoSatisfyingPair) => a >= 0 && (exists|i: int|
            0 <= i < values.len() && (#[trigger] values[i]) is Some) && forall|i: int, j: int|
            !#[trigger] is_match(values, a, i, j),
        Err(FailureReason::SourceUnavailable) => false,
    }
}

/// A text and a difference leave one result only: two results that both are
/// what the search owes are the same.
pub proof fn lemma_result_unique(
    values: Seq<Option<i32>>,
    a: int,
    first: Result<(usize, usize), FailureReason>,
    second: Result<(usize, usize), FailureReason>,
)
    requires
        explains(values, a, first),
        explains(values, a, second),
    ensures
        first == second,
{
    match (first, second) {
        (Ok((i, j)), Ok((i2, j2))) => {
            lemma_wins_unique(values, a, i - 1, j - 1, i2 - 1, j2 - 1);
        },
        (Ok((i, j)), Err(_)) => {
            assert(is_match(values, a, i - 1, j - 1));
        },
        (Err(_), Ok((i, j))) => {
            assert(is_match(values, a, i - 1, j - 1));
        },
        (Err(_), Err(_)) => {},
    }
}

/// The result of the fold over the candidates is what the search owes.
pub proof fn lemma_outcome_characterized(values: Seq<Option<i32>>, a: int)
    requires
        values.len() <= usize::MAX,
    ensures
        explains(values, a, outcome(values, a)),
{
    let all = produce(values);
    lemma_produce_keeps_positions(values);
    lemma_winner_characterized(values, a);
    if a >= 0 {
        if all.len() == 0 {
            assert forall|i: int| 0 <= i < values.len() implies (#[trigger] values[i]) is None by {
                if values[i] is Some {
                    assert(all.contains((i as usize, values[i]->0)));
                }
            }
        } else {
            assert(values[all[0].0 as int] == Some(all[0].1));
            match winner(values, a) {
                Some(w) => {
                    assert(outcome(values, a) == Ok::<(usize, usize), FailureReason>(
                        line_numbers(w),
                    ));
                },
                None => {},
            }
        }
    }
}

} // verus!
