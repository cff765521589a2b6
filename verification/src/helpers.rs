//! The indexed values of a text's lines, and the rule that picks one of two
//! candidates.

use vstd::prelude::*;
use crate::lines::numbers_spec;
use crate::number_iterator::NumberIterator;
use crate::pipeline::{combine, lemma_produce_step, produce};
use crate::types::{Pair, PairOfPairs};

verus! {

/// The pairs of `values` are exactly the lines that hold a value, each under
/// its own position and in the order of the lines: a line without a value is
/// left out and moves no other line's number.
pub proof fn lemma_produce_keeps_positions(values: Seq<Option<i32>>)
    requires
        values.len() <= usize::MAX,
    ensures
        forall|k: int|
            0 <= k < produce(values).len() ==> {
                let pair = #[trigger] produce(values)[k];
                pair.0 < values.len() && values[pair.0 as int] == Some(pair.1)
            },
        forall|k: int, l: int|
            0 <= k < l < produce(values).len() ==> (#[trigger] produce(values)[k]).0 < (
            #[trigger] produce(values)[l]).0,
        forall|i: int|
            0 <= i < values.len() && values[i] is Some ==> produce(values).contains(
                (i as usize, (#[trigger] values[i])->0),
            ),
    decreases values.len(),
{
    if values.len() > 0 {
        let shorter = values.drop_last();
        let before = produce(shorter);
        lemma_produce_keeps_positions(shorter);
        let last = (values.len() - 1) as usize;
        assert forall|i: int| 0 <= i < values.len() && values[i] is Some implies produce(
            values,
        ).contains((i as usize, (#[trigger] values[i])->0)) by {
            if i < shorter.len() {
                assert(shorter[i] == values[i]);
                let k = choose|k: int|
                    0 <= k < before.len() && before[k] == (i as usize, values[i]->0);
                assert(produce(values)[k] == before[k]);
            } else {
                assert(produce(values)[before.len() as int] == (last, values[i]->0));
            }
        }
        assert forall|k: int| 0 <= k < produce(values).len() implies {
            let pair = #[trigger] produce(values)[k];
            pair.0 < values.len() && values[pair.0 as int] == Some(pair.1)
        } by {
            if k < before.len() {
                assert(produce(values)[k] == before[k]);
                assert(shorter[before[k].0 as int] == values[before[k].0 as int]);
            }
        }
        assert forall|k: int, l: int| 0 <= k < l < produce(values).len() implies (
        #[trigger] produce(values)[k]).0 < (#[trigger] produce(values)[l]).0 by {
            assert(produce(values)[k] == before[k]);
            if l < before.len() {
                assert(produce(values)[l] == before[l]);
            }
        }
    }
}

/// The lines of `line_iter` that hold a value, each as the pair of its
/// zero-based position among all the lines and its value, in order.
pub fn map_string_to_pair<I: NumberIterator>(line_iter: I) -> (pairs: Vec<Pair>)
    ensures
        pairs@ == produce(numbers_spec(line_iter.lines())),
{
    let values: Vec<Option<i32>> = line_iter.numbers();
    let mut pairs: Vec<Pair> = Vec::new();
    let mut line: usize = 0;
    while line < values.len()
        invariant
            line <= values@.len(),
            pairs@ == produce(values@.take(line as int)),
        decreases values@.len() - line,
    {
        proof {
            lemma_produce_step(values@, line as int);
        }
        match values[line] {
            Some(number) => {
                pairs.push((line, number));
            },
            None => {},
        }
        line = line + 1;
    }
    assert(values@.take(line as int) =~= values@);
    pairs
}

/// Keeps one of two candidates: the one whose values have the larger sum; of
/// two with the same sum, `left` where its outer line comes first, and
/// `right` in every other case.
pub fn reduction_functor(left: PairOfPairs, right: PairOfPairs) -> (kept: PairOfPairs)
    ensures
        kept == combine(left, right),
{
    let left_sum: i64 = (left.0).1 as i64 + (left.1).1 as i64;
    let right_sum: i64 = (right.0).1 as i64 + (right.1).1 as i64;
    if left_sum > right_sum {
        left
    } else if left_sum == right_sum && (left.0).0 < (right.0).0 {
        left
    } else {
        right
    }
}

} // verus!
