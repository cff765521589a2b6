//! Finds two lines of a text whose integer values differ by a given amount.
//!
//! Each line holds at most one integer. For a difference `a` that is not
//! negative, the search looks at every line with a value against every line
//! with a value, itself included, keeps the pairs whose second value is the
//! first plus `a`, and returns the line numbers of the pair with the largest
//! sum. The text is kept once and read again from its start for every outer
//! line, so that no list of lines or of values is built.

use vstd::prelude::*;

pub mod helpers;
pub mod laws;
pub mod lines;
pub mod number_iterator;
pub mod pipeline;
pub mod token;
pub mod types;

pub use crate::helpers::{map_string_to_pair, reduction_functor};
pub use crate::lines::{borrow_read_line, LineSource};
pub use crate::number_iterator::NumberIterator;
pub use crate::token::tokenize;
pub use crate::types::{FailureReason, Pair, PairOfPairs};

use crate::laws::{explains, lemma_outcome_characterized, lemma_winner_characterized};
use crate::lines::{lemma_split_lines_advance, lemma_split_lines_len, numbers_spec, split_lines};
use crate::pipeline::{
    fold_from, generate_from, lemma_fold_concat, lemma_fold_push, lemma_generate_push,
    lemma_produce_step, lemma_retain_concat, lemma_retain_push, lemma_row_push, outcome, produce,
    reduce, retain, row, winner,
};

verus! {

/// One inner scan: reads `inner` from its start to its end and folds into
/// `kept` every candidate of `pair_i` with a line of the text that meets the
/// relation, in the order of the lines.
pub fn scan_inner(
    inner: &mut LineSource,
    pair_i: Pair,
    a: i32,
    kept: Option<PairOfPairs>,
) -> (best: Option<PairOfPairs>)
    ensures
        final(inner).text() == old(inner).text(),
        final(inner).position() == old(inner).text().len(),
        best == fold_from(
            kept,
            retain(row(pair_i, produce(numbers_spec(split_lines(old(inner).text())))), a as int),
        ),
{
    let ghost text = inner.text();
    let ghost lines = split_lines(text);
    let ghost values = numbers_spec(lines);
    inner.rewind();
    let mut best: Option<PairOfPairs> = kept;
    let mut line_j: usize = 0;
    proof {
        assert(lines.skip(0) =~= lines);
        assert(text.skip(0) =~= text);
        assert(values.take(0) =~= Seq::<Option<i32>>::empty());
        assert(row(pair_i, produce(values.take(0))) =~= Seq::<PairOfPairs>::empty());
    }
    loop
        invariant
            inner.text() == text,
            lines == split_lines(text),
            values == numbers_spec(lines),
            line_j <= lines.len(),
            line_j <= inner.position() <= text.len() <= usize::MAX,
            lines.skip(line_j as int) == split_lines(text.skip(inner.position() as int)),
            best == fold_from(
                kept,
                retain(row(pair_i, produce(values.take(line_j as int))), a as int),
            ),
        ensures
            inner.text() == text,
            inner.position() == text.len(),
            best == fold_from(kept, retain(row(pair_i, produce(values)), a as int)),
        decreases text.len() - inner.position(),
    {
        let ghost position = inner.position();
        let next = inner.next_number();
        proof {
            lemma_split_lines_advance(text, position as int, line_j as int);
        }
        match next {
            Some(token) => {
                proof {
                    lemma_produce_step(values, line_j as int);
                }
                match token {
                    Some(number_j) => {
                        let pair_j: Pair = (line_j, number_j);
                        proof {
                            let seen = produce(values.take(line_j as int));
                            lemma_row_push(pair_i, seen, pair_j);
                            lemma_retain_push(row(pair_i, seen), (pair_i, pair_j), a as int);
                            lemma_fold_push(
                                kept,
                                retain(row(pair_i, seen), a as int),
                                (pair_i, pair_j),
                            );
                        }
                        if number_j as i64 == pair_i.1 as i64 + a as i64 {
                            best =
                            match best {
                                Some(b) => Some(reduction_functor(b, (pair_i, pair_j))),
                                None => Some((pair_i, pair_j)),
                            };
                        }
                    },
                    None => {},
                }
                line_j = line_j + 1;
            },
            None => {
                assert(values.take(line_j as int) =~= values);
                break ;
            },
        }
    }
    best
}

/// Searches `text` for two lines of which the second holds the value of the
/// first plus `a`, and returns their line numbers, counted from one. The two
/// may stand in either order in the text, and for `a == 0` may be one line.
///
/// Fails with `InvalidArgument` where `a` is negative, whatever the text
/// holds; with `NoParsableInput` where no line holds a value; with
/// `NoSatisfyingPair` where some line does and no two lines meet the relation.
/// Of several pairs the one with the largest sum is returned; of those with
/// the largest sum the one whose first line comes first in the text; and of
/// those the one whose second line comes last.
pub fn iterators_main(a: i32, text: &str) -> (result: Result<(usize, usize), FailureReason>)
    ensures
        result == outcome(numbers_spec(split_lines(text@)), a as int),
        explains(numbers_spec(split_lines(text@)), a as int, result),
{
    if a < 0 {
        return Err(FailureReason::InvalidArgument);
    }
    let mut outer = LineSource::new(text);
    let mut inner = LineSource::new(text);
    let ghost lines = split_lines(text@);
    let ghost values = numbers_spec(lines);
    let ghost all = produce(values);
    let mut best: Option<PairOfPairs> = None;
    let mut non_empty: bool = false;
    let mut line_i: usize = 0;
    proof {
        assert(lines.skip(0) =~= lines);
        assert(text@.skip(0) =~= text@);
        assert(values.take(0) =~= Seq::<Option<i32>>::empty());
    }
    loop
        invariant
            outer.text() == text@,
            inner.text() == text@,
            lines == split_lines(text@),
            values == numbers_spec(lines),
            all == produce(values),
            line_i <= lines.len(),
            line_i <= outer.position() <= text@.len() <= usize::MAX,
            lines.skip(line_i as int) == split_lines(text@.skip(outer.position() as int)),
            non_empty == (produce(values.take(line_i as int)).len() > 0),
            best == reduce(
                retain(generate_from(produce(values.take(line_i as int)), all), a as int),
            ),
        ensures
            non_empty == (all.len() > 0),
            best == winner(values, a as int),
        decreases text@.len() - outer.position(),
    {
        let ghost position = outer.position();
        let next = outer.next_number();
        proof {
            lemma_split_lines_advance(text@, position as int, line_i as int);
        }
        match next {
            Some(token) => {
                proof {
                    lemma_produce_step(values, line_i as int);
                }
                match token {
                    Some(number_i) => {
                        let pair_i: Pair = (line_i, number_i);
                        proof {
                            let seen = produce(values.take(line_i as int));
                            let rows = generate_from(seen, all);
                            lemma_generate_push(seen, all, pair_i);
                            lemma_retain_concat(rows, row(pair_i, all), a as int);
                            lemma_fold_concat(
                                None,
                                retain(rows, a as int),
                                retain(row(pair_i, all), a as int),
                            );
                        }
                        non_empty = true;
                        best = scan_inner(&mut inner, pair_i, a, best);
                    },
                    None => {},
                }
                line_i = line_i + 1;
            },
            None => {
                assert(values.take(line_i as int) =~= values);
                break ;
            },
        }
    }
    proof {
        lemma_split_lines_len(text@);
        lemma_outcome_characterized(values, a as int);
        lemma_winner_characterized(values, a as int);
    }
    match best {
        Some(((line_i, _), (line_j, _))) => {
            Ok((line_i + 1, line_j + 1))
        },
        None => Err(
            if non_empty {
                FailureReason::NoSatisfyingPair
            } else {
                FailureReason::NoParsableInput
            },
        ),
    }
}

} // verus!
