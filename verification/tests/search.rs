use iterators_task::{iterators_main, scan_inner, FailureReason, LineSource, PairOfPairs};

#[test]
fn main_test() {
    type N = i32;

    const A: N = 1;

    const CONTENT: &str = "1\n3\n 4\n dg\n -5\n2";

    assert_eq!(iterators_main(A, CONTENT).unwrap(), (2, 3));
}

#[test]
fn repeated_runs_agree() {
    let text = "4\n1\n x\n5\n2\n5\n";
    let first = iterators_main(1, text);
    assert_eq!(first, Ok((1, 6)));
    assert_eq!(iterators_main(1, text), first);
    assert_eq!(iterators_main(1, text), first);
}

#[test]
fn largest_sum_wins() {
    assert_eq!(iterators_main(1, "1\n2\n5\n6"), Ok((3, 4)));
    assert_eq!(iterators_main(1, "5\n6\n1\n2"), Ok((1, 2)));
    assert_eq!(iterators_main(3, "-10\n-7\n-4\n0"), Ok((2, 3)));
}

#[test]
fn equal_sums_go_to_the_earlier_outer_line() {
    assert_eq!(iterators_main(1, "1\n1\n2"), Ok((1, 3)));
    assert_eq!(iterators_main(1, "2\n1\nx\n1"), Ok((2, 1)));
}

#[test]
fn equal_sums_on_one_outer_line_go_to_the_later_inner_line() {
    assert_eq!(iterators_main(1, "1\n2\n2"), Ok((1, 3)));
    assert_eq!(iterators_main(0, "3\n3\n3"), Ok((1, 3)));
}

#[test]
fn a_line_pairs_with_itself_for_no_difference() {
    assert_eq!(iterators_main(0, "5"), Ok((1, 1)));
    assert_eq!(iterators_main(0, "x\n5\n"), Ok((2, 2)));
}

#[test]
fn inner_line_may_come_first() {
    assert_eq!(iterators_main(1, "4\n3"), Ok((2, 1)));
}

#[test]
fn lines_without_a_value_keep_their_number() {
    assert_eq!(iterators_main(2, "1\na\n3"), Ok((1, 3)));
    assert_eq!(iterators_main(2, "\n\n1\n\n\n3\n"), Ok((3, 6)));
}

#[test]
fn negative_difference_is_refused() {
    assert_eq!(iterators_main(-1, "1\n0"), Err(FailureReason::InvalidArgument));
    assert_eq!(iterators_main(-1, ""), Err(FailureReason::InvalidArgument));
    assert_eq!(iterators_main(-1, "x\ny"), Err(FailureReason::InvalidArgument));
    assert_eq!(iterators_main(i32::MIN, "5"), Err(FailureReason::InvalidArgument));
}

#[test]
fn text_without_values_is_told_from_text_without_a_pair() {
    assert_eq!(iterators_main(1, "x\ny"), Err(FailureReason::NoParsableInput));
    assert_eq!(iterators_main(1, ""), Err(FailureReason::NoParsableInput));
    assert_eq!(iterators_main(0, "\n \n"), Err(FailureReason::NoParsableInput));
    assert_eq!(iterators_main(100, "1\n2"), Err(FailureReason::NoSatisfyingPair));
    assert_eq!(iterators_main(1, "7"), Err(FailureReason::NoSatisfyingPair));
}

#[test]
fn difference_is_not_taken_modulo_the_type() {
    assert_eq!(
        iterators_main(1, "2147483647\n-2147483648"),
        Err(FailureReason::NoSatisfyingPair)
    );
    assert_eq!(iterators_main(i32::MAX, "-1\n2147483646"), Ok((1, 2)));
    assert_eq!(iterators_main(i32::MAX, "0\n2147483647\n-2147483648\n-1"), Ok((1, 2)));
}

#[test]
fn scan_inner_folds_one_row() {
    let mut inner = LineSource::new("1\n4\nx\n4\n9");
    assert_eq!(inner.next_number(), Some(Some(1)));
    assert_eq!(scan_inner(&mut inner, (0, 1), 3, None), Some(((0, 1), (3, 4))));
    assert_eq!(scan_inner(&mut inner, (0, 1), 2, None), None);
    let kept: PairOfPairs = ((0, 6), (4, 9));
    assert_eq!(scan_inner(&mut inner, (1, 4), 5, Some(kept)), Some(kept));
    assert_eq!(scan_inner(&mut inner, (1, 4), 0, Some(((0, 0), (0, 0)))), Some(((1, 4), (3, 4))));
    assert_eq!(scan_inner(&mut inner, (3, 0), 1, Some(((5, 0), (0, 1)))), Some(((3, 0), (0, 1))));
}

#[test]
fn every_failure_has_its_sentence() {
    assert_eq!(
        FailureReason::InvalidArgument.message(),
        "Passed argument for 'A' is below zero!"
    );
    assert_eq!(
        FailureReason::SourceUnavailable.message(),
        "Couldn't open the file for reading!"
    );
    assert_eq!(
        FailureReason::NoParsableInput.message(),
        "No integer values loaded from file!"
    );
    assert_eq!(
        FailureReason::NoSatisfyingPair.message(),
        "No pair satisfies the equation: J = I + A"
    );
}
