use iterators_task::{
    borrow_read_line, map_string_to_pair, reduction_functor, LineSource, NumberIterator,
    PairOfPairs,
};

#[test]
fn map_string_to_pair_test() {
    type N = i32;

    const TABLE: &[&str] = &["1", "a", " 3 ", "-4", "5b"];

    assert_eq!(
        map_string_to_pair(TABLE).as_slice(),
        &[(0usize, 1 as N), (2, 3), (3, -4)]
    );
}

#[test]
fn borrow_read_line_test() {
    let mut buf: LineSource = LineSource::new("Hello \nHello World\nHello World!");

    let mut lines: Vec<String> = Vec::new();

    while let Some(line) = borrow_read_line(&mut buf) {
        lines.push(line);
    }

    assert_eq!(
        lines.as_slice(),
        &["Hello \n", "Hello World\n", "Hello World!"]
    );
}

#[test]
fn reduction_functor_test() {
    const I5J7: PairOfPairs = ((0, 5), (1, 7));

    const I6J8: PairOfPairs = ((0, 6), (1, 8));

    const I6J6: PairOfPairs = ((0, 6), (1, 6));

    assert_eq!(reduction_functor(I5J7, I6J8), I6J8);

    assert_eq!(reduction_functor(I6J8, I5J7), I6J8);

    // Equal sums on one outer line: the candidate met last is kept.
    assert_eq!(reduction_functor(I5J7, I6J6), I6J6);

    assert_eq!(reduction_functor(I6J6, I5J7), I5J7);

    assert_eq!(reduction_functor(I6J8, I6J6), I6J8);

    assert_eq!(reduction_functor(I6J6, I6J8), I6J8);
}

#[test]
fn number_iterator_test() {
    type N = i32;

    const TABLE: &[&str] = &["1", "a", " 3 ", "-4", "5b"];

    assert_eq!(
        TABLE.numbers().as_slice(),
        &[Some(1 as N), None, Some(3), Some(-4), None]
    );
}

#[test]
fn reduction_functor_prefers_larger_sum() {
    let small: PairOfPairs = ((0, -3), (9, -2));
    let large: PairOfPairs = ((7, 1), (2, 2));
    assert_eq!(reduction_functor(small, large), large);
    assert_eq!(reduction_functor(large, small), large);
}

#[test]
fn reduction_functor_tie_goes_to_earlier_outer_line() {
    let early: PairOfPairs = ((1, 4), (6, 6));
    let late: PairOfPairs = ((3, 4), (2, 6));
    assert_eq!(reduction_functor(early, late), early);
    assert_eq!(reduction_functor(late, early), early);
}

#[test]
fn reduction_functor_sums_do_not_wrap() {
    let top: PairOfPairs = ((5, i32::MAX), (6, i32::MAX));
    let bottom: PairOfPairs = ((0, i32::MIN), (1, i32::MIN));
    assert_eq!(reduction_functor(top, bottom), top);
    assert_eq!(reduction_functor(bottom, top), top);
}

#[test]
fn map_string_to_pair_keeps_line_positions() {
    const TABLE: &[&str] = &["1", "a", "3"];
    assert_eq!(map_string_to_pair(TABLE), vec![(0usize, 1), (2, 3)]);
}

#[test]
fn map_string_to_pair_without_values_is_empty() {
    const TABLE: &[&str] = &["x", "", "y"];
    assert_eq!(map_string_to_pair(TABLE), Vec::<(usize, i32)>::new());
    const NOTHING: &[&str] = &[];
    assert_eq!(map_string_to_pair(NOTHING), Vec::<(usize, i32)>::new());
}

#[test]
fn numbers_of_owned_lines() {
    let lines: Vec<String> = vec![String::from(" 12\n"), String::from("x"), String::from("-7")];
    assert_eq!(lines.numbers(), vec![Some(12), None, Some(-7)]);
}

#[test]
fn numbers_of_a_source_are_those_of_its_unread_lines() {
    let mut source = LineSource::new("1\ntwo\n3\n4");
    assert_eq!(borrow_read_line(&mut source), Some(String::from("1\n")));
    assert_eq!(source.numbers(), vec![None, Some(3), Some(4)]);
}

#[test]
fn pairs_of_a_source_count_from_its_position() {
    let source = LineSource::new("1\ntwo\n3\n");
    assert_eq!(map_string_to_pair(source), vec![(0usize, 1), (2, 3)]);
}

#[test]
fn line_source_reads_and_rewinds() {
    let mut source = LineSource::new("10\n\nabc\n-2");
    assert_eq!(source.next_number(), Some(Some(10)));
    assert_eq!(source.next_number(), Some(None));
    assert_eq!(source.next_number(), Some(None));
    assert_eq!(source.next_number(), Some(Some(-2)));
    assert_eq!(source.next_number(), None);
    assert_eq!(source.next_number(), None);
    source.rewind();
    assert_eq!(source.next_number(), Some(Some(10)));
    assert_eq!(borrow_read_line(&mut source), Some(String::from("\n")));
    assert_eq!(borrow_read_line(&mut source), Some(String::from("abc\n")));
    assert_eq!(borrow_read_line(&mut source), Some(String::from("-2")));
    assert_eq!(borrow_read_line(&mut source), None);
}

#[test]
fn line_source_of_empty_text_has_no_line() {
    let mut source = LineSource::new("");
    assert_eq!(borrow_read_line(&mut source), None);
    assert_eq!(source.next_number(), None);
}

#[test]
fn final_line_feed_starts_no_line() {
    let mut source = LineSource::new("7\n");
    assert_eq!(borrow_read_line(&mut source), Some(String::from("7\n")));
    assert_eq!(borrow_read_line(&mut source), None);
}

#[test]
fn lines_keep_characters_beyond_ascii() {
    let mut source = LineSource::new("gr\u{fc}n\n\u{3000}8\u{a0}\n");
    assert_eq!(borrow_read_line(&mut source), Some(String::from("gr\u{fc}n\n")));
    assert_eq!(source.next_number(), Some(Some(8)));
    assert_eq!(source.next_number(), None);
}
