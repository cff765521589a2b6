//! Lines of text as a sequence of optional integers.

use vstd::prelude::*;
use crate::lines::{lemma_split_lines_advance, numbers_spec, split_lines, LineSource};
use crate::token::tokenize;

verus! {

/// Something that holds lines of text and can give the value of each.
pub trait NumberIterator: Sized {
    /// The lines, in order.
    spec fn lines(&self) -> Seq<Seq<char>>;

    /// The value of every line in order, `None` where a line holds none.
    fn numbers(self) -> (out: Vec<Option<i32>>)
        ensures
            out@ == numbers_spec(self.lines()),
    ;
}

impl<'a, 'b> NumberIterator for &'a [&'b str] {
    open spec fn lines(&self) -> Seq<Seq<char>> {
        Seq::new(self@.len(), |i: int| self@[i]@)
    }

    fn numbers(self) -> (out: Vec<Option<i32>>) {
        let mut out: Vec<Option<i32>> = Vec::new();
        let mut i: usize = 0;
        while i < self.len()
            invariant
                i <= self@.len(),
                out@ == numbers_spec(self.lines().take(i as int)),
            decreases self@.len() - i,
        {
            out.push(tokenize(self[i]));
            i = i + 1;
            assert(out@ =~= numbers_spec(self.lines().take(i as int)));
        }
        assert(self.lines().take(i as int) =~= self.lines());
        out
    }
}

impl NumberIterator for Vec<String> {
    open spec fn lines(&self) -> Seq<Seq<char>> {
        Seq::new(self@.len(), |i: int| self@[i]@)
    }

    fn numbers(self) -> (out: Vec<Option<i32>>) {
        let mut out: Vec<Option<i32>> = Vec::new();
        let mut i: usize = 0;
        while i < self.len()
            invariant
                i <= self@.len(),
                out@ == numbers_spec(self.lines().take(i as int)),
            decreases self@.len() - i,
        {
            out.push(tokenize(self[i].as_str()));
            i = i + 1;
            assert(out@ =~= numbers_spec(self.lines().take(i as int)));
        }
        assert(self.lines().take(i as int) =~= self.lines());
        out
    }
}

impl NumberIterator for LineSource {
    /// The lines that have not been read yet.
    open spec fn lines(&self) -> Seq<Seq<char>> {
        split_lines(self.remaining())
    }

    fn numbers(self) -> (out: Vec<Option<i32>>) {
        let ghost rest = self.remaining();
        let ghost start = self.position();
        let ghost lines = split_lines(rest);
        let mut source = self;
        let mut out: Vec<Option<i32>> = Vec::new();
        assert(lines.skip(0) =~= lines);
        assert(rest.skip(0) =~= rest);
        loop
            invariant
                source.text().skip(start as int) == rest,
                start <= source.position(),
                lines == split_lines(rest),
                out@.len() <= lines.len(),
                out@ == numbers_spec(lines.take(out@.len() as int)),
                lines.skip(out@.len() as int) == split_lines(
                    rest.skip(source.position() - start),
                ),
            ensures
                out@ == numbers_spec(lines),
            decreases source.text().len() - source.position(),
        {
            let ghost before = source.position();
            let ghost count = out@.len() as int;
            let next = source.next_number();
            proof {
                assert(rest.skip(before - start) =~= source.text().skip(before as int));
                lemma_split_lines_advance(rest, before - start, count);
            }
            match next {
                Some(value) => {
                    out.push(value);
                    assert(out@ =~= numbers_spec(lines.take(count + 1)));
                },
                None => {
                    assert(lines.take(count) =~= lines);
                    break ;
                },
            }
        }
        out
    }
}

} // verus!
