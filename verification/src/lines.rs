//! A text as a sequence of lines, and a source that hands them out one by one
//! and can be taken back to its start.

use vstd::prelude::*;
use crate::token::{chars_of, tokenize_range, tokenize_spec};

verus! {

/// The length of the first line of `s`, its line feed included where it has
/// one. The last line of a text may go without.
pub open spec fn line_length(s: Seq<char>) -> nat
    decreases s.len(),
{
    if s.len() == 0 {
        0
    } else if s[0] == '\n' {
        1
    } else {
        1 + line_length(s.drop_first())
    }
}

/// The first line of `s`, with its line feed.
pub open spec fn first_line(s: Seq<char>) -> Seq<char> {
    s.take(line_length(s) as int)
}

/// What follows the first line of `s`.
pub open spec fn after_first_line(s: Seq<char>) -> Seq<char> {
    s.skip(line_length(s) as int)
}

/// The lines of `s` in order, each with its line feed. An empty text has no
/// line, and a line feed at the very end starts none.
pub open spec fn split_lines(s: Seq<char>) -> Seq<Seq<char>>
    decreases s.len(),
    via split_lines_terminates
{
    if s.len() == 0 {
        Seq::empty()
    } else {
        seq![first_line(s)] + split_lines(after_first_line(s))
    }
}

#[via_fn]
proof fn split_lines_terminates(s: Seq<char>) {
    lemma_line_length_bounds(s);
}

/// The value of each line, `None` where a line holds none.
pub open spec fn numbers_spec(lines: Seq<Seq<char>>) -> Seq<Option<i32>> {
    Seq::new(lines.len(), |i: int| tokenize_spec(lines[i]))
}

/// A text that is not empty has a first line of at least one character, and
/// no line is longer than the text.
pub proof fn lemma_line_length_bounds(s: Seq<char>)
    ensures
        line_length(s) <= s.len(),
        s.len() > 0 ==> line_length(s) >= 1,
    decreases s.len(),
{
    if s.len() > 0 && s[0] != '\n' {
        lemma_line_length_bounds(s.drop_first());
    }
}

/// A text has at most as many lines as characters.
pub proof fn lemma_split_lines_len(s: Seq<char>)
    ensures
        split_lines(s).len() <= s.len(),
    decreases s.len(),
{
    if s.len() > 0 {
        lemma_line_length_bounds(s);
        lemma_split_lines_len(after_first_line(s));
    }
}

/// Reading on from a place where `count` lines have been read: at the end of
/// the text all lines have been read; before it, the next line is the first
/// line of what remains, and the lines after it are those of the rest.
pub proof fn lemma_split_lines_advance(text: Seq<char>, position: int, count: int)
    requires
        0 <= position <= text.len(),
        0 <= count <= split_lines(text).len(),
        split_lines(text).skip(count) == split_lines(text.skip(position)),
    ensures
        position == text.len() ==> count == split_lines(text).len(),
        position < text.len() ==> {
            let n = line_length(text.skip(position));
            &&& 1 <= n
            &&& position + n <= text.len()
            &&& count < split_lines(text).len()
            &&& split_lines(text)[count] == first_line(text.skip(position))
            &&& split_lines(text).skip(count + 1) == split_lines(text.skip(position + n))
        },
{
    let lines = split_lines(text);
    let rest = text.skip(position);
    if position < text.len() {
        let n = line_length(rest);
        lemma_line_length_bounds(rest);
        assert(after_first_line(rest) =~= text.skip(position + n));
        assert(split_lines(rest) == seq![first_line(rest)] + split_lines(text.skip(position + n)));
        assert(lines.skip(count).len() > 0);
        assert(lines.skip(count)[0] == first_line(rest));
        assert(lines.skip(count + 1) =~= lines.skip(count).drop_first());
        assert(lines.skip(count).drop_first() =~= split_lines(text.skip(position + n)));
    } else {
        assert(split_lines(rest) =~= Seq::<Seq<char>>::empty());
        assert(lines.skip(count).len() == 0);
    }
}

/// Contract for std's `String::push`, which is taken on trust: the string
/// afterwards is the string before with `ch` behind its last character.
pub assume_specification[ String::push ](s: &mut String, ch: char)
    ensures
        final(s)@ == old(s)@.push(ch),
;

/// A text held in memory, read line by line from a position that moves
/// forward with each line and goes back to the start on `rewind`.
pub struct LineSource {
    chars: Vec<char>,
    pos: usize,
}

impl LineSource {
    #[verifier::type_invariant]
    spec fn position_in_text(&self) -> bool {
        self.pos <= self.chars.len()
    }

    /// The whole text.
    pub closed spec fn text(&self) -> Seq<char> {
        self.chars@
    }

    /// How many characters have been read.
    pub closed spec fn position(&self) -> nat {
        self.pos as nat
    }

    /// What has not been read yet.
    pub open spec fn remaining(&self) -> Seq<char> {
        self.text().skip(self.position() as int)
    }

    /// A source over `text`, at its start.
    pub fn new(text: &str) -> (source: LineSource)
        ensures
            source.text() == text@,
            source.position() == 0,
            source.text().len() <= usize::MAX,
    {
        LineSource { chars: chars_of(text), pos: 0 }
    }

    /// Goes back to the start of the text.
    pub fn rewind(&mut self)
        ensures
            final(self).text() == old(self).text(),
            final(self).position() == 0,
            final(self).text().len() <= usize::MAX,
    {
        self.pos = 0;
    }

    /// Where the line that starts at the position ends.
    fn line_end(&self) -> (end: usize)
        ensures
            self.position() <= end <= self.text().len(),
            end == self.position() + line_length(self.remaining()),
    {
        proof {
            use_type_invariant(self);
        }
        let n: usize = self.chars.len();
        let mut k: usize = self.pos;
        while k < n
            invariant
                self.pos <= k <= n == self.chars.len(),
                line_length(self.chars@.skip(self.pos as int)) == (k - self.pos) + line_length(
                    self.chars@.skip(k as int),
                ),
            decreases n - k,
        {
            assert(self.chars@.skip(k as int).drop_first() =~= self.chars@.skip(k as int + 1));
            if self.chars[k] == '\n' {
                return k + 1;
            }
            k = k + 1;
        }
        k
    }

    /// Reads the next line and returns its value: `None` at the end of the
    /// text, else `Some` of what the line holds.
    pub fn next_number(&mut self) -> (value: Option<Option<i32>>)
        ensures
            final(self).text() == old(self).text(),
            final(self).position() == old(self).position() + line_length(old(self).remaining()),
            old(self).position() <= final(self).position() <= final(self).text().len() <= usize::MAX,
            value == if old(self).remaining().len() == 0 {
                None
            } else {
                Some(tokenize_spec(first_line(old(self).remaining())))
            },
    {
        proof {
            use_type_invariant(&*self);
        }
        let start: usize = self.pos;
        if start == self.chars.len() {
            assert(self.remaining() =~= Seq::<char>::empty());
            return None;
        }
        let end: usize = self.line_end();
        let value = tokenize_range(&self.chars, start, end);
        assert(self.chars@.subrange(start as int, end as int) =~= first_line(self.remaining()));
        self.pos = end;
        Some(value)
    }
}

/// Reads the next line of `buf` on demand: `None` at the end of the text,
/// else the line as it stands there, its line feed included.
pub fn borrow_read_line(buf: &mut LineSource) -> (line: Option<String>)
    ensures
        final(buf).text() == old(buf).text(),
        final(buf).position() == old(buf).position() + line_length(old(buf).remaining()),
        old(buf).position() <= final(buf).position() <= final(buf).text().len() <= usize::MAX,
        match line {
            Some(l) => old(buf).remaining().len() > 0 && l@ == first_line(old(buf).remaining()),
            None => old(buf).remaining().len() == 0,
        },
{
    proof {
        use_type_invariant(&*buf);
    }
    let start: usize = buf.pos;
    if start == buf.chars.len() {
        assert(buf.remaining() =~= Seq::<char>::empty());
        return None;
    }
    let end: usize = buf.line_end();
    let mut line: String = String::new();
    let mut k: usize = start;
    while k < end
        invariant
            start <= k <= end <= buf.chars.len(),
            line@ == buf.chars@.subrange(start as int, k as int),
        decreases end - k,
    {
        line.push(buf.chars[k]);
        k = k + 1;
        assert(line@ =~= buf.chars@.subrange(start as int, k as int));
    }
    assert(buf.chars@.subrange(start as int, end as int) =~= first_line(buf.remaining()));
    buf.pos = end;
    Some(line)
}

} // verus!
