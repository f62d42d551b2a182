//! A small concrete chunk type: a bounded run of characters whose summary is
//! a (wrapping) count of newline characters.
//!
//! This is the kind of instantiation a text editor would use: the tree over
//! [`TextChunk`] stores a document as a sequence of characters, `len` is the
//! character count and `info` is the line count. The newline count is carried
//! modulo `usize::MAX + 1`, which makes the summary algebra a commutative
//! group with total executable operations.

use vstd::prelude::*;
use vstd::wrapping::usize_specs;
use crate::chunk::Chunk;
use crate::chunk::Info;

verus! {

/// The bound on the length of one [`TextChunk`].
pub const TEXT_CHUNK_MAX_LEN: usize = 4;

/// A newline count, wrapping on overflow.
#[derive(Clone, Copy, Debug, PartialEq, Eq)]
pub struct LineInfo {
    /// The number of newline characters, modulo `usize::MAX + 1`.
    pub newlines: usize,
}

impl Info for LineInfo {
    open spec fn id() -> Self {
        LineInfo { newlines: 0 }
    }

    open spec fn plus(a: Self, b: Self) -> Self {
        LineInfo { newlines: usize_specs::wrapping_add(a.newlines, b.newlines) }
    }

    open spec fn minus(a: Self, b: Self) -> Self {
        LineInfo { newlines: usize_specs::wrapping_sub(a.newlines, b.newlines) }
    }

    proof fn plus_commutes(a: Self, b: Self) {
    }

    proof fn plus_associates(a: Self, b: Self, c: Self) {
    }

    proof fn plus_identity(a: Self) {
    }

    proof fn minus_cancels(a: Self, b: Self) {
    }

    fn new() -> (r: Self) {
        LineInfo { newlines: 0 }
    }

    fn accumulate(&mut self, other: Self) {
        self.newlines = self.newlines.wrapping_add(other.newlines);
    }

    fn subtract(&mut self, other: Self) {
        self.newlines = self.newlines.wrapping_sub(other.newlines);
    }
}

/// The newline weight of one character.
pub open spec fn newline_weight(c: char) -> usize {
    if c == '\n' {
        1
    } else {
        0
    }
}

/// The wrapping count of newline characters in a sequence.
pub open spec fn newline_count(s: Seq<char>) -> usize
    decreases s.len(),
{
    if s.len() == 0 {
        0
    } else {
        usize_specs::wrapping_add(newline_count(s.drop_last()), newline_weight(s.last()))
    }
}

/// A bounded run of characters.
#[derive(Debug, PartialEq, Eq)]
pub struct TextChunk {
    chars: Vec<char>,
}

impl TextChunk {
    /// Builds a chunk from at most [`TEXT_CHUNK_MAX_LEN`] characters.
    pub fn from_chars(chars: Vec<char>) -> (r: Self)
        requires
            chars@.len() <= TEXT_CHUNK_MAX_LEN,
        ensures
            r.content() == chars@,
    {
        TextChunk { chars }
    }

    /// The characters held by this chunk.
    pub fn chars(&self) -> (r: &Vec<char>)
        ensures
            r@ == self.content(),
    {
        &self.chars
    }
}

impl Chunk for TextChunk {
    type Unit = char;

    type Info = LineInfo;

    closed spec fn content(&self) -> Seq<char> {
        self.chars@
    }

    open spec fn max_len_spec() -> usize {
        TEXT_CHUNK_MAX_LEN
    }

    open spec fn info_of(s: Seq<char>) -> LineInfo {
        LineInfo { newlines: newline_count(s) }
    }

    proof fn max_len_positive() {
    }

    proof fn info_of_concat(s: Seq<char>, t: Seq<char>) {
        lemma_newline_count_concat(s, t);
    }

    proof fn info_of_empty() {
    }

    fn new() -> (r: Self) {
        TextChunk { chars: Vec::new() }
    }

    fn len(&self) -> (r: usize) {
        self.chars.len()
    }

    fn max_len() -> (r: usize) {
        TEXT_CHUNK_MAX_LEN
    }

    fn info(&self) -> (r: LineInfo) {
        let mut count: usize = 0;
        let mut i: usize = 0;
        while i < self.chars.len()
            invariant
                i <= self.chars@.len(),
                count == newline_count(self.chars@.take(i as int)),
            decreases self.chars@.len() - i,
        {
            proof {
                assert(self.chars@.take(i + 1).drop_last() =~= self.chars@.take(i as int));
                assert(self.chars@.take(i + 1).last() == self.chars@[i as int]);
            }
            if self.chars[i] == '\n' {
                count = count.wrapping_add(1);
            }
            i += 1;
        }
        proof {
            assert(self.chars@.take(self.chars@.len() as int) =~= self.chars@);
        }
        LineInfo { newlines: count }
    }

    fn move_left(&mut self, other: &mut Self, end: usize) {
        let mut i: usize = 0;
        while i < end
            invariant
                i <= end,
                end <= other.chars@.len(),
                other.chars@ == old(other).chars@,
                self.chars@ == old(self).chars@ + other.chars@.take(i as int),
            decreases end - i,
        {
            self.chars.push(other.chars[i]);
            proof {
                assert(other.chars@.take(i + 1)
                    =~= other.chars@.take(i as int).push(other.chars@[i as int]));
            }
            i += 1;
        }
        let mut rest: Vec<char> = Vec::new();
        let mut j: usize = end;
        while j < other.chars.len()
            invariant
                end <= j <= other.chars@.len(),
                other.chars@ == old(other).chars@,
                rest@ == other.chars@.subrange(end as int, j as int),
            decreases other.chars@.len() - j,
        {
            rest.push(other.chars[j]);
            proof {
                assert(other.chars@.subrange(end as int, j + 1)
                    =~= other.chars@.subrange(end as int, j as int).push(other.chars@[j as int]));
            }
            j += 1;
        }
        other.chars = rest;
        proof {
            assert(other.chars@ =~= old(other).chars@.skip(end as int));
        }
    }

    fn move_right(&mut self, other: &mut Self, start: usize) {
        let mut moved: Vec<char> = Vec::new();
        let mut i: usize = start;
        while i < self.chars.len()
            invariant
                start <= i <= self.chars@.len(),
                self.chars@ == old(self).chars@,
                moved@ == self.chars@.subrange(start as int, i as int),
            decreases self.chars@.len() - i,
        {
            moved.push(self.chars[i]);
            proof {
                assert(self.chars@.subrange(start as int, i + 1)
                    =~= self.chars@.subrange(start as int, i as int).push(self.chars@[i as int]));
            }
            i += 1;
        }
        let mut j: usize = 0;
        while j < other.chars.len()
            invariant
                j <= other.chars@.len(),
                other.chars@ == old(other).chars@,
                moved@ == old(self).chars@.skip(start as int)
                    + other.chars@.take(j as int),
            decreases other.chars@.len() - j,
        {
            moved.push(other.chars[j]);
            proof {
                assert(other.chars@.take(j + 1)
                    =~= other.chars@.take(j as int).push(other.chars@[j as int]));
            }
            j += 1;
        }
        self.chars.truncate(start);
        other.chars = moved;
        proof {
            assert(self.chars@ =~= old(self).chars@.take(start as int));
            assert(old(other).chars@.take(old(other).chars@.len() as int)
                =~= old(other).chars@);
        }
    }
}

/// The newline count distributes over concatenation, up to wrapping.
proof fn lemma_newline_count_concat(s: Seq<char>, t: Seq<char>)
    ensures
        newline_count(s + t) == usize_specs::wrapping_add(newline_count(s), newline_count(t)),
    decreases t.len(),
{
    if t.len() == 0 {
        assert(s + t =~= s);
    } else {
        lemma_newline_count_concat(s, t.drop_last());
        assert((s + t).drop_last() =~= s + t.drop_last());
        assert((s + t).last() == t.last());
    }
}

} // verus!
