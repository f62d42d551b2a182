//! Leaf operations: merge-or-distribute between two adjacent leaves.
//!
//! Two adjacent leaves are either merged completely (when their combined
//! content fits in one chunk) or their content is redistributed so that each
//! side ends up holding half of the combined content, the left side taking
//! the floor. Content is never created or lost: every operation preserves the
//! concatenation of the two sides.

use vstd::prelude::*;
use crate::chunk::Chunk;
use crate::node::Leaf;

verus! {

impl<T: Chunk> Leaf<T> {
    /// A leaf holding an empty chunk.
    pub(crate) fn new() -> (r: Self)
        ensures
            r.chunk.content() == Seq::<T::Unit>::empty(),
    {
        Leaf { chunk: T::new() }
    }

    /// The number of units held by this leaf's chunk.
    pub(crate) fn len(&self) -> (r: usize)
        ensures
            r == self.chunk.content().len(),
    {
        self.chunk.len()
    }

    /// The summary of this leaf's content.
    pub(crate) fn info(&self) -> (r: T::Info)
        ensures
            r == T::info_of(self.chunk.content()),
    {
        self.chunk.info()
    }

    /// The chunk held by this leaf.
    pub(crate) fn as_chunk(&self) -> (r: &T)
        ensures
            *r == self.chunk,
    {
        &self.chunk
    }

    /// Transfers the prefix `[0, end)` of `other`'s content onto the end of
    /// `self`.
    pub(crate) fn move_left(&mut self, other: &mut Self, end: usize)
        requires
            end <= old(other).chunk.content().len(),
            old(self).chunk.content().len() + end <= T::max_len_spec(),
        ensures
            final(self).chunk.content() == old(self).chunk.content()
                + old(other).chunk.content().take(end as int),
            final(other).chunk.content() == old(other).chunk.content().skip(end as int),
    {
        self.chunk.move_left(&mut other.chunk, end);
    }

    /// Transfers the suffix `[start, len)` of `self`'s content onto the front
    /// of `other`.
    pub(crate) fn move_right(&mut self, other: &mut Self, start: usize)
        requires
            start <= old(self).chunk.content().len(),
            old(self).chunk.content().len() - start + old(other).chunk.content().len()
                <= T::max_len_spec(),
        ensures
            final(self).chunk.content() == old(self).chunk.content().take(start as int),
            final(other).chunk.content() == old(self).chunk.content().skip(start as int)
                + old(other).chunk.content(),
    {
        self.chunk.move_right(&mut other.chunk, start);
    }

    /// Rebalances two adjacent leaves (`self` left, `other` right) so that
    /// the left side holds the floor half of the combined content and the
    /// right side the rest. The combined content is preserved.
    pub(crate) fn distribute(&mut self, other: &mut Self)
        requires
            old(self).chunk.content().len() <= T::max_len_spec(),
            old(other).chunk.content().len() <= T::max_len_spec(),
        ensures
            final(self).chunk.content() == (old(self).chunk.content()
                + old(other).chunk.content()).take(
                ((old(self).chunk.content().len() + old(other).chunk.content().len())
                    / 2) as int,
            ),
            final(other).chunk.content() == (old(self).chunk.content()
                + old(other).chunk.content()).skip(
                ((old(self).chunk.content().len() + old(other).chunk.content().len())
                    / 2) as int,
            ),
    {
        let ghost total = old(self).chunk.content() + old(other).chunk.content();
        let ghost half = (total.len() / 2) as int;
        let self_len = self.len();
        let other_len = other.len();
        if self_len < other_len {
            let step = (other_len - self_len) / 2;
            proof {
                assert(half == self_len + step);
            }
            self.move_left(other, step);
            proof {
                assert(self.chunk.content() =~= total.take(half));
                assert(other.chunk.content() =~= total.skip(half));
            }
        } else if self_len > other_len {
            let diff = self_len - other_len;
            let start = self_len - (diff / 2 + diff % 2);
            proof {
                assert(start == half);
            }
            self.move_right(other, start);
            proof {
                assert(self.chunk.content() =~= total.take(half));
                assert(other.chunk.content() =~= total.skip(half));
            }
        } else {
            proof {
                assert(half == self_len);
                assert(self.chunk.content() =~= total.take(half));
                assert(other.chunk.content() =~= total.skip(half));
            }
        }
    }

    /// Merges `other`'s content onto the front of `self` when it fits,
    /// returning `None`; otherwise rebalances so that the leftover front
    /// leaf holds the floor half of the combined content and `self` the
    /// rest, and returns the leftover. Reading `other` then `self` yields
    /// the same content before and after the call.
    pub(crate) fn prepend_or_distribute(&mut self, other: Self) -> (r: Option<Self>)
        requires
            old(self).chunk.content().len() <= T::max_len_spec(),
            other.chunk.content().len() <= T::max_len_spec(),
        ensures
            (match r {
                None => {
                    &&& final(self).chunk.content() == other.chunk.content()
                        + old(self).chunk.content()
                    &&& other.chunk.content().len() + old(self).chunk.content().len()
                        <= T::max_len_spec()
                },
                Some(leftover) => {
                    &&& leftover.chunk.content() == (other.chunk.content()
                        + old(self).chunk.content()).take(
                        ((other.chunk.content().len() + old(self).chunk.content().len())
                            / 2) as int,
                    )
                    &&& final(self).chunk.content() == (other.chunk.content()
                        + old(self).chunk.content()).skip(
                        ((other.chunk.content().len() + old(self).chunk.content().len())
                            / 2) as int,
                    )
                    &&& leftover.chunk.content() + final(self).chunk.content()
                        == other.chunk.content() + old(self).chunk.content()
                    &&& other.chunk.content().len() + old(self).chunk.content().len()
                        > T::max_len_spec()
                    &&& 1 <= leftover.chunk.content().len() <= T::max_len_spec()
                    &&& final(self).chunk.content().len() >= 1
                    &&& leftover.chunk.content().len() <= final(self).chunk.content().len()
                        <= leftover.chunk.content().len() + 1
                },
            }),
            final(self).chunk.content().len() <= T::max_len_spec(),
    {
        let mut other = other;
        let ghost incoming = other.chunk.content();
        let self_len = self.len();
        let other_len = other.len();
        if self_len <= T::max_len() - other_len {
            other.move_right(self, 0);
            proof {
                assert(incoming.skip(0) =~= incoming);
            }
            return None;
        }
        other.distribute(self);
        proof {
            T::max_len_positive();
            let total = incoming + old(self).chunk.content();
            let half = (total.len() / 2) as int;
            assert(total.take(half) + total.skip(half) =~= total);
            assert(total.take(half).len() == half);
        }
        Some(other)
    }

    /// Merges `other`'s content onto the end of `self` when it fits,
    /// returning `None`; otherwise rebalances so that `self` holds the
    /// floor half of the combined content and the leftover back leaf the
    /// rest, and returns the leftover. Reading `self` then `other` yields
    /// the same content before and after the call.
    pub(crate) fn append_or_distribute(&mut self, other: Self) -> (r: Option<Self>)
        requires
            old(self).chunk.content().len() <= T::max_len_spec(),
            other.chunk.content().len() <= T::max_len_spec(),
        ensures
            (match r {
                None => {
                    &&& final(self).chunk.content() == old(self).chunk.content()
                        + other.chunk.content()
                    &&& old(self).chunk.content().len() + other.chunk.content().len()
                        <= T::max_len_spec()
                },
                Some(leftover) => {
                    &&& final(self).chunk.content() == (old(self).chunk.content()
                        + other.chunk.content()).take(
                        ((old(self).chunk.content().len() + other.chunk.content().len())
                            / 2) as int,
                    )
                    &&& leftover.chunk.content() == (old(self).chunk.content()
                        + other.chunk.content()).skip(
                        ((old(self).chunk.content().len() + other.chunk.content().len())
                            / 2) as int,
                    )
                    &&& final(self).chunk.content() + leftover.chunk.content()
                        == old(self).chunk.content() + other.chunk.content()
                    &&& old(self).chunk.content().len() + other.chunk.content().len()
                        > T::max_len_spec()
                    &&& 1 <= leftover.chunk.content().len() <= T::max_len_spec()
                    &&& final(self).chunk.content().len() >= 1
                    &&& final(self).chunk.content().len() <= leftover.chunk.content().len()
                        <= final(self).chunk.content().len() + 1
                },
            }),
            final(self).chunk.content().len() <= T::max_len_spec(),
    {
        let mut other = other;
        let ghost incoming = other.chunk.content();
        let self_len = self.len();
        let other_len = other.len();
        if other_len <= T::max_len() - self_len {
            self.move_left(&mut other, other_len);
            proof {
                assert(incoming.take(incoming.len() as int) =~= incoming);
            }
            return None;
        }
        self.distribute(&mut other);
        proof {
            T::max_len_positive();
            let total = old(self).chunk.content() + incoming;
            let half = (total.len() / 2) as int;
            assert(total.take(half) + total.skip(half) =~= total);
            assert(total.take(half).len() == half);
        }
        Some(other)
    }
}

} // verus!
