//! Capability contracts for chunk content and aggregated summaries.
//!
//! A [`Chunk`] is an opaque, length-bounded unit of content; an [`Info`] is an
//! aggregable summary of content (for example a line count). The tree stores
//! chunks in its leaves and caches, per subtree, the summed length and the
//! summed info of the content below. Those caches stay consistent under
//! insertion and removal of subtrees exactly because `Info` is a commutative
//! group and `info_of` is a homomorphism from content concatenation to
//! `Info::plus`.

use vstd::prelude::*;

verus! {

/// An aggregable summary value forming a commutative group under
/// `plus`/`minus`, with identity `id`.
pub trait Info: Sized + Copy {
    /// The identity summary: the summary of empty content.
    spec fn id() -> Self;

    /// Abstract addition of two summaries.
    spec fn plus(a: Self, b: Self) -> Self;

    /// Abstract subtraction of two summaries; the inverse of `plus`.
    spec fn minus(a: Self, b: Self) -> Self;

    /// `plus` is commutative.
    proof fn plus_commutes(a: Self, b: Self)
        ensures
            Self::plus(a, b) == Self::plus(b, a),
    ;

    /// `plus` is associative.
    proof fn plus_associates(a: Self, b: Self, c: Self)
        ensures
            Self::plus(Self::plus(a, b), c) == Self::plus(a, Self::plus(b, c)),
    ;

    /// `id` is a left identity for `plus`.
    proof fn plus_identity(a: Self)
        ensures
            Self::plus(Self::id(), a) == a,
    ;

    /// `minus` undoes `plus`: `(a + b) - b == a`.
    proof fn minus_cancels(a: Self, b: Self)
        ensures
            Self::minus(Self::plus(a, b), b) == a,
    ;

    /// The identity value, executable.
    fn new() -> (r: Self)
        ensures
            r == Self::id(),
    ;

    /// In-place accumulation: `self` becomes `plus(self, other)`.
    fn accumulate(&mut self, other: Self)
        ensures
            *final(self) == Self::plus(*old(self), other),
    ;

    /// In-place removal: `self` becomes `minus(self, other)`.
    fn subtract(&mut self, other: Self)
        ensures
            *final(self) == Self::minus(*old(self), other),
    ;
}

/// An opaque, length-bounded unit of content supplied by the tree's user.
///
/// The content of a chunk is modelled as a sequence of abstract units. The
/// two boundary-transfer operations `move_left` and `move_right` are the only
/// way content crosses chunk boundaries; their contracts make them exact,
/// content-preserving transfers.
pub trait Chunk: Sized {
    /// The elementary unit of content held by this chunk type.
    type Unit;

    /// The summary type aggregated over this chunk type's content.
    type Info: Info;

    /// The content of this chunk, as a sequence of units.
    spec fn content(&self) -> Seq<Self::Unit>;

    /// The bound on the length of a single chunk.
    spec fn max_len_spec() -> usize;

    /// The summary of a given content sequence.
    spec fn info_of(s: Seq<Self::Unit>) -> Self::Info;

    /// A chunk can hold at least one unit.
    proof fn max_len_positive()
        ensures
            Self::max_len_spec() >= 1,
    ;

    /// `info_of` is a homomorphism from content concatenation to
    /// `Info::plus`.
    proof fn info_of_concat(s: Seq<Self::Unit>, t: Seq<Self::Unit>)
        ensures
            Self::info_of(s + t) == <Self::Info as Info>::plus(
                Self::info_of(s),
                Self::info_of(t),
            ),
    ;

    /// Empty content has the identity summary.
    proof fn info_of_empty()
        ensures
            Self::info_of(Seq::<Self::Unit>::empty()) == <Self::Info as Info>::id(),
    ;

    /// A new, empty chunk.
    fn new() -> (r: Self)
        ensures
            r.content() == Seq::<Self::Unit>::empty(),
    ;

    /// The number of units this chunk holds.
    fn len(&self) -> (r: usize)
        ensures
            r == self.content().len(),
    ;

    /// The executable bound matching `max_len_spec`.
    fn max_len() -> (r: usize)
        ensures
            r == Self::max_len_spec(),
    ;

    /// The summary of this chunk's content.
    fn info(&self) -> (r: Self::Info)
        ensures
            r == Self::info_of(self.content()),
    ;

    /// Transfers the prefix `[0, end)` of `other`'s content onto the end of
    /// `self`.
    fn move_left(&mut self, other: &mut Self, end: usize)
        requires
            end <= old(other).content().len(),
            old(self).content().len() + end <= Self::max_len_spec(),
        ensures
            final(self).content() == old(self).content() + old(other).content().take(end as int),
            final(other).content() == old(other).content().skip(end as int),
    ;

    /// Transfers the suffix `[start, len)` of `self`'s content onto the front
    /// of `other`.
    fn move_right(&mut self, other: &mut Self, start: usize)
        requires
            start <= old(self).content().len(),
            old(self).content().len() - start + old(other).content().len()
                <= Self::max_len_spec(),
        ensures
            final(self).content() == old(self).content().take(start as int),
            final(other).content() == old(self).content().skip(start as int)
                + old(other).content(),
    ;
}

} // verus!
