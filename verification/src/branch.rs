//! Branch operations: push/pop at either end, contiguous child transfers,
//! and merge-or-distribute between two adjacent branches.
//!
//! All operations keep the cached aggregates (`summed_len`, `summed_info`)
//! equal to the aggregates of the content below, updating them incrementally,
//! never by re-scanning. Merge-or-distribute works on child counts: two
//! adjacent branches merge completely when their combined child count fits,
//! and otherwise redistribute whole children so that the left side holds the
//! floor half of the combined run.

use vstd::prelude::*;
use crate::chunk::Chunk;
use crate::chunk::Info;
use crate::node::all_height;
use crate::node::lemma_nodes_content_concat;
use crate::node::lemma_nodes_content_push;
use crate::node::lemma_nodes_content_singleton;
use crate::node::lemma_nodes_wf_iff;
use crate::node::nodes_content;
use crate::node::Branch;
use crate::node::Node;
use crate::node::BRANCH_MAX_LEN;

verus! {

impl<T: Chunk> Branch<T> {
    /// A branch with no children and identity aggregates; a transient
    /// scratch value used inside split operations, never persisted as part
    /// of a tree.
    pub(crate) fn new() -> (r: Self)
        ensures
            r.ok(),
            r.nodes@.len() == 0,
            r.content() == Seq::<T::Unit>::empty(),
    {
        proof {
            T::info_of_empty();
        }
        Branch { summed_len: 0, summed_info: <T::Info as Info>::new(), nodes: Vec::new() }
    }

    /// Whether this branch has no children.
    pub(crate) fn is_empty(&self) -> (r: bool)
        ensures
            r == (self.nodes@.len() == 0),
    {
        self.nodes.is_empty()
    }

    /// The number of children.
    pub(crate) fn len(&self) -> (r: usize)
        ensures
            r == self.nodes@.len(),
    {
        self.nodes.len()
    }

    /// The cached number of units below this branch.
    pub(crate) fn summed_len(&self) -> (r: usize)
        requires
            self.ok(),
        ensures
            r == self.content().len(),
    {
        self.summed_len
    }

    /// The cached summary of the content below this branch.
    pub(crate) fn summed_info(&self) -> (r: T::Info)
        requires
            self.ok(),
        ensures
            r == T::info_of(self.content()),
    {
        self.summed_info
    }

    /// Borrows the child at `i`.
    pub(crate) fn child(&self, i: usize) -> (r: &Node<T>)
        requires
            i < self.nodes@.len(),
        ensures
            *r == self.nodes@[i as int],
    {
        &self.nodes[i]
    }

    /// Inserts one child at the front. The branch must have room.
    pub(crate) fn push_front(&mut self, node: Node<T>)
        requires
            old(self).ok(),
            node.wf(),
            old(self).nodes@.len() < BRANCH_MAX_LEN,
            all_height(old(self).nodes@, node.height()),
            old(self).content().len() + node.content().len() <= usize::MAX,
        ensures
            final(self).ok(),
            final(self).nodes@ == seq![node] + old(self).nodes@,
            final(self).content() == node.content() + old(self).content(),
            all_height(final(self).nodes@, node.height()),
    {
        proof {
            lemma_nodes_content_concat(seq![node], self.nodes@);
            lemma_nodes_content_singleton(node);
            T::info_of_concat(node.content(), nodes_content(self.nodes@));
            <T::Info as Info>::plus_commutes(
                T::info_of(nodes_content(self.nodes@)),
                T::info_of(node.content()),
            );
            lemma_nodes_wf_iff(self.nodes@);
            lemma_nodes_wf_iff(seq![node] + self.nodes@);
        }
        let node_len = node.summed_len();
        let node_info = node.summed_info();
        self.summed_len = self.summed_len + node_len;
        self.summed_info.accumulate(node_info);
        self.nodes.insert(0, node);
        proof {
            assert(self.nodes@ =~= seq![node] + old(self).nodes@);
            assert forall|i: int| 0 <= i < self.nodes@.len() implies (#[trigger] self.nodes@[i]).wf()
                && self.nodes@[i].height() == node.height() by {
                if i > 0 {
                    assert(self.nodes@[i] == old(self).nodes@[i - 1]);
                }
            }
        }
    }

    /// Inserts one child at the back. The branch must have room.
    pub(crate) fn push_back(&mut self, node: Node<T>)
        requires
            old(self).ok(),
            node.wf(),
            old(self).nodes@.len() < BRANCH_MAX_LEN,
            all_height(old(self).nodes@, node.height()),
            old(self).content().len() + node.content().len() <= usize::MAX,
        ensures
            final(self).ok(),
            final(self).nodes@ == old(self).nodes@.push(node),
            final(self).content() == old(self).content() + node.content(),
            all_height(final(self).nodes@, node.height()),
    {
        proof {
            lemma_nodes_content_push(self.nodes@, node);
            T::info_of_concat(nodes_content(self.nodes@), node.content());
            lemma_nodes_wf_iff(self.nodes@);
            lemma_nodes_wf_iff(self.nodes@.push(node));
        }
        let node_len = node.summed_len();
        let node_info = node.summed_info();
        self.summed_len = self.summed_len + node_len;
        self.summed_info.accumulate(node_info);
        self.nodes.push(node);
        proof {
            assert forall|i: int| 0 <= i < self.nodes@.len() implies (#[trigger] self.nodes@[i]).wf()
                && self.nodes@[i].height() == node.height() by {
                if i < self.nodes@.len() - 1 {
                    assert(self.nodes@[i] == old(self).nodes@[i]);
                }
            }
        }
    }

    /// Removes and returns the first child; `None` on an empty branch.
    pub(crate) fn pop_front(&mut self) -> (r: Option<Node<T>>)
        requires
            old(self).ok(),
        ensures
            (match r {
                None => *final(self) == *old(self) && old(self).nodes@.len() == 0,
                Some(node) => {
                    &&& old(self).nodes@.len() >= 1
                    &&& node == old(self).nodes@[0]
                    &&& node.wf()
                    &&& final(self).ok()
                    &&& final(self).nodes@ == old(self).nodes@.drop_first()
                    &&& node.content() + final(self).content() == old(self).content()
                },
            }),
    {
        if self.is_empty() {
            return None;
        }
        proof {
            lemma_nodes_wf_iff(self.nodes@);
            lemma_nodes_wf_iff(self.nodes@.drop_first());
            assert(self.nodes@ =~= seq![self.nodes@[0]] + self.nodes@.drop_first());
            lemma_nodes_content_concat(seq![self.nodes@[0]], self.nodes@.drop_first());
            lemma_nodes_content_singleton(self.nodes@[0]);
            let f = T::info_of(self.nodes@[0].content());
            let rest = T::info_of(nodes_content(self.nodes@.drop_first()));
            T::info_of_concat(self.nodes@[0].content(), nodes_content(self.nodes@.drop_first()));
            <T::Info as Info>::plus_commutes(f, rest);
            <T::Info as Info>::minus_cancels(rest, f);
            assert forall|i: int| 0 <= i < self.nodes@.drop_first().len() implies (
            #[trigger] self.nodes@.drop_first()[i]).wf() by {
                assert(self.nodes@.drop_first()[i] == self.nodes@[i + 1]);
            }
        }
        let node = self.nodes.remove(0);
        let node_len = node.summed_len();
        let node_info = node.summed_info();
        self.summed_len = self.summed_len - node_len;
        self.summed_info.subtract(node_info);
        proof {
            assert(self.nodes@ =~= old(self).nodes@.drop_first());
        }
        Some(node)
    }

    /// Removes and returns the last child; `None` on an empty branch.
    pub(crate) fn pop_back(&mut self) -> (r: Option<Node<T>>)
        requires
            old(self).ok(),
        ensures
            (match r {
                None => *final(self) == *old(self) && old(self).nodes@.len() == 0,
                Some(node) => {
                    &&& old(self).nodes@.len() >= 1
                    &&& node == old(self).nodes@.last()
                    &&& node.wf()
                    &&& final(self).ok()
                    &&& final(self).nodes@ == old(self).nodes@.drop_last()
                    &&& final(self).content() + node.content() == old(self).content()
                },
            }),
    {
        if self.is_empty() {
            return None;
        }
        proof {
            lemma_nodes_wf_iff(self.nodes@);
            lemma_nodes_wf_iff(self.nodes@.drop_last());
            assert(self.nodes@ =~= self.nodes@.drop_last().push(self.nodes@.last()));
            lemma_nodes_content_push(self.nodes@.drop_last(), self.nodes@.last());
            let f = T::info_of(self.nodes@.last().content());
            let rest = T::info_of(nodes_content(self.nodes@.drop_last()));
            T::info_of_concat(nodes_content(self.nodes@.drop_last()), self.nodes@.last().content());
            <T::Info as Info>::minus_cancels(rest, f);
            assert forall|i: int| 0 <= i < self.nodes@.drop_last().len() implies (
            #[trigger] self.nodes@.drop_last()[i]).wf() by {
                assert(self.nodes@.drop_last()[i] == self.nodes@[i]);
            }
        }
        let node = match self.nodes.pop() {
            Some(node) => node,
            None => vstd::pervasive::unreached(),
        };
        let node_len = node.summed_len();
        let node_info = node.summed_info();
        self.summed_len = self.summed_len - node_len;
        self.summed_info.subtract(node_info);
        Some(node)
    }

    /// Transfers the prefix `[0, end)` of `other`'s children onto the end of
    /// `self`, keeping both caches correct.
    pub(crate) fn move_left(&mut self, other: &mut Self, end: usize, Ghost(h): Ghost<nat>)
        requires
            old(self).ok(),
            old(other).ok(),
            end <= old(other).nodes@.len(),
            old(self).nodes@.len() + end <= BRANCH_MAX_LEN,
            all_height(old(self).nodes@, h),
            all_height(old(other).nodes@, h),
            old(self).content().len() + old(other).content().len() <= usize::MAX,
        ensures
            final(self).ok(),
            final(other).ok(),
            final(self).nodes@ == old(self).nodes@ + old(other).nodes@.take(end as int),
            final(other).nodes@ == old(other).nodes@.skip(end as int),
            all_height(final(self).nodes@, h),
            all_height(final(other).nodes@, h),
            final(self).content() + final(other).content() == old(self).content()
                + old(other).content(),
    {
        let ghost self0 = *old(self);
        let ghost other0 = *old(other);
        let mut i: usize = 0;
        proof {
            assert(self.nodes@ =~= self0.nodes@ + other0.nodes@.take(0));
            assert(other.nodes@ =~= other0.nodes@.skip(0));
        }
        while i < end
            invariant
                i <= end,
                end <= other0.nodes@.len(),
                self.ok(),
                other.ok(),
                self.nodes@ == self0.nodes@ + other0.nodes@.take(i as int),
                other.nodes@ == other0.nodes@.skip(i as int),
                all_height(self.nodes@, h),
                all_height(other.nodes@, h),
                self.nodes@.len() + end - i <= BRANCH_MAX_LEN,
                self.content() + other.content() == self0.content() + other0.content(),
                self.content().len() + other.content().len() <= usize::MAX,
            decreases end - i,
        {
            let node = match other.pop_front() {
                Some(node) => node,
                None => vstd::pervasive::unreached(),
            };
            self.push_back(node);
            proof {
                assert(other0.nodes@.take(i + 1) =~= other0.nodes@.take(i as int).push(node));
                assert(self.nodes@ =~= self0.nodes@ + other0.nodes@.take(i + 1));
                assert(other.nodes@ =~= other0.nodes@.skip(i + 1));
                assert(self.content() + other.content() =~= self0.content() + other0.content());
            }
            i += 1;
        }
    }

    /// Transfers the suffix `[start, len)` of `self`'s children onto the
    /// front of `other`, keeping both caches correct.
    pub(crate) fn move_right(&mut self, other: &mut Self, start: usize, Ghost(h): Ghost<nat>)
        requires
            old(self).ok(),
            old(other).ok(),
            start <= old(self).nodes@.len(),
            old(other).nodes@.len() + old(self).nodes@.len() - start <= BRANCH_MAX_LEN,
            all_height(old(self).nodes@, h),
            all_height(old(other).nodes@, h),
            old(self).content().len() + old(other).content().len() <= usize::MAX,
        ensures
            final(self).ok(),
            final(other).ok(),
            final(self).nodes@ == old(self).nodes@.take(start as int),
            final(other).nodes@ == old(self).nodes@.skip(start as int) + old(other).nodes@,
            all_height(final(self).nodes@, h),
            all_height(final(other).nodes@, h),
            final(self).content() + final(other).content() == old(self).content()
                + old(other).content(),
    {
        let ghost self0 = *old(self);
        let ghost other0 = *old(other);
        proof {
            assert(self.nodes@ =~= self0.nodes@.take(self0.nodes@.len() as int));
            assert(other.nodes@ =~= self0.nodes@.skip(self0.nodes@.len() as int) + other0.nodes@);
        }
        while self.len() > start
            invariant
                start <= self.nodes@.len(),
                self.nodes@.len() <= self0.nodes@.len(),
                self.ok(),
                other.ok(),
                self.nodes@ == self0.nodes@.take(self.nodes@.len() as int),
                other.nodes@ == self0.nodes@.skip(self.nodes@.len() as int) + other0.nodes@,
                all_height(self.nodes@, h),
                all_height(other.nodes@, h),
                other.nodes@.len() + self.nodes@.len() - start <= BRANCH_MAX_LEN,
                self.content() + other.content() == self0.content() + other0.content(),
                self.content().len() + other.content().len() <= usize::MAX,
            decreases self.nodes@.len() - start,
        {
            let ghost j = self.nodes@.len() as int;
            let node = match self.pop_back() {
                Some(node) => node,
                None => vstd::pervasive::unreached(),
            };
            other.push_front(node);
            proof {
                assert(self0.nodes@.take(j).drop_last() =~= self0.nodes@.take(j - 1));
                assert(self.nodes@ =~= self0.nodes@.take(j - 1));
                assert(node == self0.nodes@.take(j)[j - 1]);
                assert(node == self0.nodes@[j - 1]);
                assert(other.nodes@ =~= self0.nodes@.skip(j - 1) + other0.nodes@);
                assert(self.content() + other.content() =~= self0.content() + other0.content());
            }
        }
    }

    /// Rebalances two adjacent branches (`self` left, `other` right) so that
    /// the left side holds the floor half of the combined child run and the
    /// right side the rest. The combined children and content are preserved.
    pub(crate) fn distribute(&mut self, other: &mut Self, Ghost(h): Ghost<nat>)
        requires
            old(self).ok(),
            old(other).ok(),
            all_height(old(self).nodes@, h),
            all_height(old(other).nodes@, h),
            old(self).content().len() + old(other).content().len() <= usize::MAX,
        ensures
            final(self).ok(),
            final(other).ok(),
            final(self).nodes@ == (old(self).nodes@ + old(other).nodes@).take(
                ((old(self).nodes@.len() + old(other).nodes@.len()) / 2) as int,
            ),
            final(other).nodes@ == (old(self).nodes@ + old(other).nodes@).skip(
                ((old(self).nodes@.len() + old(other).nodes@.len()) / 2) as int,
            ),
            all_height(final(self).nodes@, h),
            all_height(final(other).nodes@, h),
            final(self).content() + final(other).content() == old(self).content()
                + old(other).content(),
    {
        let ghost run = old(self).nodes@ + old(other).nodes@;
        let ghost half = ((old(self).nodes@.len() + old(other).nodes@.len()) / 2) as int;
        let self_len = self.len();
        let other_len = other.len();
        if self_len < other_len {
            let step = (other_len - self_len) / 2;
            proof {
                assert(half == self_len + step);
            }
            self.move_left(other, step, Ghost(h));
            proof {
                assert(self.nodes@ =~= run.take(half));
                assert(other.nodes@ =~= run.skip(half));
            }
        } else if self_len > other_len {
            let diff = self_len - other_len;
            let start = self_len - (diff / 2 + diff % 2);
            proof {
                assert(start == half);
            }
            self.move_right(other, start, Ghost(h));
            proof {
                assert(self.nodes@ =~= run.take(half));
                assert(other.nodes@ =~= run.skip(half));
            }
        } else {
            proof {
                assert(half == self_len);
                assert(self.nodes@ =~= run.take(half));
                assert(other.nodes@ =~= run.skip(half));
            }
        }
    }

    /// Merges `other`'s children onto the front of `self` when the combined
    /// count fits, returning `None`; otherwise rebalances and returns the
    /// leftover front branch. Reading `other` then `self` yields the same
    /// children before and after the call.
    pub(crate) fn prepend_or_distribute(&mut self, other: Self, Ghost(h): Ghost<nat>) -> (r:
        Option<Self>)
        requires
            old(self).ok(),
            other.ok(),
            all_height(old(self).nodes@, h),
            all_height(other.nodes@, h),
            old(self).content().len() + other.content().len() <= usize::MAX,
        ensures
            (match r {
                None => {
                    &&& final(self).nodes@ == other.nodes@ + old(self).nodes@
                    &&& other.nodes@.len() + old(self).nodes@.len() <= BRANCH_MAX_LEN
                    &&& final(self).content() == other.content() + old(self).content()
                },
                Some(leftover) => {
                    &&& leftover.nodes@ == (other.nodes@ + old(self).nodes@).take(
                        ((other.nodes@.len() + old(self).nodes@.len()) / 2) as int,
                    )
                    &&& final(self).nodes@ == (other.nodes@ + old(self).nodes@).skip(
                        ((other.nodes@.len() + old(self).nodes@.len()) / 2) as int,
                    )
                    &&& other.nodes@.len() + old(self).nodes@.len() > BRANCH_MAX_LEN
                    &&& leftover.ok()
                    &&& all_height(leftover.nodes@, h)
                    &&& leftover.content() + final(self).content() == other.content()
                        + old(self).content()
                },
            }),
            final(self).ok(),
            all_height(final(self).nodes@, h),
    {
        let mut other = other;
        let ghost incoming = other.nodes@;
        let self_len = self.len();
        let other_len = other.len();
        if other_len <= BRANCH_MAX_LEN - self_len {
            other.move_right(self, 0, Ghost(h));
            proof {
                assert(self.nodes@ =~= incoming + old(self).nodes@);
            }
            return None;
        }
        other.distribute(self, Ghost(h));
        Some(other)
    }

    /// Merges `other`'s children onto the end of `self` when the combined
    /// count fits, returning `None`; otherwise rebalances and returns the
    /// leftover back branch. Reading `self` then `other` yields the same
    /// children before and after the call.
    pub(crate) fn append_or_distribute(&mut self, other: Self, Ghost(h): Ghost<nat>) -> (r:
        Option<Self>)
        requires
            old(self).ok(),
            other.ok(),
            all_height(old(self).nodes@, h),
            all_height(other.nodes@, h),
            old(self).content().len() + other.content().len() <= usize::MAX,
        ensures
            (match r {
                None => {
                    &&& final(self).nodes@ == old(self).nodes@ + other.nodes@
                    &&& old(self).nodes@.len() + other.nodes@.len() <= BRANCH_MAX_LEN
                    &&& final(self).content() == old(self).content() + other.content()
                },
                Some(leftover) => {
                    &&& final(self).nodes@ == (old(self).nodes@ + other.nodes@).take(
                        ((old(self).nodes@.len() + other.nodes@.len()) / 2) as int,
                    )
                    &&& leftover.nodes@ == (old(self).nodes@ + other.nodes@).skip(
                        ((old(self).nodes@.len() + other.nodes@.len()) / 2) as int,
                    )
                    &&& old(self).nodes@.len() + other.nodes@.len() > BRANCH_MAX_LEN
                    &&& leftover.ok()
                    &&& all_height(leftover.nodes@, h)
                    &&& final(self).content() + leftover.content() == old(self).content()
                        + other.content()
                },
            }),
            final(self).ok(),
            all_height(final(self).nodes@, h),
    {
        let mut other = other;
        let ghost incoming = other.nodes@;
        let self_len = self.len();
        let other_len = other.len();
        if other_len <= BRANCH_MAX_LEN - self_len {
            self.move_left(&mut other, other_len, Ghost(h));
            proof {
                assert(incoming.take(incoming.len() as int) =~= incoming);
            }
            return None;
        }
        self.distribute(&mut other, Ghost(h));
        Some(other)
    }

    /// Inserts one child at the front, splitting the branch when it is full:
    /// the new child and the front half of the children move to a fresh
    /// sibling, which is returned and stands before `self`.
    pub(crate) fn push_front_and_maybe_split(&mut self, node: Node<T>) -> (r: Option<Self>)
        requires
            old(self).ok(),
            node.wf(),
            all_height(old(self).nodes@, node.height()),
            old(self).content().len() + node.content().len() <= usize::MAX,
        ensures
            (match r {
                None => {
                    &&& old(self).nodes@.len() < BRANCH_MAX_LEN
                    &&& final(self).nodes@ == seq![node] + old(self).nodes@
                    &&& final(self).content() == node.content() + old(self).content()
                },
                Some(sibling) => {
                    &&& old(self).nodes@.len() == BRANCH_MAX_LEN
                    &&& sibling.nodes@ == seq![node] + old(self).nodes@.take(
                        (BRANCH_MAX_LEN / 2) as int,
                    )
                    &&& final(self).nodes@ == old(self).nodes@.skip((BRANCH_MAX_LEN / 2) as int)
                    &&& sibling.ok()
                    &&& all_height(sibling.nodes@, node.height())
                    &&& sibling.content() + final(self).content() == node.content()
                        + old(self).content()
                },
            }),
            final(self).ok(),
            all_height(final(self).nodes@, node.height()),
    {
        if self.len() < BRANCH_MAX_LEN {
            self.push_front(node);
            return None;
        }
        let ghost h = node.height();
        let mut sibling = Self::new();
        let end = self.len() / 2;
        sibling.move_left(self, end, Ghost(h));
        proof {
            lemma_nodes_content_concat(
                old(self).nodes@.take(end as int),
                old(self).nodes@.skip(end as int),
            );
            assert(old(self).nodes@.take(end as int) + old(self).nodes@.skip(end as int)
                =~= old(self).nodes@);
            assert(sibling.nodes@ =~= old(self).nodes@.take(end as int));
        }
        sibling.push_front(node);
        Some(sibling)
    }

    /// Inserts one child at the back, splitting the branch when it is full:
    /// the back half of the children and the new child move to a fresh
    /// sibling, which is returned and stands after `self`.
    pub(crate) fn push_back_and_maybe_split(&mut self, node: Node<T>) -> (r: Option<Self>)
        requires
            old(self).ok(),
            node.wf(),
            all_height(old(self).nodes@, node.height()),
            old(self).content().len() + node.content().len() <= usize::MAX,
        ensures
            (match r {
                None => {
                    &&& old(self).nodes@.len() < BRANCH_MAX_LEN
                    &&& final(self).nodes@ == old(self).nodes@.push(node)
                    &&& final(self).content() == old(self).content() + node.content()
                },
                Some(sibling) => {
                    &&& old(self).nodes@.len() == BRANCH_MAX_LEN
                    &&& final(self).nodes@ == old(self).nodes@.take((BRANCH_MAX_LEN / 2) as int)
                    &&& sibling.nodes@ == old(self).nodes@.skip(
                        (BRANCH_MAX_LEN / 2) as int,
                    ).push(node)
                    &&& sibling.ok()
                    &&& all_height(sibling.nodes@, node.height())
                    &&& final(self).content() + sibling.content() == old(self).content()
                        + node.content()
                },
            }),
            final(self).ok(),
            all_height(final(self).nodes@, node.height()),
    {
        if self.len() < BRANCH_MAX_LEN {
            self.push_back(node);
            return None;
        }
        let ghost h = node.height();
        let mut sibling = Self::new();
        let start = self.len() / 2;
        self.move_right(&mut sibling, start, Ghost(h));
        proof {
            lemma_nodes_content_concat(
                old(self).nodes@.take(start as int),
                old(self).nodes@.skip(start as int),
            );
            assert(old(self).nodes@.take(start as int) + old(self).nodes@.skip(start as int)
                =~= old(self).nodes@);
            assert(sibling.nodes@ =~= old(self).nodes@.skip(start as int));
        }
        sibling.push_back(node);
        Some(sibling)
    }
}

} // verus!
