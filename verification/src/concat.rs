//! The recursive concatenation algorithm.
//!
//! `prepend_at_depth` inserts another tree's root in front of the content of
//! this node, descending `depth` levels to the place where both sides have
//! equal height, merging or distributing there, and propagating any overflow
//! split back toward the root. `append_at_depth` is the symmetric operation
//! at the back. An overflow node returned by either operation has the same
//! height as the receiver and stands for the front (respectively back) part
//! of the combined content.

use vstd::prelude::*;
use crate::chunk::Chunk;
use crate::node::all_height;
use crate::node::nodes_height;
use crate::node::Node;

verus! {

impl<T: Chunk> Node<T> {
    /// Inserts `other`'s content in front of this node's content, descending
    /// `depth` levels. Returns the overflow node standing in front of `self`,
    /// if the insertion split the node.
    pub(crate) fn prepend_at_depth(&mut self, other: Node<T>, depth: usize) -> (r: Option<
        Node<T>,
    >)
        requires
            old(self).wf(),
            other.wf(),
            other.height() + depth == old(self).height(),
            old(self).content().len() + other.content().len() <= usize::MAX,
        ensures
            final(self).wf(),
            final(self).height() == old(self).height(),
            (match r {
                None => final(self).content() == other.content() + old(self).content(),
                Some(node) => {
                    &&& node.wf()
                    &&& node.height() == old(self).height()
                    &&& node.content() + final(self).content() == other.content()
                        + old(self).content()
                },
            }),
        decreases depth,
    {
        if depth == 0 {
            match self {
                Node::Leaf(leaf) => {
                    let other_leaf = other.into_leaf();
                    match leaf.prepend_or_distribute(other_leaf) {
                        None => None,
                        Some(leftover) => Some(Node::Leaf(leftover)),
                    }
                },
                Node::Branch(branch) => {
                    let ghost h = nodes_height(branch.nodes@);
                    let other_branch = other.into_branch();
                    match branch.prepend_or_distribute(other_branch, Ghost(h)) {
                        None => None,
                        Some(leftover) => Some(Node::Branch(leftover)),
                    }
                },
            }
        } else {
            match self {
                Node::Branch(branch) => {
                    let ghost h = nodes_height(branch.nodes@);
                    let ghost branch0 = *branch;
                    proof {
                        assert(*old(self) == Node::<T>::Branch(branch0));
                    }
                    let mut node = match branch.pop_front() {
                        Some(node) => node,
                        None => vstd::pervasive::unreached(),
                    };
                    let ghost node0 = node;
                    let overflow = node.prepend_at_depth(other, depth - 1);
                    proof {
                        assert(node0.content() + branch.content() == branch0.content());
                        assert(old(self).content() == branch0.content());
                        // Name the lengths of the recombined content so the
                        // capacity bound of the push below follows.
                        assert((other.content() + node0.content()).len() == other.content().len()
                            + node0.content().len());
                        assert(overflow is Some ==> ((overflow->0).content() + node.content()).len()
                            == (overflow->0).content().len() + node.content().len());
                        assert(node.content().len() <= other.content().len()
                            + node0.content().len());
                        assert(all_height(branch.nodes@, h)) by {
                            assert forall|i: int|
                                0 <= i < branch.nodes@.len() implies (#[trigger] branch.nodes@[i])
                                .height() == h by {
                                assert(branch.nodes@[i] == branch0.nodes@[i + 1]);
                            }
                        }
                    }
                    let ghost rest = branch.content();
                    branch.push_front(node);
                    proof {
                        assert((other.content() + node0.content()) + rest =~= other.content()
                            + branch0.content());
                    }
                    match overflow {
                        None => {
                            proof {
                                assert(branch.content() =~= (other.content() + node0.content())
                                    + rest);
                            }
                            None
                        },
                        Some(over) => {
                            proof {
                                assert(over.content() + branch.content() =~= (over.content()
                                    + node.content()) + rest);
                            }
                            let ghost mid = branch.content();
                            match branch.push_front_and_maybe_split(over) {
                                None => {
                                    proof {
                                        assert(branch.content() =~= (over.content()
                                            + node.content()) + rest);
                                    }
                                    None
                                },
                                Some(sibling) => {
                                    proof {
                                        assert(sibling.content() + branch.content()
                                            =~= (over.content() + mid));
                                        assert(over.content() + mid =~= (over.content()
                                            + node.content()) + rest);
                                    }
                                    Some(Node::Branch(sibling))
                                },
                            }
                        },
                    }
                },
                Node::Leaf(_) => vstd::pervasive::unreached(),
            }
        }
    }

    /// Inserts `other`'s content after this node's content, descending
    /// `depth` levels. Returns the overflow node standing after `self`, if
    /// the insertion split the node.
    pub(crate) fn append_at_depth(&mut self, other: Node<T>, depth: usize) -> (r: Option<
        Node<T>,
    >)
        requires
            old(self).wf(),
            other.wf(),
            other.height() + depth == old(self).height(),
            old(self).content().len() + other.content().len() <= usize::MAX,
        ensures
            final(self).wf(),
            final(self).height() == old(self).height(),
            (match r {
                None => final(self).content() == old(self).content() + other.content(),
                Some(node) => {
                    &&& node.wf()
                    &&& node.height() == old(self).height()
                    &&& final(self).content() + node.content() == old(self).content()
                        + other.content()
                },
            }),
        decreases depth,
    {
        if depth == 0 {
            match self {
                Node::Leaf(leaf) => {
                    let other_leaf = other.into_leaf();
                    match leaf.append_or_distribute(other_leaf) {
                        None => None,
                        Some(leftover) => Some(Node::Leaf(leftover)),
                    }
                },
                Node::Branch(branch) => {
                    let ghost h = nodes_height(branch.nodes@);
                    let other_branch = other.into_branch();
                    match branch.append_or_distribute(other_branch, Ghost(h)) {
                        None => None,
                        Some(leftover) => Some(Node::Branch(leftover)),
                    }
                },
            }
        } else {
            match self {
                Node::Branch(branch) => {
                    let ghost h = nodes_height(branch.nodes@);
                    let ghost branch0 = *branch;
                    proof {
                        assert(*old(self) == Node::<T>::Branch(branch0));
                    }
                    let mut node = match branch.pop_back() {
                        Some(node) => node,
                        None => vstd::pervasive::unreached(),
                    };
                    let ghost node0 = node;
                    let overflow = node.append_at_depth(other, depth - 1);
                    proof {
                        assert(branch.content() + node0.content() == branch0.content());
                        assert(old(self).content() == branch0.content());
                        // Name the lengths of the recombined content so the
                        // capacity bound of the push below follows.
                        assert((node0.content() + other.content()).len() == node0.content().len()
                            + other.content().len());
                        assert(overflow is Some ==> (node.content() + (overflow->0).content()).len()
                            == node.content().len() + (overflow->0).content().len());
                        assert(node.content().len() <= node0.content().len()
                            + other.content().len());
                        assert(all_height(branch.nodes@, h)) by {
                            assert forall|i: int|
                                0 <= i < branch.nodes@.len() implies (#[trigger] branch.nodes@[i])
                                .height() == h by {
                                assert(branch.nodes@[i] == branch0.nodes@[i]);
                            }
                        }
                    }
                    let ghost rest = branch.content();
                    branch.push_back(node);
                    proof {
                        assert(rest + (node0.content() + other.content()) =~= branch0.content()
                            + other.content());
                    }
                    match overflow {
                        None => {
                            proof {
                                assert(branch.content() =~= rest + (node0.content()
                                    + other.content()));
                            }
                            None
                        },
                        Some(over) => {
                            proof {
                                assert(branch.content() + over.content() =~= rest + (node.content()
                                    + over.content()));
                                assert(rest + (node.content() + over.content()) =~= rest
                                    + (node0.content() + other.content()));
                            }
                            let ghost mid = branch.content();
                            match branch.push_back_and_maybe_split(over) {
                                None => {
                                    proof {
                                        assert(branch.content() =~= rest + (node.content()
                                            + over.content()));
                                    }
                                    None
                                },
                                Some(sibling) => {
                                    proof {
                                        assert(branch.content() + sibling.content() =~= mid
                                            + over.content());
                                        assert(mid + over.content() =~= rest + (node.content()
                                            + over.content()));
                                    }
                                    Some(Node::Branch(sibling))
                                },
                            }
                        },
                    }
                },
                Node::Leaf(_) => vstd::pervasive::unreached(),
            }
        }
    }
}

} // verus!
