//! The tree's node types and their mathematical model.
//!
//! A node is either a leaf holding one chunk or a branch holding an ordered,
//! bounded run of child nodes together with cached aggregates (summed length
//! and summed info) of the content below. The model of a node is its content:
//! the concatenation, in order, of the content of its leaves.
//!
//! Well-formedness (`Node::wf`) captures the structural invariant: every
//! branch holds between 1 and [`BRANCH_MAX_LEN`] children, all children of a
//! branch have equal height (so all leaves of a tree sit at the same depth),
//! every leaf respects the chunk length bound, and every cached aggregate
//! equals the aggregate of the content below it.

use vstd::prelude::*;
use crate::chunk::Chunk;
use crate::chunk::Info;

verus! {

/// The bound on the number of children of one branch.
pub const BRANCH_MAX_LEN: usize = 8;

/// A leaf node: wraps one chunk.
pub(crate) struct Leaf<T: Chunk> {
    pub(crate) chunk: T,
}

/// A branch node: an ordered run of child nodes with cached aggregates.
pub(crate) struct Branch<T: Chunk> {
    pub(crate) summed_len: usize,
    pub(crate) summed_info: T::Info,
    pub(crate) nodes: Vec<Node<T>>,
}

/// A tree node: a leaf or a branch.
pub(crate) enum Node<T: Chunk> {
    Leaf(Leaf<T>),
    Branch(Branch<T>),
}

impl<T: Chunk> Node<T> {
    /// The content below this node: the concatenation, in order, of the
    /// content of its leaves.
    pub(crate) open spec fn content(self) -> Seq<T::Unit>
        decreases self,
    {
        match self {
            Node::Leaf(leaf) => leaf.chunk.content(),
            Node::Branch(branch) => nodes_content(branch.nodes@),
        }
    }

    /// The leaf contents below this node, one sequence per leaf, in order.
    pub(crate) open spec fn leaves(self) -> Seq<Seq<T::Unit>>
        decreases self,
    {
        match self {
            Node::Leaf(leaf) => seq![leaf.chunk.content()],
            Node::Branch(branch) => nodes_leaves(branch.nodes@),
        }
    }

    /// The height of this node: the number of branch levels above the leaves.
    /// Meaningful for well-formed nodes, where all children of a branch have
    /// equal height.
    pub(crate) open spec fn height(self) -> nat
        decreases self,
    {
        match self {
            Node::Leaf(_) => 0,
            Node::Branch(branch) => nodes_height(branch.nodes@) + 1,
        }
    }

    /// The structural invariant of a node.
    pub(crate) open spec fn wf(self) -> bool
        decreases self,
    {
        match self {
            Node::Leaf(leaf) => leaf.chunk.content().len() <= T::max_len_spec(),
            Node::Branch(branch) => {
                &&& branch.ok()
                &&& branch.nodes@.len() >= 1
                &&& all_height(branch.nodes@, nodes_height(branch.nodes@))
            },
        }
    }

    /// The number of units below this node, read from the cache.
    pub(crate) fn summed_len(&self) -> (r: usize)
        requires
            self.wf(),
        ensures
            r == self.content().len(),
    {
        match self {
            Node::Leaf(leaf) => leaf.len(),
            Node::Branch(branch) => branch.summed_len(),
        }
    }

    /// The summary of the content below this node, read from the cache.
    pub(crate) fn summed_info(&self) -> (r: T::Info)
        requires
            self.wf(),
        ensures
            r == T::info_of(self.content()),
    {
        match self {
            Node::Leaf(leaf) => leaf.info(),
            Node::Branch(branch) => branch.summed_info(),
        }
    }

    /// Unwraps a node known to be a leaf.
    pub(crate) fn into_leaf(self) -> (r: Leaf<T>)
        requires
            self is Leaf,
        ensures
            self == Node::<T>::Leaf(r),
    {
        match self {
            Node::Leaf(leaf) => leaf,
            Node::Branch(_) => vstd::pervasive::unreached(),
        }
    }

    /// Unwraps a node known to be a branch.
    pub(crate) fn into_branch(self) -> (r: Branch<T>)
        requires
            self is Branch,
        ensures
            self == Node::<T>::Branch(r),
    {
        match self {
            Node::Leaf(_) => vstd::pervasive::unreached(),
            Node::Branch(branch) => branch,
        }
    }

    /// Borrows the leaf inside a node known to be a leaf.
    pub(crate) fn as_leaf(&self) -> (r: &Leaf<T>)
        requires
            *self is Leaf,
        ensures
            *self == Node::<T>::Leaf(*r),
    {
        match self {
            Node::Leaf(leaf) => leaf,
            Node::Branch(_) => vstd::pervasive::unreached(),
        }
    }
}

impl<T: Chunk> Branch<T> {
    /// The children of this branch.
    pub(crate) open spec fn children(self) -> Seq<Node<T>> {
        self.nodes@
    }

    /// The content below this branch.
    pub(crate) open spec fn content(self) -> Seq<T::Unit> {
        nodes_content(self.nodes@)
    }

    /// The invariant of a branch except for the lower bound on its child
    /// count and the uniformity of the children's heights: the child count is
    /// bounded, the children are well-formed, and the cached aggregates equal
    /// the aggregates of the content below. A freshly constructed empty
    /// branch satisfies it transiently.
    pub(crate) open spec fn ok(self) -> bool
        decreases self,
    {
        &&& self.nodes@.len() <= BRANCH_MAX_LEN
        &&& nodes_wf(self.nodes@)
        &&& self.summed_len == nodes_content(self.nodes@).len()
        &&& self.summed_info == T::info_of(nodes_content(self.nodes@))
    }
}

/// Every node of a run has height `h`.
pub(crate) open spec fn all_height<T: Chunk>(s: Seq<Node<T>>, h: nat) -> bool {
    forall|i: int| 0 <= i < s.len() ==> (#[trigger] s[i]).height() == h
}

/// The height of the first node of a run; the height of a well-formed
/// branch's children.
pub(crate) open spec fn nodes_height<T: Chunk>(s: Seq<Node<T>>) -> nat
    decreases s,
{
    if s.len() == 0 {
        0
    } else {
        s[0].height()
    }
}

/// The concatenated content of a run of nodes.
pub(crate) open spec fn nodes_content<T: Chunk>(s: Seq<Node<T>>) -> Seq<T::Unit>
    decreases s,
{
    if s.len() == 0 {
        Seq::empty()
    } else {
        s[0].content() + nodes_content(s.drop_first())
    }
}

/// The concatenated leaf contents of a run of nodes.
pub(crate) open spec fn nodes_leaves<T: Chunk>(s: Seq<Node<T>>) -> Seq<Seq<T::Unit>>
    decreases s,
{
    if s.len() == 0 {
        Seq::empty()
    } else {
        s[0].leaves() + nodes_leaves(s.drop_first())
    }
}

/// Every node of a run is well-formed.
pub(crate) open spec fn nodes_wf<T: Chunk>(s: Seq<Node<T>>) -> bool
    decreases s,
{
    if s.len() == 0 {
        true
    } else {
        s[0].wf() && nodes_wf(s.drop_first())
    }
}

/// Content concatenation distributes over splitting a run of nodes.
pub(crate) proof fn lemma_nodes_content_concat<T: Chunk>(s: Seq<Node<T>>, t: Seq<Node<T>>)
    ensures
        nodes_content(s + t) == nodes_content(s) + nodes_content(t),
    decreases s.len(),
{
    if s.len() == 0 {
        assert(s + t =~= t);
        assert(nodes_content(s) + nodes_content(t) =~= nodes_content(t));
    } else {
        lemma_nodes_content_concat(s.drop_first(), t);
        assert((s + t).drop_first() =~= s.drop_first() + t);
        assert(s[0].content() + (nodes_content(s.drop_first()) + nodes_content(t))
            =~= (s[0].content() + nodes_content(s.drop_first())) + nodes_content(t));
    }
}

/// The content of a run extended at the back.
pub(crate) proof fn lemma_nodes_content_push<T: Chunk>(s: Seq<Node<T>>, x: Node<T>)
    ensures
        nodes_content(s.push(x)) == nodes_content(s) + x.content(),
{
    lemma_nodes_content_concat(s, seq![x]);
    assert(s.push(x) =~= s + seq![x]);
    lemma_nodes_content_singleton(x);
}

/// The content of a singleton run.
pub(crate) proof fn lemma_nodes_content_singleton<T: Chunk>(x: Node<T>)
    ensures
        nodes_content(seq![x]) == x.content(),
{
    let s = seq![x];
    assert(s.drop_first() =~= Seq::<Node<T>>::empty());
    assert(nodes_content(s.drop_first()) =~= Seq::<T::Unit>::empty());
    assert(nodes_content(s) =~= x.content());
}

/// Leaf concatenation distributes over splitting a run of nodes.
pub(crate) proof fn lemma_nodes_leaves_concat<T: Chunk>(s: Seq<Node<T>>, t: Seq<Node<T>>)
    ensures
        nodes_leaves(s + t) == nodes_leaves(s) + nodes_leaves(t),
    decreases s.len(),
{
    if s.len() == 0 {
        assert(s + t =~= t);
        assert(nodes_leaves(s) + nodes_leaves(t) =~= nodes_leaves(t));
    } else {
        lemma_nodes_leaves_concat(s.drop_first(), t);
        assert((s + t).drop_first() =~= s.drop_first() + t);
        assert(s[0].leaves() + (nodes_leaves(s.drop_first()) + nodes_leaves(t))
            =~= (s[0].leaves() + nodes_leaves(s.drop_first())) + nodes_leaves(t));
    }
}

/// Reading the leaf contents of a node in order and joining them yields
/// exactly the node's content.
pub(crate) proof fn lemma_leaves_flatten_node<T: Chunk>(n: Node<T>)
    ensures
        n.leaves().flatten() == n.content(),
    decreases n,
{
    match n {
        Node::Leaf(leaf) => {
            n.leaves().lemma_flatten_one_element();
        },
        Node::Branch(branch) => {
            lemma_leaves_flatten_run(branch.nodes@);
        },
    }
}

/// Reading the leaf contents of a run of nodes in order and joining them
/// yields exactly the run's content.
pub(crate) proof fn lemma_leaves_flatten_run<T: Chunk>(s: Seq<Node<T>>)
    ensures
        nodes_leaves(s).flatten() == nodes_content(s),
    decreases s,
{
    if s.len() == 0 {
        assert(nodes_leaves(s).flatten() =~= nodes_content(s));
    } else {
        lemma_leaves_flatten_node(s[0]);
        lemma_leaves_flatten_run(s.drop_first());
        vstd::seq_lib::lemma_flatten_concat(s[0].leaves(), nodes_leaves(s.drop_first()));
    }
}

/// A run is well-formed exactly when each of its nodes is.
pub(crate) proof fn lemma_nodes_wf_iff<T: Chunk>(s: Seq<Node<T>>)
    ensures
        nodes_wf(s) <==> (forall|i: int| 0 <= i < s.len() ==> (#[trigger] s[i]).wf()),
    decreases s.len(),
{
    if s.len() > 0 {
        lemma_nodes_wf_iff(s.drop_first());
        assert forall|i: int| 0 <= i < s.drop_first().len() implies s.drop_first()[i]
            == s[i + 1] by {}
        if s[0].wf() && nodes_wf(s.drop_first()) {
            assert forall|i: int| 0 <= i < s.len() implies (#[trigger] s[i]).wf() by {
                if i > 0 {
                    assert(s[i] == s.drop_first()[i - 1]);
                }
            }
        }
        if forall|i: int| 0 <= i < s.len() ==> (#[trigger] s[i]).wf() {
            assert(s[0].wf());
        }
    }
}

} // verus!
