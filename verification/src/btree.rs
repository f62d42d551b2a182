//! The tree's root handle and its public operations.
//!
//! A [`BTree`] owns a height and a root node; its model is the sequence of
//! content units stored below the root (the view `t@`), together with the
//! sequence of per-leaf contents (`t.leaves()`). Concatenation descends the
//! height difference into the taller tree, merges or distributes there, and
//! grows the tree by one level only when the root itself overflows: the new
//! root then holds exactly the old root and the overflow sibling.
//!
//! A tree is a plain owned value: `concat` consumes both inputs and returns
//! the combined tree, and `append`/`prepend` replace the receiver in place.

use vstd::prelude::*;
use crate::chunk::Chunk;
use crate::chunk::Info;
use crate::node::Branch;
use crate::node::Leaf;
use crate::node::Node;

verus! {

/// A height-balanced tree of chunks with cached aggregates.
pub struct BTree<T: Chunk> {
    pub(crate) height: usize,
    pub(crate) root: Node<T>,
}

impl<T: Chunk> View for BTree<T> {
    type V = Seq<T::Unit>;

    /// The content stored in this tree, in order.
    open(crate) spec fn view(&self) -> Seq<T::Unit> {
        self.root.content()
    }
}

impl<T: Chunk> BTree<T> {
    /// The structural invariant: the root is well-formed and the stored
    /// height matches the root's height. Established by the constructors and
    /// preserved by every operation.
    pub open(crate) spec fn wf(self) -> bool {
        &&& self.root.wf()
        &&& self.root.height() == self.height as nat
    }

    /// The number of branch levels above the leaves.
    pub open(crate) spec fn spec_height(self) -> usize {
        self.height
    }

    /// The per-leaf contents of this tree, in order. Every tree has at least
    /// one leaf; an empty tree has exactly one, holding empty content.
    pub open(crate) spec fn leaves(self) -> Seq<Seq<T::Unit>> {
        self.root.leaves()
    }

    /// The number of children of the root branch; one when the root is a
    /// leaf.
    pub open(crate) spec fn root_degree(self) -> nat {
        match self.root {
            Node::Leaf(_) => 1,
            Node::Branch(branch) => branch.nodes@.len(),
        }
    }

    /// A new, empty tree: a single empty leaf at height zero.
    pub fn new() -> (r: Self)
        ensures
            r.wf(),
            r@ == Seq::<T::Unit>::empty(),
            r.spec_height() == 0,
            r.leaves() == seq![Seq::<T::Unit>::empty()],
    {
        let tree = BTree { height: 0usize, root: Node::Leaf(Leaf::new()) };
        proof {
            assert(tree.leaves() =~= seq![Seq::<T::Unit>::empty()]);
        }
        tree
    }

    /// A tree of height zero holding exactly one chunk.
    pub fn from_chunk(chunk: T) -> (r: Self)
        requires
            chunk.content().len() <= T::max_len_spec(),
        ensures
            r.wf(),
            r@ == chunk.content(),
            r.spec_height() == 0,
            r.leaves() == seq![chunk.content()],
    {
        let tree = BTree { height: 0usize, root: Node::Leaf(Leaf { chunk }) };
        proof {
            assert(tree.leaves() =~= seq![tree.root->Leaf_0.chunk.content()]);
        }
        tree
    }

    /// The number of units stored in this tree, read from the root cache.
    pub fn len(&self) -> (r: usize)
        requires
            self.wf(),
        ensures
            r == self@.len(),
    {
        self.root.summed_len()
    }

    /// The summary of this tree's whole content, read from the root cache.
    pub fn info(&self) -> (r: T::Info)
        requires
            self.wf(),
        ensures
            r == T::info_of(self@),
    {
        self.root.summed_info()
    }

    /// The height of this tree.
    pub fn height(&self) -> (r: usize)
        ensures
            r == self.spec_height(),
    {
        self.height
    }

    /// Concatenates two trees: the result stores `self`'s content followed
    /// by `other`'s. The result's height is the larger of the two heights,
    /// plus one exactly when the root overflows; a grown tree's root holds
    /// exactly the old root and the overflow sibling.
    pub fn concat(self, other: Self) -> (r: Self)
        requires
            self.wf(),
            other.wf(),
            self@.len() + other@.len() <= usize::MAX,
            self.spec_height() < usize::MAX,
            other.spec_height() < usize::MAX,
        ensures
            r.wf(),
            r@ == self@ + other@,
            r.spec_height() >= self.spec_height(),
            r.spec_height() >= other.spec_height(),
            self.spec_height() >= other.spec_height() ==> r.spec_height() <= self.spec_height()
                + 1,
            other.spec_height() >= self.spec_height() ==> r.spec_height() <= other.spec_height()
                + 1,
            r.spec_height() > self.spec_height() && r.spec_height() > other.spec_height()
                ==> r.root_degree() == 2,
    {
        let BTree { height: self_height, root: self_root } = self;
        let BTree { height: other_height, root: other_root } = other;
        let ghost left = self_root.content();
        let ghost right = other_root.content();
        if self_height < other_height {
            let mut other_root = other_root;
            let depth = other_height - self_height;
            match other_root.prepend_at_depth(self_root, depth) {
                None => BTree { height: other_height, root: other_root },
                Some(node) => {
                    proof {
                        assert((node.content() + other_root.content()).len() == node.content().len()
                            + other_root.content().len());
                    }
                    let mut branch = Branch::new();
                    branch.push_back(node);
                    branch.push_back(other_root);
                    proof {
                        assert(Seq::<T::Unit>::empty() + node.content() =~= node.content());
                        assert(branch.content() =~= left + right);
                    }
                    BTree { height: other_height + 1, root: Node::Branch(branch) }
                },
            }
        } else {
            let mut self_root = self_root;
            let depth = self_height - other_height;
            match self_root.append_at_depth(other_root, depth) {
                None => BTree { height: self_height, root: self_root },
                Some(node) => {
                    proof {
                        assert((self_root.content() + node.content()).len()
                            == self_root.content().len() + node.content().len());
                    }
                    let mut branch = Branch::new();
                    branch.push_back(self_root);
                    branch.push_back(node);
                    proof {
                        assert(Seq::<T::Unit>::empty() + self_root.content()
                            =~= self_root.content());
                        assert(branch.content() =~= left + right);
                    }
                    BTree { height: self_height + 1, root: Node::Branch(branch) }
                },
            }
        }
    }

    /// Replaces this tree by the concatenation of `other` and this tree.
    pub fn prepend(&mut self, other: Self)
        requires
            old(self).wf(),
            other.wf(),
            old(self)@.len() + other@.len() <= usize::MAX,
            old(self).spec_height() < usize::MAX,
            other.spec_height() < usize::MAX,
        ensures
            final(self).wf(),
            final(self)@ == other@ + old(self)@,
    {
        let mut taken = Self::new();
        core::mem::swap(self, &mut taken);
        *self = other.concat(taken);
    }

    /// Replaces this tree by the concatenation of this tree and `other`.
    pub fn append(&mut self, other: Self)
        requires
            old(self).wf(),
            other.wf(),
            old(self)@.len() + other@.len() <= usize::MAX,
            old(self).spec_height() < usize::MAX,
            other.spec_height() < usize::MAX,
        ensures
            final(self).wf(),
            final(self)@ == old(self)@ + other@,
    {
        let mut taken = Self::new();
        core::mem::swap(self, &mut taken);
        *self = taken.concat(other);
    }
}

/// Every well-formed tree has at least one leaf, so a cursor over it always
/// has a current leaf; an empty tree's single leaf holds empty content.
pub proof fn lemma_tree_has_a_leaf<T: Chunk>(t: BTree<T>)
    requires
        t.wf(),
    ensures
        t.leaves().len() >= 1,
{
    crate::cursor::lemma_leaf_count_pos(t.root);
}

/// In-order leaf traversal reads exactly the stored content: joining the
/// per-leaf contents of a tree, in cursor order, yields the tree's content
/// sequence.
pub proof fn lemma_traversal_reads_content<T: Chunk>(t: BTree<T>)
    ensures
        t.leaves().flatten() == t@,
{
    crate::node::lemma_leaves_flatten_node(t.root);
}

/// In-order leaf traversal of a concatenation yields the leaf contents of
/// the left tree followed by those of the right tree, unit for unit: the
/// joined traversal of any tree whose content is `a@ + b@` equals the joined
/// traversal of `a` followed by that of `b`.
pub proof fn lemma_concat_traversal<T: Chunk>(a: BTree<T>, b: BTree<T>, c: BTree<T>)
    requires
        c@ == a@ + b@,
    ensures
        c.leaves().flatten() == a.leaves().flatten() + b.leaves().flatten(),
{
    lemma_traversal_reads_content(a);
    lemma_traversal_reads_content(b);
    lemma_traversal_reads_content(c);
}

/// The length of a concatenation is the sum of the lengths: any tree whose
/// content is the concatenation of the contents of two others stores exactly
/// as many units as the two together.
pub proof fn lemma_concat_len<T: Chunk>(a: BTree<T>, b: BTree<T>, c: BTree<T>)
    requires
        c@ == a@ + b@,
    ensures
        c@.len() == a@.len() + b@.len(),
{
    assert((a@ + b@).len() == a@.len() + b@.len());
}

/// Summary accumulation is a homomorphism over concatenation: the summary of
/// a concatenation is the sum of the summaries.
pub proof fn lemma_concat_info<T: Chunk>(a: BTree<T>, b: BTree<T>, c: BTree<T>)
    requires
        c@ == a@ + b@,
    ensures
        T::info_of(c@) == <T::Info as Info>::plus(T::info_of(a@), T::info_of(b@)),
{
    T::info_of_concat(a@, b@);
}

/// Concatenation is associative with respect to observable content, and
/// hence also with respect to length and summary: concatenating three trees
/// in either grouping yields the same content.
pub proof fn lemma_concat_associative<T: Chunk>(
    a: BTree<T>,
    b: BTree<T>,
    c: BTree<T>,
    ab: BTree<T>,
    bc: BTree<T>,
    ab_c: BTree<T>,
    a_bc: BTree<T>,
)
    requires
        ab@ == a@ + b@,
        bc@ == b@ + c@,
        ab_c@ == ab@ + c@,
        a_bc@ == a@ + bc@,
    ensures
        ab_c@ == a_bc@,
        ab_c@.len() == a_bc@.len(),
        T::info_of(ab_c@) == T::info_of(a_bc@),
{
    assert(ab_c@ =~= a_bc@);
}

} // verus!
