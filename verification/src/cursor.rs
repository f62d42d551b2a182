//! A path-based bidirectional cursor over the leaves of a tree.
//!
//! A cursor borrows a tree and names one leaf by the chain of child indices
//! leading to it from the root. Movement pops exhausted path entries, steps
//! the deepest live entry sideways, and descends to the nearest leaf of the
//! newly indexed child, so a full traversal costs amortized constant work
//! per step. The model of a cursor is its position: the number of leaves
//! before the active one, in order.

use vstd::prelude::*;
use crate::btree::BTree;
use crate::chunk::Chunk;
use crate::node::lemma_nodes_leaves_concat;
use crate::node::lemma_nodes_wf_iff;
use crate::node::nodes_leaves;
use crate::node::Node;

verus! {

/// The node reached from `n` by following the child indices of `p`.
pub(crate) open spec fn subtree_at<T: Chunk>(n: Node<T>, p: Seq<usize>) -> Node<T>
    decreases p.len(),
{
    if p.len() == 0 {
        n
    } else {
        match n {
            Node::Leaf(_) => n,
            Node::Branch(branch) => subtree_at(branch.nodes@[p[0] as int], p.drop_first()),
        }
    }
}

/// Whether `p` is a chain of in-range child indices starting at `n`.
pub(crate) open spec fn valid_path<T: Chunk>(n: Node<T>, p: Seq<usize>) -> bool
    decreases p.len(),
{
    if p.len() == 0 {
        true
    } else {
        match n {
            Node::Leaf(_) => false,
            Node::Branch(branch) => p[0] < branch.nodes@.len() && valid_path(
                branch.nodes@[p[0] as int],
                p.drop_first(),
            ),
        }
    }
}

/// The number of leaves before the subtree reached by `p`, among the leaves
/// below `n`.
pub(crate) open spec fn leaves_before<T: Chunk>(n: Node<T>, p: Seq<usize>) -> nat
    decreases p.len(),
{
    if p.len() == 0 {
        0
    } else {
        match n {
            Node::Leaf(_) => 0,
            Node::Branch(branch) => nodes_leaves(branch.nodes@.take(p[0] as int)).len()
                + leaves_before(branch.nodes@[p[0] as int], p.drop_first()),
        }
    }
}

/// The run of leaf contents below a run of nodes splits around any index.
pub(crate) proof fn lemma_nodes_leaves_decompose<T: Chunk>(s: Seq<Node<T>>, i: int)
    requires
        0 <= i < s.len(),
    ensures
        nodes_leaves(s) == nodes_leaves(s.take(i)) + s[i].leaves() + nodes_leaves(
            s.skip(i + 1),
        ),
{
    lemma_nodes_leaves_concat(s.take(i), s.skip(i));
    assert(s.take(i) + s.skip(i) =~= s);
    lemma_nodes_leaves_concat(seq![s[i]], s.skip(i + 1));
    assert(seq![s[i]] + s.skip(i + 1) =~= s.skip(i));
    assert(seq![s[i]].drop_first() =~= Seq::<Node<T>>::empty());
    assert(nodes_leaves(seq![s[i]].drop_first()) =~= Seq::<Seq<T::Unit>>::empty());
    assert(nodes_leaves(seq![s[i]]) =~= s[i].leaves());
    assert(nodes_leaves(s) =~= nodes_leaves(s.take(i)) + s[i].leaves() + nodes_leaves(
        s.skip(i + 1),
    ));
}

/// Every well-formed node has at least one leaf below it, and each of its
/// leaves holds content.
pub(crate) proof fn lemma_leaf_count_pos<T: Chunk>(n: Node<T>)
    requires
        n.wf(),
    ensures
        n.leaves().len() >= 1,
    decreases n,
{
    match n {
        Node::Leaf(_) => {},
        Node::Branch(branch) => {
            lemma_nodes_wf_iff(branch.nodes@);
            lemma_leaf_count_pos(branch.nodes@[0]);
            lemma_nodes_leaves_decompose(branch.nodes@, 0);
        },
    }
}

/// A valid path, a prefix of it, and the rest of it: validity, the reached
/// subtree, and the leaf count before the subtree all decompose at any cut.
pub(crate) proof fn lemma_path_split<T: Chunk>(n: Node<T>, p: Seq<usize>, k: int)
    requires
        valid_path(n, p),
        0 <= k <= p.len(),
    ensures
        valid_path(n, p.take(k)),
        valid_path(subtree_at(n, p.take(k)), p.skip(k)),
        subtree_at(n, p) == subtree_at(subtree_at(n, p.take(k)), p.skip(k)),
        leaves_before(n, p) == leaves_before(n, p.take(k)) + leaves_before(
            subtree_at(n, p.take(k)),
            p.skip(k),
        ),
    decreases p.len(),
{
    if k == 0 {
        assert(p.take(0) =~= Seq::<usize>::empty());
        assert(p.skip(0) =~= p);
    } else {
        match n {
            Node::Leaf(_) => {},
            Node::Branch(branch) => {
                let child = branch.nodes@[p[0] as int];
                lemma_path_split(child, p.drop_first(), k - 1);
                assert(p.take(k).drop_first() =~= p.drop_first().take(k - 1));
                assert(p.skip(k) =~= p.drop_first().skip(k - 1));
                assert(p.take(k)[0] == p[0]);
            },
        }
    }
}

/// Appending one index to a valid path reaches the child it names.
pub(crate) proof fn lemma_path_push<T: Chunk>(n: Node<T>, p: Seq<usize>, i: usize)
    requires
        valid_path(n, p),
        subtree_at(n, p) is Branch,
        i < subtree_at(n, p)->Branch_0.nodes@.len(),
    ensures
        valid_path(n, p.push(i)),
        subtree_at(n, p.push(i)) == subtree_at(n, p)->Branch_0.nodes@[i as int],
        leaves_before(n, p.push(i)) == leaves_before(n, p) + nodes_leaves(
            subtree_at(n, p)->Branch_0.nodes@.take(i as int),
        ).len(),
    decreases p.len(),
{
    if p.len() == 0 {
        assert(p.push(i).len() == 1);
        assert(p.push(i)[0] == i);
        assert(p.push(i).drop_first() =~= Seq::<usize>::empty());
        match n {
            Node::Leaf(_) => {},
            Node::Branch(branch) => {
                let child = branch.nodes@[i as int];
                assert(valid_path(child, p.push(i).drop_first()));
                assert(subtree_at(child, p.push(i).drop_first()) == child);
                assert(leaves_before(child, p.push(i).drop_first()) == 0);
            },
        }
    } else {
        match n {
            Node::Leaf(_) => {},
            Node::Branch(branch) => {
                let child = branch.nodes@[p[0] as int];
                lemma_path_push(child, p.drop_first(), i);
                assert(p.push(i).drop_first() =~= p.drop_first().push(i));
                assert(p.push(i)[0] == p[0]);
            },
        }
    }
}

/// Along a valid path in a well-formed tree, every reached subtree is
/// well-formed, and the path ends exactly at the depth given by the height.
pub(crate) proof fn lemma_path_wf<T: Chunk>(n: Node<T>, p: Seq<usize>)
    requires
        n.wf(),
        valid_path(n, p),
    ensures
        subtree_at(n, p).wf(),
        subtree_at(n, p).height() + p.len() == n.height(),
    decreases p.len(),
{
    if p.len() > 0 {
        match n {
            Node::Leaf(_) => {},
            Node::Branch(branch) => {
                lemma_nodes_wf_iff(branch.nodes@);
                lemma_path_wf(branch.nodes@[p[0] as int], p.drop_first());
            },
        }
    }
}

/// The number of children of the branch reached by the first `j` indices of
/// `p`.
pub(crate) open spec fn child_count_at<T: Chunk>(n: Node<T>, p: Seq<usize>, j: int) -> int {
    subtree_at(n, p.take(j))->Branch_0.nodes@.len() as int
}

/// When every path entry from level `k` down names the last child of its
/// branch, the path reaches the last leaf below the subtree at level `k`.
pub(crate) proof fn lemma_last_tail<T: Chunk>(n: Node<T>, p: Seq<usize>, k: int)
    requires
        valid_path(n, p),
        subtree_at(n, p) is Leaf,
        0 <= k <= p.len(),
        forall|j: int| k <= j < p.len() ==> p[j] + 1 == #[trigger] child_count_at(n, p, j),
    ensures
        leaves_before(n, p) + 1 == leaves_before(n, p.take(k)) + subtree_at(
            n,
            p.take(k),
        ).leaves().len(),
    decreases p.len() - k,
{
    if k == p.len() {
        assert(p.take(k) =~= p);
    } else {
        lemma_last_tail(n, p, k + 1);
        let pre = p.take(k);
        let i = p[k];
        lemma_path_split(n, p, k);
        assert(p.skip(k)[0] == p[k]);
        let sub = subtree_at(n, pre);
        let s = sub->Branch_0.nodes@;
        lemma_path_push(n, pre, i);
        assert(p.take(k + 1) =~= pre.push(i));
        assert(p[k] + 1 == child_count_at(n, p, k));
        lemma_nodes_leaves_decompose(s, i as int);
        assert(s.skip(i + 1) =~= Seq::<Node<T>>::empty());
        assert(nodes_leaves(s.skip(i + 1)) =~= Seq::<Seq<T::Unit>>::empty());
        assert(sub.leaves().len() == nodes_leaves(s.take(i as int)).len()
            + s[i as int].leaves().len());
    }
}

/// When every path entry from level `k` down names the first child of its
/// branch, no leaves lie between the subtree at level `k` and the reached
/// leaf.
pub(crate) proof fn lemma_first_tail<T: Chunk>(n: Node<T>, p: Seq<usize>, k: int)
    requires
        valid_path(n, p),
        0 <= k <= p.len(),
        forall|j: int| k <= j < p.len() ==> p[j] == 0,
    ensures
        leaves_before(n, p) == leaves_before(n, p.take(k)),
    decreases p.len() - k,
{
    if k == p.len() {
        assert(p.take(k) =~= p);
    } else {
        lemma_first_tail(n, p, k + 1);
        let pre = p.take(k);
        lemma_path_split(n, p, k);
        assert(p.skip(k)[0] == p[k]);
        let sub = subtree_at(n, pre);
        lemma_path_push(n, pre, p[k]);
        assert(p.take(k + 1) =~= pre.push(p[k]));
        assert(p[k] == 0);
        assert(sub->Branch_0.nodes@.take(0) =~= Seq::<Node<T>>::empty());
        assert(nodes_leaves(sub->Branch_0.nodes@.take(0)) =~= Seq::<Seq<T::Unit>>::empty());
    }
}

/// The leaf reached by a full valid path sits at the position given by
/// `leaves_before`, and the leaf run of the tree holds its content there.
pub(crate) proof fn lemma_leaf_at_position<T: Chunk>(n: Node<T>, p: Seq<usize>)
    requires
        n.wf(),
        valid_path(n, p),
        subtree_at(n, p) is Leaf,
    ensures
        leaves_before(n, p) < n.leaves().len(),
        n.leaves()[leaves_before(n, p) as int] == subtree_at(n, p)->Leaf_0.chunk.content(),
    decreases p.len(),
{
    if p.len() == 0 {
    } else {
        match n {
            Node::Leaf(_) => {},
            Node::Branch(branch) => {
                let i = p[0] as int;
                let child = branch.nodes@[i];
                lemma_nodes_wf_iff(branch.nodes@);
                lemma_leaf_at_position(child, p.drop_first());
                lemma_nodes_leaves_decompose(branch.nodes@, i);
                let before = nodes_leaves(branch.nodes@.take(i));
                let inner = leaves_before(child, p.drop_first());
                let pos = before.len() + inner;
                assert(n.leaves()[pos as int] == (before + child.leaves() + nodes_leaves(
                    branch.nodes@.skip(i + 1),
                ))[pos as int]);
                assert((before + child.leaves())[pos as int] == child.leaves()[inner as int]);
            },
        }
    }
}

/// A bidirectional iterator over the leaves of a borrowed tree, positioned
/// at exactly one leaf.
pub struct Cursor<'a, T: Chunk> {
    root: &'a Node<T>,
    path: Vec<usize>,
}

/// Walks the first `k` indices of `path` down from `root`.
fn node_at_prefix<'a, T: Chunk>(root: &'a Node<T>, path: &Vec<usize>, k: usize) -> (r: &'a Node<
    T,
>)
    requires
        k <= path@.len(),
        valid_path(*root, path@.take(k as int)),
    ensures
        *r == subtree_at(*root, path@.take(k as int)),
{
    let mut node: &'a Node<T> = root;
    let mut j: usize = 0;
    proof {
        assert(path@.take(0) =~= Seq::<usize>::empty());
    }
    while j < k
        invariant
            j <= k,
            k <= path@.len(),
            valid_path(*root, path@.take(k as int)),
            *node == subtree_at(*root, path@.take(j as int)),
        decreases k - j,
    {
        proof {
            lemma_path_split(*root, path@.take(k as int), j as int);
            assert(path@.take(k as int).take(j as int) =~= path@.take(j as int));
            assert(path@.take(k as int).skip(j as int)[0] == path@[j as int]);
            lemma_path_push(*root, path@.take(j as int), path@[j as int]);
            assert(path@.take(j + 1) =~= path@.take(j as int).push(path@[j as int]));
        }
        match node {
            Node::Branch(branch) => {
                node = branch.child(path[j]);
            },
            Node::Leaf(_) => {
                vstd::pervasive::unreached()
            },
        }
        j += 1;
    }
    node
}

impl<'a, T: Chunk> Cursor<'a, T> {
    /// The invariant of a cursor: the borrowed tree is well-formed and the
    /// path names a leaf of it.
    pub closed spec fn wf(self) -> bool {
        &&& self.root.wf()
        &&& valid_path(*self.root, self.path@)
        &&& subtree_at(*self.root, self.path@) is Leaf
    }

    /// The number of leaves before the active one.
    pub closed spec fn position(self) -> nat {
        leaves_before(*self.root, self.path@)
    }

    /// The per-leaf contents of the tree this cursor walks.
    pub closed spec fn leaves(self) -> Seq<Seq<T::Unit>> {
        self.root.leaves()
    }

    /// The node the cursor's path leads to: the active leaf.
    fn current_node(&self) -> (r: &'a Node<T>)
        requires
            self.wf(),
        ensures
            *r == subtree_at(*self.root, self.path@),
    {
        proof {
            assert(self.path@.take(self.path@.len() as int) =~= self.path@);
        }
        node_at_prefix(self.root, &self.path, self.path.len())
    }

    /// The chunk of the active leaf.
    pub fn current(&self) -> (r: &'a T)
        requires
            self.wf(),
        ensures
            self.position() < self.leaves().len(),
            r.content() == self.leaves()[self.position() as int],
    {
        proof {
            lemma_leaf_at_position(*self.root, self.path@);
        }
        self.current_node().as_leaf().as_chunk()
    }

    /// Moves to the next leaf. The cursor must not stand at the last leaf.
    pub fn move_right(&mut self)
        requires
            old(self).wf(),
            old(self).position() + 1 < old(self).leaves().len(),
        ensures
            final(self).wf(),
            final(self).position() == old(self).position() + 1,
            final(self).leaves() == old(self).leaves(),
    {
        let ghost root = *self.root;
        let ghost path0 = self.path@;
        let mut k: usize = self.path.len();
        loop
            invariant
                k <= path0.len(),
                self.path@ == path0,
                *self.root == root,
                root.wf(),
                valid_path(root, path0),
                subtree_at(root, path0) is Leaf,
                leaves_before(root, path0) + 1 < root.leaves().len(),
                forall|j: int|
                    k <= j < path0.len() ==> path0[j] + 1 == #[trigger] child_count_at(root, path0, j),
            ensures
                1 <= k <= path0.len(),
                forall|j: int|
                    k <= j < path0.len() ==> path0[j] + 1 == #[trigger] child_count_at(root, path0, j),
                path0[k - 1] + 1 < child_count_at(root, path0, k - 1),
            decreases k,
        {
            if k == 0 {
                proof {
                    lemma_last_tail(root, path0, 0);
                    assert(path0.take(0) =~= Seq::<usize>::empty());
                    assert(false);
                }
                break ;
            }
            proof {
                lemma_path_split(root, path0, k - 1);
                assert(path0.skip(k - 1)[0] == path0[k - 1]);
                lemma_path_wf(root, path0.take(k - 1));
            }
            let parent = node_at_prefix(self.root, &self.path, k - 1);
            match parent {
                Node::Branch(branch) => {
                    proof {
                        assert(path0[k - 1] < branch.nodes@.len());
                    }
                    let idx = self.path[k - 1];
                    if idx + 1 < branch.len() {
                        break ;
                    }
                    proof {
                        assert(path0[k - 1] + 1 == child_count_at(root, path0, k - 1));
                    }
                    k -= 1;
                },
                Node::Leaf(_) => {
                    vstd::pervasive::unreached()
                },
            }
        }
        let ghost pre = path0.take(k - 1);
        let ghost i = path0[k - 1];
        proof {
            lemma_path_split(root, path0, k - 1);
            assert(path0.skip(k - 1)[0] == path0[k - 1]);
            lemma_path_wf(root, pre);
            assert(subtree_at(root, pre)->Branch_0.nodes@.len()
                <= crate::node::BRANCH_MAX_LEN);
            lemma_path_split(root, path0, k as int);
            lemma_last_tail(root, path0, k as int);
            lemma_path_push(root, pre, i);
            assert(path0.take(k as int) =~= pre.push(i));
            let s = subtree_at(root, pre)->Branch_0.nodes@;
            lemma_nodes_leaves_decompose(s.take(i + 1), i as int);
            assert(s.take(i + 1).take(i as int) =~= s.take(i as int));
            assert(s.take(i + 1)[i as int] == s[i as int]);
            assert(s.take(i + 1).skip(i + 1) =~= Seq::<Node<T>>::empty());
            assert(nodes_leaves(s.take(i + 1).skip(i + 1)) =~= Seq::<Seq<T::Unit>>::empty());
        }
        self.path.truncate(k);
        proof {
            assert(self.path@ =~= path0.take(k as int));
        }
        let stepped = match self.path.pop() {
            Some(last) => last + 1,
            None => vstd::pervasive::unreached(),
        };
        proof {
            assert(self.path@ =~= pre);
        }
        self.path.push(stepped);
        proof {
            lemma_path_push(root, pre, stepped);
            assert(self.path@ =~= pre.push(stepped));
            assert(leaves_before(root, self.path@) == leaves_before(root, path0) + 1);
        }
        loop
            invariant
                *self.root == root,
                root.wf(),
                valid_path(root, self.path@),
                leaves_before(root, self.path@) == leaves_before(root, path0) + 1,
            ensures
                *self.root == root,
                valid_path(root, self.path@),
                leaves_before(root, self.path@) == leaves_before(root, path0) + 1,
                subtree_at(root, self.path@) is Leaf,
            decreases subtree_at(root, self.path@).height(),
        {
            proof {
                assert(self.path@.take(self.path@.len() as int) =~= self.path@);
            }
            let node = node_at_prefix(self.root, &self.path, self.path.len());
            match node {
                Node::Leaf(_) => {
                    break ;
                },
                Node::Branch(branch) => {
                    proof {
                        lemma_path_wf(root, self.path@);
                        crate::node::lemma_nodes_wf_iff(branch.nodes@);
                        lemma_path_push(root, self.path@, 0);
                        assert(branch.nodes@.take(0) =~= Seq::<Node<T>>::empty());
                        assert(nodes_leaves(branch.nodes@.take(0))
                            =~= Seq::<Seq<T::Unit>>::empty());
                        assert(branch.nodes@[0].height() < subtree_at(root, self.path@).height());
                    }
                    self.path.push(0);
                },
            }
        }
    }

    /// Moves to the previous leaf. The cursor must not stand at the first
    /// leaf.
    pub fn move_left(&mut self)
        requires
            old(self).wf(),
            old(self).position() >= 1,
        ensures
            final(self).wf(),
            final(self).position() == old(self).position() - 1,
            final(self).leaves() == old(self).leaves(),
    {
        let ghost root = *self.root;
        let ghost path0 = self.path@;
        let mut k: usize = self.path.len();
        loop
            invariant
                k <= path0.len(),
                self.path@ == path0,
                *self.root == root,
                root.wf(),
                valid_path(root, path0),
                subtree_at(root, path0) is Leaf,
                leaves_before(root, path0) >= 1,
                forall|j: int| k <= j < path0.len() ==> path0[j] == 0,
            ensures
                1 <= k <= path0.len(),
                forall|j: int| k <= j < path0.len() ==> path0[j] == 0,
                path0[k - 1] >= 1,
            decreases k,
        {
            if k == 0 {
                proof {
                    lemma_first_tail(root, path0, 0);
                    assert(path0.take(0) =~= Seq::<usize>::empty());
                    assert(false);
                }
                break ;
            }
            let idx = self.path[k - 1];
            if idx > 0 {
                break ;
            }
            k -= 1;
        }
        let ghost pre = path0.take(k - 1);
        let ghost i = path0[k - 1];
        proof {
            lemma_path_split(root, path0, k - 1);
            assert(path0.skip(k - 1)[0] == path0[k - 1]);
            lemma_first_tail(root, path0, k as int);
            lemma_path_push(root, pre, i);
            assert(path0.take(k as int) =~= pre.push(i));
            let s = subtree_at(root, pre)->Branch_0.nodes@;
            lemma_nodes_leaves_decompose(s.take(i as int), i - 1);
            assert(s.take(i as int).take(i - 1) =~= s.take(i - 1));
            assert(s.take(i as int)[i - 1] == s[i - 1]);
            assert(s.take(i as int).skip(i as int) =~= Seq::<Node<T>>::empty());
            assert(nodes_leaves(s.take(i as int).skip(i as int))
                =~= Seq::<Seq<T::Unit>>::empty());
        }
        self.path.truncate(k);
        proof {
            assert(self.path@ =~= path0.take(k as int));
        }
        let stepped = match self.path.pop() {
            Some(last) => last - 1,
            None => vstd::pervasive::unreached(),
        };
        proof {
            assert(self.path@ =~= pre);
        }
        self.path.push(stepped);
        proof {
            lemma_path_push(root, pre, stepped);
            assert(self.path@ =~= pre.push(stepped));
            assert(leaves_before(root, self.path@) + subtree_at(root, self.path@).leaves().len()
                == leaves_before(root, path0));
        }
        loop
            invariant
                *self.root == root,
                root.wf(),
                valid_path(root, self.path@),
                leaves_before(root, self.path@) + subtree_at(root, self.path@).leaves().len()
                    == leaves_before(root, path0),
            ensures
                *self.root == root,
                valid_path(root, self.path@),
                subtree_at(root, self.path@) is Leaf,
                leaves_before(root, self.path@) + subtree_at(root, self.path@).leaves().len()
                    == leaves_before(root, path0),
            decreases subtree_at(root, self.path@).height(),
        {
            proof {
                assert(self.path@.take(self.path@.len() as int) =~= self.path@);
            }
            let node = node_at_prefix(self.root, &self.path, self.path.len());
            match node {
                Node::Leaf(_) => {
                    break ;
                },
                Node::Branch(branch) => {
                    proof {
                        lemma_path_wf(root, self.path@);
                        crate::node::lemma_nodes_wf_iff(branch.nodes@);
                        assert(branch.nodes@.len() >= 1);
                    }
                    let last = branch.len() - 1;
                    proof {
                        lemma_path_push(root, self.path@, last);
                        lemma_nodes_leaves_decompose(branch.nodes@, last as int);
                        assert(branch.nodes@.skip(last + 1) =~= Seq::<Node<T>>::empty());
                        assert(nodes_leaves(branch.nodes@.skip(last + 1))
                            =~= Seq::<Seq<T::Unit>>::empty());
                        assert(branch.nodes@[last as int].height() < subtree_at(
                            root,
                            self.path@,
                        ).height());
                    }
                    self.path.push(last);
                },
            }
        }
    }
}

impl<T: Chunk> BTree<T> {
    /// A cursor positioned at the first leaf of this tree.
    pub fn cursor_front(&self) -> (c: Cursor<T>)
        requires
            self.wf(),
        ensures
            c.wf(),
            c.position() == 0,
            c.leaves() == self.leaves(),
    {
        let mut path: Vec<usize> = Vec::new();
        proof {
            assert(path@ =~= Seq::<usize>::empty());
        }
        loop
            invariant
                self.wf(),
                valid_path(self.root, path@),
                leaves_before(self.root, path@) == 0,
            ensures
                valid_path(self.root, path@),
                leaves_before(self.root, path@) == 0,
                subtree_at(self.root, path@) is Leaf,
            decreases subtree_at(self.root, path@).height(),
        {
            proof {
                assert(path@.take(path@.len() as int) =~= path@);
            }
            let node = node_at_prefix(&self.root, &path, path.len());
            match node {
                Node::Leaf(_) => {
                    break ;
                },
                Node::Branch(branch) => {
                    proof {
                        lemma_path_wf(self.root, path@);
                        crate::node::lemma_nodes_wf_iff(branch.nodes@);
                        lemma_path_push(self.root, path@, 0);
                        assert(branch.nodes@.take(0) =~= Seq::<Node<T>>::empty());
                        assert(nodes_leaves(branch.nodes@.take(0))
                            =~= Seq::<Seq<T::Unit>>::empty());
                        assert(branch.nodes@[0].height() < subtree_at(self.root, path@).height());
                    }
                    path.push(0);
                },
            }
        }
        Cursor { root: &self.root, path }
    }
}

} // verus!
