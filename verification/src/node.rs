//! Immutable tree nodes and the two primitives that build them.
//!
//! A node is never changed after it is built. An edit builds a new node and
//! shares the untouched children with the node it was made from.

use std::rc::Rc;
use vstd::prelude::*;

verus! {

/// The left side of a node.
pub const LCHD: usize = 0;

/// The right side of a node.
pub const RCHD: usize = 1;

/// A binary tree of keys, each node caching the number of nodes below and
/// including it.
#[derive(Debug, PartialEq, Eq)]
pub enum TreeNode {
    Null,
    Node { key: i32, size: i32, left: Rc<TreeNode>, right: Rc<TreeNode> },
}

/// Calls `Rc::clone` on the handle of a node. Verus takes the contract on
/// trust: the handle that `Rc::clone` returns points at the allocation that
/// `node` points at, so the tree behind it is the same tree.
#[verifier::external_body]
pub(crate) fn share(node: &Rc<TreeNode>) -> (out: Rc<TreeNode>)
    ensures
        out == *node,
{
    Rc::clone(node)
}

/// The side opposite to `dir`.
pub open spec fn flip(dir: usize) -> usize {
    if dir == LCHD {
        RCHD
    } else {
        LCHD
    }
}

/// On the two sides, `dir ^ 1` is the opposite side.
pub proof fn lemma_xor_flips(dir: usize)
    requires
        dir < 2,
    ensures
        dir ^ 1 == flip(dir),
        1 ^ dir == flip(dir),
{
    assert(dir < 2 ==> (dir ^ 1) == 1 - dir && (1 ^ dir) == 1 - dir) by (bit_vector);
}

impl View for TreeNode {
    type V = Seq<i32>;

    /// The keys in in-order.
    open spec fn view(&self) -> Seq<i32> {
        self.keys()
    }
}

impl TreeNode {
    /// The keys in in-order: left subtree, the node's own key, right subtree.
    pub open spec fn keys(&self) -> Seq<i32>
        decreases self,
    {
        match self {
            TreeNode::Null => Seq::empty(),
            TreeNode::Node { key, left, right, .. } => left.keys().push(*key) + right.keys(),
        }
    }

    /// The stored key; 0 stands in for the key of `Null`.
    pub open spec fn spec_key(&self) -> i32 {
        match self {
            TreeNode::Null => 0,
            TreeNode::Node { key, .. } => *key,
        }
    }

    /// The stored size; 0 for `Null`.
    pub open spec fn spec_size(&self) -> i32 {
        match self {
            TreeNode::Null => 0,
            TreeNode::Node { size, .. } => *size,
        }
    }

    /// The left child; `Null` has none.
    pub open spec fn left(&self) -> TreeNode {
        match self {
            TreeNode::Null => TreeNode::Null,
            TreeNode::Node { left, .. } => **left,
        }
    }

    /// The right child; `Null` has none.
    pub open spec fn right(&self) -> TreeNode {
        match self {
            TreeNode::Null => TreeNode::Null,
            TreeNode::Node { right, .. } => **right,
        }
    }

    /// The child on side `dir`.
    pub open spec fn spec_child(&self, dir: usize) -> TreeNode {
        if dir == LCHD {
            self.left()
        } else {
            self.right()
        }
    }

    /// The node with `key`, `ichd` on side `dir`, `ochd` on the other side and
    /// the size that follows from the two.
    pub open spec fn spec_new(key: i32, dir: usize, ichd: TreeNode, ochd: TreeNode) -> TreeNode {
        if dir == LCHD {
            TreeNode::Node {
                key,
                size: (1 + ichd.spec_size() + ochd.spec_size()) as i32,
                left: Rc::new(ichd),
                right: Rc::new(ochd),
            }
        } else {
            TreeNode::Node {
                key,
                size: (1 + ichd.spec_size() + ochd.spec_size()) as i32,
                left: Rc::new(ochd),
                right: Rc::new(ichd),
            }
        }
    }

    /// The node rebuilt with `new_chd` on side `dir`; `Null` stays `Null`.
    pub open spec fn spec_replace_chd(&self, dir: usize, new_chd: TreeNode) -> TreeNode {
        match self {
            TreeNode::Null => TreeNode::Null,
            TreeNode::Node { key, .. } => Self::spec_new(
                *key,
                dir,
                new_chd,
                self.spec_child(flip(dir)),
            ),
        }
    }

    /// The size invariant: every node's size is one more than the sizes of its
    /// two children, and `Null` counts 0.
    pub open spec fn wf(&self) -> bool
        decreases self,
    {
        match self {
            TreeNode::Null => true,
            TreeNode::Node { size, left, right, .. } => {
                &&& left.wf()
                &&& right.wf()
                &&& *size == 1 + left.spec_size() + right.spec_size()
            },
        }
    }

    /// The order invariant: the in-order keys never decrease.
    pub open spec fn ordered(&self) -> bool {
        crate::order::sorted(self@)
    }

    #[verifier::when_used_as_spec(spec_key)]
    pub fn key(&self) -> (k: i32)
        ensures
            k == self.spec_key(),
    {
        match self {
            TreeNode::Null => 0,
            TreeNode::Node { key: k, .. } => *k,
        }
    }

    #[verifier::when_used_as_spec(spec_size)]
    pub fn size(&self) -> (n: i32)
        ensures
            n == self.spec_size(),
    {
        match self {
            TreeNode::Null => 0,
            TreeNode::Node { size: sz, .. } => *sz,
        }
    }

    /// The child on side `dir`, sharing its subtrees with `self`.
    #[verifier::when_used_as_spec(spec_child)]
    pub fn child(&self, dir: usize) -> (c: TreeNode)
        requires
            dir < 2,
        ensures
            c == self.spec_child(dir),
    {
        match self {
            TreeNode::Null => TreeNode::Null,
            TreeNode::Node { left, right, .. } => {
                if dir == LCHD {
                    (**left).clone()
                } else {
                    (**right).clone()
                }
            },
        }
    }

    /// Builds a node around two known children: `ichd` goes to side `dir`,
    /// `ochd` to the other side.
    pub fn new(key: i32, dir: usize, ichd: TreeNode, ochd: TreeNode) -> (node: TreeNode)
        requires
            dir < 2,
            ichd.wf(),
            ochd.wf(),
            1 + ichd.spec_size() + ochd.spec_size() <= i32::MAX,
        ensures
            node == Self::spec_new(key, dir, ichd, ochd),
            node.wf(),
            node.spec_key() == key,
            node.spec_size() == 1 + ichd.spec_size() + ochd.spec_size(),
            node.spec_child(dir) == ichd,
            node.spec_child(flip(dir)) == ochd,
            node@ == if dir == LCHD {
                ichd@.push(key) + ochd@
            } else {
                ochd@.push(key) + ichd@
            },
    {
        proof {
            lemma_size_counts_keys(ochd);
        }
        let size: i32 = 1 + ichd.size() + ochd.size();
        if dir == LCHD {
            TreeNode::Node { key: key, size: size, left: Rc::new(ichd), right: Rc::new(ochd) }
        } else {
            TreeNode::Node { key: key, size: size, left: Rc::new(ochd), right: Rc::new(ichd) }
        }
    }

    /// A copy of `self` whose child on side `dir` is `new_chd`. The key and
    /// the other child are carried over; replacing a child of `Null` gives
    /// `Null`.
    pub fn replace_chd(&self, dir: usize, new_chd: TreeNode) -> (node: TreeNode)
        requires
            dir < 2,
            self.wf(),
            new_chd.wf(),
            self is Node ==> 1 + new_chd.spec_size() + self.spec_child(flip(dir)).spec_size()
                <= i32::MAX,
        ensures
            node == self.spec_replace_chd(dir, new_chd),
            node.wf(),
            self is Null ==> node is Null,
            self is Node ==> {
                &&& node is Node
                &&& node.spec_key() == self.spec_key()
                &&& node.spec_child(dir) == new_chd
                &&& node.spec_child(flip(dir)) == self.spec_child(flip(dir))
                &&& node.spec_size() == 1 + new_chd.spec_size() + self.spec_child(
                    flip(dir),
                ).spec_size()
            },
    {
        match self {
            TreeNode::Null => TreeNode::Null,
            TreeNode::Node { key: k, .. } => {
                proof {
                    lemma_xor_flips(dir);
                }
                TreeNode::new(*k, dir, new_chd, self.child(dir ^ 1))
            },
        }
    }
}

/// Under the size invariant the stored size is the number of keys.
pub proof fn lemma_size_counts_keys(t: TreeNode)
    requires
        t.wf(),
    ensures
        t.spec_size() == t@.len(),
        t is Node <==> t@.len() > 0,
    decreases t,
{
    if t is Node {
        lemma_size_counts_keys(t.left());
        lemma_size_counts_keys(t.right());
    }
}

/// What the size invariant says of one node: both children satisfy it, no
/// size is negative, and a node counts itself and its children.
pub proof fn lemma_wf_unfold(t: TreeNode)
    requires
        t.wf(),
    ensures
        t.left().wf(),
        t.right().wf(),
        0 <= t.left().spec_size(),
        0 <= t.right().spec_size(),
        t.spec_size() == t@.len(),
        t is Null ==> t@ == Seq::<i32>::empty(),
        t is Node ==> {
            &&& t.spec_size() == 1 + t.left().spec_size() + t.right().spec_size()
            &&& t@ == t.left()@.push(t.spec_key()) + t.right()@
        },
{
    lemma_size_counts_keys(t);
    lemma_size_counts_keys(t.left());
}

/// The node that `new` builds, field by field.
pub proof fn lemma_new(key: i32, dir: usize, ichd: TreeNode, ochd: TreeNode)
    requires
        ichd.wf(),
        ochd.wf(),
        1 + ichd.spec_size() + ochd.spec_size() <= i32::MAX,
    ensures
        ({
            let node = TreeNode::spec_new(key, dir, ichd, ochd);
            &&& node is Node
            &&& node.wf()
            &&& node.spec_key() == key
            &&& node.spec_size() == 1 + ichd.spec_size() + ochd.spec_size()
            &&& node.spec_child(dir) == ichd
            &&& node.spec_child(flip(dir)) == ochd
            &&& node@ == if dir == LCHD {
                ichd@.push(key) + ochd@
            } else {
                ochd@.push(key) + ichd@
            }
        }),
{
    lemma_size_counts_keys(ichd);
}

/// The node that `replace_chd` builds, field by field.
pub proof fn lemma_replace_chd(t: TreeNode, dir: usize, new_chd: TreeNode)
    requires
        t.wf(),
        new_chd.wf(),
        t is Node ==> 1 + new_chd.spec_size() + t.spec_child(flip(dir)).spec_size() <= i32::MAX,
    ensures
        ({
            let node = t.spec_replace_chd(dir, new_chd);
            &&& node.wf()
            &&& (t is Null ==> node is Null)
            &&& (t is Node ==> {
                &&& node is Node
                &&& node.spec_key() == t.spec_key()
                &&& node.spec_child(dir) == new_chd
                &&& node.spec_child(flip(dir)) == t.spec_child(flip(dir))
                &&& node.spec_size() == 1 + new_chd.spec_size() + t.spec_child(
                    flip(dir),
                ).spec_size()
            })
        }),
{
    if t is Node {
        lemma_new(t.spec_key(), dir, new_chd, t.spec_child(flip(dir)));
    }
}

impl Clone for TreeNode {
    /// Copies the top node only; both children are shared.
    fn clone(&self) -> (out: Self)
        ensures
            out == *self,
    {
        match self {
            TreeNode::Null => TreeNode::Null,
            TreeNode::Node { key, size, left, right } => TreeNode::Node {
                key: *key,
                size: *size,
                left: share(left),
                right: share(right),
            },
        }
    }
}

} // verus!
