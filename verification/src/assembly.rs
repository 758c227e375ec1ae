//! The working state of one splay pass: a tree under descent and the two
//! chains of nodes that the descent has detached from it so far.
//!
//! The chains hang off the two sides of the scratch node `temp`. A chain is a
//! stack linked through one side of its nodes: the node detached last is the
//! head. `zig` and `zigzig` push onto a chain, `finish` replays a chain back
//! into the tree.

use crate::node::{
    flip, lemma_new, lemma_replace_chd, lemma_wf_unfold, lemma_xor_flips, share, TreeNode, LCHD,
    RCHD,
};
use std::rc::Rc;
use vstd::prelude::*;

verus! {

/// A tree version together with the scratch node of the splay engine.
#[derive(Debug, PartialEq, Eq)]
pub struct Splay {
    /// The splay root.
    pub root: Rc<TreeNode>,
    /// The scratch node whose two children head the chains.
    pub temp: Rc<TreeNode>,
}

/// The keys that a chain linked through side `dir` holds, in the order in
/// which they stand in the whole tree. The left chain holds what lies after
/// the tree under descent, the right chain what lies before it.
pub open spec fn chain_keys(head: TreeNode, dir: usize) -> Seq<i32>
    decreases head,
{
    match head {
        TreeNode::Null => Seq::empty(),
        TreeNode::Node { key, left, right, .. } => if dir == LCHD {
            (seq![key] + right@) + chain_keys(*left, dir)
        } else {
            chain_keys(*right, dir) + left@.push(key)
        },
    }
}

/// The subtree that results from putting the chain at `head` back on top of
/// `acc`: each chain node in turn takes what was assembled so far as its
/// child on side `dir`.
pub open spec fn replay(head: TreeNode, dir: usize, acc: TreeNode) -> TreeNode
    decreases head,
{
    match head {
        TreeNode::Null => acc,
        TreeNode::Node { .. } => replay(head.spec_child(dir), dir, head.spec_replace_chd(dir, acc)),
    }
}

impl View for Splay {
    type V = Seq<i32>;

    /// All keys of the version in ascending position: the right chain, the
    /// tree at the root, the left chain.
    open spec fn view(&self) -> Seq<i32> {
        chain_keys(self.temp.right(), RCHD) + self.root@ + chain_keys(self.temp.left(), LCHD)
    }
}

impl Splay {
    /// Validity of a working state: the size invariant holds in the tree and
    /// in the chains, the node count fits the size field, and an empty tree
    /// has empty chains.
    pub open spec fn inv(&self) -> bool {
        &&& self.root.wf()
        &&& *self.temp is Node
        &&& self.temp.wf()
        &&& self.root.spec_size() + self.temp.spec_size() - 1 <= i32::MAX
        &&& (*self.root is Null ==> self.temp.left() is Null && self.temp.right() is Null)
    }

    /// Validity of a tree version: a valid state with both chains empty.
    pub open spec fn wf(&self) -> bool {
        &&& self.inv()
        &&& self.temp.left() is Null
        &&& self.temp.right() is Null
    }

    /// The tree at the root.
    pub open spec fn tree(&self) -> TreeNode {
        *self.root
    }

    /// The scratch node.
    pub open spec fn scratch(&self) -> TreeNode {
        *self.temp
    }

    /// The order invariant: the keys never decrease.
    pub open spec fn ordered(&self) -> bool {
        crate::order::sorted(self@)
    }

    /// The position of the root's key among all keys of the version.
    pub open spec fn root_index(&self) -> int {
        (chain_keys(self.temp.right(), RCHD).len() + self.root.left()@.len()) as int
    }

    /// The state after a single rotation to side `dir`.
    pub open spec fn spec_zig(&self, dir: usize) -> Splay {
        Splay {
            root: Rc::new(self.root.spec_child(dir)),
            temp: Rc::new(
                self.temp.spec_replace_chd(
                    dir,
                    self.root.spec_replace_chd(dir, self.temp.spec_child(dir)),
                ),
            ),
        }
    }

    /// The state after a double rotation to side `dir`.
    pub open spec fn spec_zigzig(&self, dir: usize) -> Splay {
        let middle = self.root.spec_child(dir);
        Splay {
            root: Rc::new(middle.spec_child(dir)),
            temp: Rc::new(
                self.temp.spec_replace_chd(
                    dir,
                    TreeNode::spec_new(
                        middle.spec_key(),
                        dir,
                        self.temp.spec_child(dir),
                        self.root.spec_replace_chd(dir, middle.spec_child(flip(dir))),
                    ),
                ),
            ),
        }
    }

    /// The state after the chain on side `dir` has been replayed.
    pub open spec fn spec_finish(&self, dir: usize) -> Splay {
        Splay {
            root: Rc::new(
                self.root.spec_replace_chd(
                    flip(dir),
                    replay(self.temp.spec_child(dir), dir, self.root.spec_child(flip(dir))),
                ),
            ),
            temp: Rc::new(self.temp.spec_replace_chd(dir, TreeNode::Null)),
        }
    }

    /// Single rotation: the root's child on side `dir` becomes the root. The
    /// old root keeps its other child, takes the head of the `dir` chain as
    /// its child on side `dir`, and becomes the new head of that chain.
    #[verifier::when_used_as_spec(spec_zig)]
    pub fn zig(&self, dir: usize) -> (r: Splay)
        requires
            self.inv(),
            dir < 2,
            self.root.spec_child(dir) is Node,
        ensures
            r == self.spec_zig(dir),
            r.inv(),
            r@ == self@,
            r.tree() == self.root.spec_child(dir),
            r.temp.spec_child(flip(dir)) == self.temp.spec_child(flip(dir)),
    {
        proof {
            lemma_zig(*self, dir);
            lemma_wf_unfold(self.tree());
            lemma_wf_unfold(self.temp.spec_child(flip(dir)));
        }
        Splay {
            root: Rc::new(self.root.child(dir)),
            temp: Rc::new(
                self.temp.replace_chd(dir, self.root.replace_chd(dir, self.temp.child(dir))),
            ),
        }
    }

    /// Double rotation for two steps to the same side: the root's grandchild
    /// on side `dir` becomes the root. The chain on side `dir` gets one new
    /// head: a node with the middle node's key, whose child on side `dir` is
    /// the former head and whose other child is the old root with the middle
    /// node's other child in place of the middle node.
    #[verifier::when_used_as_spec(spec_zigzig)]
    pub fn zigzig(&self, dir: usize) -> (r: Splay)
        requires
            self.inv(),
            dir < 2,
            self.root.spec_child(dir).spec_child(dir) is Node,
        ensures
            r == self.spec_zigzig(dir),
            r.inv(),
            r@ == self@,
            r.tree() == self.root.spec_child(dir).spec_child(dir),
            r.temp.spec_child(flip(dir)) == self.temp.spec_child(flip(dir)),
    {
        proof {
            lemma_zigzig(*self, dir);
            lemma_xor_flips(dir);
            let middle = self.root.spec_child(dir);
            lemma_wf_unfold(middle);
            lemma_wf_unfold(self.temp.spec_child(flip(dir)));
        }
        let middle = self.root.child(dir);
        Splay {
            root: Rc::new(middle.child(dir)),
            temp: Rc::new(
                self.temp.replace_chd(
                    dir,
                    TreeNode::new(
                        middle.key(),
                        dir,
                        self.temp.child(dir),
                        self.root.replace_chd(dir, middle.child(dir ^ 1)),
                    ),
                ),
            ),
        }
    }

    /// Replays the chain on side `dir`: its nodes are put back, head first,
    /// each taking what was assembled so far as its child on side `dir`,
    /// starting from the root's child on the other side. The result becomes
    /// the root's child on that other side, and the chain is left empty.
    #[verifier::when_used_as_spec(spec_finish)]
    pub fn finish(&self, dir: usize) -> (r: Splay)
        requires
            self.inv(),
            dir < 2,
        ensures
            r == self.spec_finish(dir),
            r.inv(),
            r@ == self@,
            r.temp.spec_child(dir) is Null,
            r.temp.spec_child(flip(dir)) == self.temp.spec_child(flip(dir)),
            r.root_index() == self.root_index(),
    {
        proof {
            lemma_finish(*self, dir);
            lemma_xor_flips(dir);
            lemma_wf_unfold(self.tree());
            lemma_wf_unfold(self.temp.spec_child(flip(dir)));
        }
        // The front node of the chain.
        let mut head = self.temp.child(dir);
        // What the front node takes as its child when it is put back.
        let mut child = self.root.child(1 ^ dir);
        while matches!(head, TreeNode::Node { .. })
            invariant
                dir < 2,
                head.wf(),
                child.wf(),
                head.spec_size() + child.spec_size() == self.temp.spec_child(dir).spec_size()
                    + self.root.spec_child(flip(dir)).spec_size(),
                head.spec_size() + child.spec_size() <= i32::MAX,
                replay(head, dir, child) == replay(
                    self.temp.spec_child(dir),
                    dir,
                    self.root.spec_child(flip(dir)),
                ),
            decreases head,
        {
            proof {
                lemma_wf_unfold(head);
            }
            child = head.replace_chd(dir, child);
            head = head.child(dir);
        }
        Splay {
            root: Rc::new(self.root.replace_chd(1 ^ dir, child)),
            temp: Rc::new(self.temp.replace_chd(dir, TreeNode::Null)),
        }
    }
}

impl Clone for Splay {
    /// A second handle on the same version: the nodes are shared.
    fn clone(&self) -> (out: Self)
        ensures
            out == *self,
    {
        Splay { root: share(&self.root), temp: share(&self.temp) }
    }
}

/// The keys of a chain whose head is known: the head's own keys, then (on
/// the left chain) or after (on the right chain) the rest of the chain.
pub proof fn lemma_chain_unfold(head: TreeNode, dir: usize)
    requires
        head is Node,
    ensures
        chain_keys(head, dir) == if dir == LCHD {
            (seq![head.spec_key()] + head.right()@) + chain_keys(head.left(), dir)
        } else {
            chain_keys(head.right(), dir) + head.left()@.push(head.spec_key())
        },
{
}

/// The state after a single rotation, part by part.
proof fn lemma_zig_shape(s: Splay, dir: usize)
    requires
        s.inv(),
        dir < 2,
        s.root.spec_child(dir) is Node,
    ensures
        ({
            let r = s.spec_zig(dir);
            let head = r.temp.spec_child(dir);
            &&& r.inv()
            &&& r.tree() == s.root.spec_child(dir)
            &&& r.temp.spec_child(flip(dir)) == s.temp.spec_child(flip(dir))
            &&& head is Node
            &&& head.wf()
            &&& head.spec_key() == s.root.spec_key()
            &&& head.spec_child(dir) == s.temp.spec_child(dir)
            &&& head.spec_child(flip(dir)) == s.root.spec_child(flip(dir))
        }),
{
    let g = s.tree();
    let t = *s.temp;
    let cd = t.spec_child(dir);
    lemma_wf_unfold(t);
    lemma_wf_unfold(g.spec_child(dir));
    lemma_replace_chd(g, dir, cd);
}

/// A single rotation keeps a valid state valid and moves no key.
pub proof fn lemma_zig(s: Splay, dir: usize)
    requires
        s.inv(),
        dir < 2,
        s.root.spec_child(dir) is Node,
    ensures
        s.spec_zig(dir).inv(),
        s.spec_zig(dir)@ == s@,
        s.spec_zig(dir).tree() == s.root.spec_child(dir),
        s.spec_zig(dir).temp.spec_child(flip(dir)) == s.temp.spec_child(flip(dir)),
        s.spec_zig(dir).root_index() == s.root_index() + if dir == LCHD {
            s.root.left().left()@.len() - s.root.left()@.len()
        } else {
            (1 + s.root.right().left()@.len()) as int
        },
{
    lemma_zig_shape(s, dir);
    let r = s.spec_zig(dir);
    let g = s.tree();
    let head = r.temp.spec_child(dir);
    lemma_wf_unfold(g);
    lemma_chain_unfold(head, dir);
    let gk = g.spec_key();
    if dir == LCHD {
        let before = chain_keys(s.temp.right(), RCHD);
        let after = chain_keys(s.temp.left(), LCHD);
        let p = g.left()@;
        let o = g.right()@;
        assert(s@ == before + (p.push(gk) + o) + after);
        assert(r@ == before + p + ((seq![gk] + o) + after));
        assert(before + (p.push(gk) + o) + after =~= before + p + ((seq![gk] + o) + after));
    } else {
        let before = chain_keys(s.temp.right(), RCHD);
        let after = chain_keys(s.temp.left(), LCHD);
        let p = g.right()@;
        let o = g.left()@;
        assert(s@ == before + (o.push(gk) + p) + after);
        assert(r@ == (before + o.push(gk)) + p + after);
        assert(before + (o.push(gk) + p) + after =~= (before + o.push(gk)) + p + after);
    }
}

/// The state after a double rotation, part by part.
proof fn lemma_zigzig_shape(s: Splay, dir: usize)
    requires
        s.inv(),
        dir < 2,
        s.root.spec_child(dir).spec_child(dir) is Node,
    ensures
        ({
            let r = s.spec_zigzig(dir);
            let middle = s.root.spec_child(dir);
            let head = r.temp.spec_child(dir);
            let lowered = head.spec_child(flip(dir));
            &&& r.inv()
            &&& r.tree() == middle.spec_child(dir)
            &&& r.temp.spec_child(flip(dir)) == s.temp.spec_child(flip(dir))
            &&& head is Node
            &&& head.wf()
            &&& head.spec_key() == middle.spec_key()
            &&& head.spec_child(dir) == s.temp.spec_child(dir)
            &&& lowered is Node
            &&& lowered.wf()
            &&& lowered.spec_key() == s.root.spec_key()
            &&& lowered.spec_child(dir) == middle.spec_child(flip(dir))
            &&& lowered.spec_child(flip(dir)) == s.root.spec_child(flip(dir))
        }),
{
    let g = s.tree();
    let t = *s.temp;
    let m = g.spec_child(dir);
    let mo = m.spec_child(flip(dir));
    let cd = t.spec_child(dir);
    lemma_wf_unfold(g);
    lemma_wf_unfold(t);
    lemma_wf_unfold(m.spec_child(dir));
    let lowered = g.spec_replace_chd(dir, mo);
    lemma_new(m.spec_key(), dir, cd, lowered);
}

/// A double rotation keeps a valid state valid and moves no key.
pub proof fn lemma_zigzig(s: Splay, dir: usize)
    requires
        s.inv(),
        dir < 2,
        s.root.spec_child(dir).spec_child(dir) is Node,
    ensures
        s.spec_zigzig(dir).inv(),
        s.spec_zigzig(dir)@ == s@,
        s.spec_zigzig(dir).tree() == s.root.spec_child(dir).spec_child(dir),
        s.spec_zigzig(dir).temp.spec_child(flip(dir)) == s.temp.spec_child(flip(dir)),
        s.spec_zigzig(dir).root_index() == s.root_index() + if dir == LCHD {
            s.root.left().left().left()@.len() - s.root.left()@.len()
        } else {
            (2 + s.root.right().left()@.len() + s.root.right().right().left()@.len()) as int
        },
{
    lemma_zigzig_shape(s, dir);
    let r = s.spec_zigzig(dir);
    let g = s.tree();
    let m = g.spec_child(dir);
    let head = r.temp.spec_child(dir);
    let lowered = head.spec_child(flip(dir));
    lemma_wf_unfold(g);
    lemma_wf_unfold(m);
    lemma_wf_unfold(lowered);
    lemma_chain_unfold(head, dir);
    let gk = g.spec_key();
    let mk = m.spec_key();
    let before = chain_keys(s.temp.right(), RCHD);
    let after = chain_keys(s.temp.left(), LCHD);
    if dir == LCHD {
        let p = m.left()@;
        let mo = m.right()@;
        let o = g.right()@;
        assert(s@ == before + ((p.push(mk) + mo).push(gk) + o) + after);
        assert(r@ == before + p + ((seq![mk] + (mo.push(gk) + o)) + after));
        assert(before + ((p.push(mk) + mo).push(gk) + o) + after =~= before + p + ((seq![mk] + (
        mo.push(gk) + o)) + after));
    } else {
        let p = m.right()@;
        let mo = m.left()@;
        let o = g.left()@;
        assert(s@ == before + (o.push(gk) + (mo.push(mk) + p)) + after);
        assert(r@ == (before + (o.push(gk) + mo).push(mk)) + p + after);
        assert(before + (o.push(gk) + (mo.push(mk) + p)) + after =~= (before + (o.push(gk)
            + mo).push(mk)) + p + after);
    }
}

/// Replaying a chain onto `acc` keeps the size invariant and puts the chain's
/// keys beside those of `acc`, on the side that the chain stands for.
pub proof fn lemma_replay(head: TreeNode, dir: usize, acc: TreeNode)
    requires
        dir < 2,
        head.wf(),
        acc.wf(),
        head.spec_size() + acc.spec_size() <= i32::MAX,
    ensures
        replay(head, dir, acc).wf(),
        replay(head, dir, acc).spec_size() == head.spec_size() + acc.spec_size(),
        replay(head, dir, acc)@ == if dir == LCHD {
            acc@ + chain_keys(head, dir)
        } else {
            chain_keys(head, dir) + acc@
        },
    decreases head,
{
    if head is Node {
        lemma_wf_unfold(head);
        lemma_wf_unfold(acc);
        let next = head.spec_child(dir);
        let put = head.spec_replace_chd(dir, acc);
        lemma_wf_unfold(next);
        lemma_replace_chd(head, dir, acc);
        lemma_wf_unfold(put);
        lemma_replay(next, dir, put);
        lemma_chain_unfold(head, dir);
        if dir == LCHD {
            assert(put.left() == acc);
            assert(put.right() == head.right());
            assert(put@ + chain_keys(next, dir) =~= acc@ + chain_keys(head, dir));
        } else {
            assert(put.right() == acc);
            assert(put.left() == head.left());
            assert(chain_keys(next, dir) + put@ =~= chain_keys(head, dir) + acc@);
        }
    } else {
        assert(acc@ + chain_keys(head, dir) =~= acc@);
        assert(chain_keys(head, dir) + acc@ =~= acc@);
    }
}

/// The state after replaying one chain, part by part.
proof fn lemma_finish_shape(s: Splay, dir: usize)
    requires
        s.inv(),
        dir < 2,
    ensures
        ({
            let r = s.spec_finish(dir);
            let grown = replay(s.temp.spec_child(dir), dir, s.root.spec_child(flip(dir)));
            &&& r.inv()
            &&& r.temp.spec_child(dir) is Null
            &&& r.temp.spec_child(flip(dir)) == s.temp.spec_child(flip(dir))
            &&& grown@ == if dir == LCHD {
                s.root.spec_child(flip(dir))@ + chain_keys(s.temp.spec_child(dir), dir)
            } else {
                chain_keys(s.temp.spec_child(dir), dir) + s.root.spec_child(flip(dir))@
            }
            &&& (s.tree() is Null ==> r.tree() is Null)
            &&& (s.tree() is Node ==> {
                &&& r.tree() is Node
                &&& r.root.spec_key() == s.root.spec_key()
                &&& r.root.spec_child(dir) == s.root.spec_child(dir)
                &&& r.root.spec_child(flip(dir)) == grown
            })
        }),
{
    let g = s.tree();
    let t = *s.temp;
    let head = t.spec_child(dir);
    let acc = g.spec_child(flip(dir));
    lemma_wf_unfold(g);
    lemma_wf_unfold(t);
    lemma_replay(head, dir, acc);
    lemma_replace_chd(t, dir, TreeNode::Null);
}

/// Replaying one chain keeps a valid state valid, moves no key, empties that
/// chain and leaves the other chain and the root's position alone.
pub proof fn lemma_finish(s: Splay, dir: usize)
    requires
        s.inv(),
        dir < 2,
    ensures
        s.spec_finish(dir).inv(),
        s.spec_finish(dir)@ == s@,
        s.spec_finish(dir).temp.spec_child(dir) is Null,
        s.spec_finish(dir).temp.spec_child(flip(dir)) == s.temp.spec_child(flip(dir)),
        s.spec_finish(dir).root_index() == s.root_index(),
        s.spec_finish(dir).root.spec_key() == s.root.spec_key(),
        s.tree() is Null <==> s.spec_finish(dir).tree() is Null,
{
    lemma_finish_shape(s, dir);
    let r = s.spec_finish(dir);
    let g = s.tree();
    lemma_wf_unfold(g);
    lemma_wf_unfold(r.tree());
    if g is Node {
        let gk = g.spec_key();
        let before = chain_keys(s.temp.right(), RCHD);
        let after = chain_keys(s.temp.left(), LCHD);
        let none = Seq::<i32>::empty();
        if dir == LCHD {
            assert(chain_keys(r.temp.left(), LCHD) == none);
            assert(s@ == before + (g.left()@.push(gk) + g.right()@) + after);
            assert(r@ == before + (g.left()@.push(gk) + (g.right()@ + after)) + none);
            assert(before + (g.left()@.push(gk) + g.right()@) + after =~= before + (g.left()@.push(gk)
                + (g.right()@ + after)) + none);
        } else {
            assert(chain_keys(r.temp.right(), RCHD) == none);
            assert(s@ == before + (g.left()@.push(gk) + g.right()@) + after);
            assert(r@ == none + ((before + g.left()@).push(gk) + g.right()@) + after);
            assert(before + (g.left()@.push(gk) + g.right()@) + after =~= none + ((before
                + g.left()@).push(gk) + g.right()@) + after);
        }
    } else {
        assert(r@ =~= s@);
    }
}

} // verus!
