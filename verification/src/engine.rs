//! The splay engine: a descent steered by a predicate, rotating as it goes,
//! followed by the replay of both chains.

use crate::assembly::{chain_keys, lemma_finish, lemma_zig, lemma_zigzig, Splay};
use crate::descent::{land, Descent};
use crate::node::{lemma_wf_unfold, TreeNode, LCHD, RCHD};
use vstd::prelude::*;

verus! {

/// The working state in which the descent from `s` steered by `p` ends,
/// and the predicate as the descent leaves it.
///
/// The predicate is asked at the root. Where it stops, or asks for a child
/// that the root lacks, the descent ends with the state as it is. Otherwise
/// it is asked one level deeper. Where it stops there, or asks for a
/// grandchild that is missing, one single rotation ends the descent. Two steps
/// to the same side make a double rotation, two steps to different sides two
/// single rotations, and the descent goes on from the new root.
pub open spec fn descend<P: Descent>(s: Splay, p: P) -> (Splay, P)
    decreases s.tree(),
{
    let once = p.advance(&s.tree());
    match p.decide(&s.tree()) {
        None => (s, once),
        Some(dir1) => {
            let c = s.tree().spec_child(dir1);
            if c is Null {
                (s, once)
            } else {
                let twice = once.advance(&c);
                match once.decide(&c) {
                    None => (s.spec_zig(dir1), twice),
                    Some(dir2) => {
                        if c.spec_child(dir2) is Null {
                            (s.spec_zig(dir1), twice)
                        } else if dir1 == dir2 {
                            descend(s.spec_zigzig(dir1), twice)
                        } else {
                            descend(s.spec_zig(dir1).spec_zig(dir2), twice)
                        }
                    },
                }
            }
        },
    }
}

impl Splay {
    /// The version that a splay pass steered by `p` makes of `self`.
    pub open spec fn spec_splay<P: Descent>(&self, p: P) -> Splay {
        descend(*self, p).0.spec_finish(LCHD).spec_finish(RCHD)
    }

    /// One splay pass. The node at which the descent steered by `pred` ends
    /// becomes the root; no key is added, lost or moved out of order, and
    /// both chains are empty again.
    pub fn splay<P: Descent>(&self, pred: &mut P) -> (r: Splay)
        requires
            self.wf(),
        ensures
            r == self.spec_splay(*old(pred)),
            *final(pred) == descend(*self, *old(pred)).1,
            r.wf(),
            r@ == self@,
            self.ordered() ==> r.ordered(),
            r.tree() is Null <==> self.tree() is Null,
            r.root.left()@.len() == land(self.tree(), *old(pred)),
    {
        let mut ret = self.clone();
        let ghost start = *pred;
        proof {
            lemma_descend(*self, start);
        }
        loop
            invariant_except_break
                ret.inv(),
                descend(ret, *pred) == descend(*self, start),
            ensures
                ret.inv(),
                (ret, *pred) == descend(*self, start),
            decreases ret.root.spec_size(),
        {
            proof {
                lemma_wf_unfold(ret.tree());
                pred.lemma_decide_side(&ret.tree());
            }
            match pred.step(&ret.root) {
                None => {
                    break ;
                },
                Some(dir1) => {
                    let below = ret.root.child(dir1);
                    if matches!(below, TreeNode::Null) {
                        break ;
                    }
                    proof {
                        lemma_wf_unfold(below);
                        pred.lemma_decide_side(&below);
                    }
                    match pred.step(&below) {
                        None => {
                            ret = ret.zig(dir1);
                            break ;
                        },
                        Some(dir2) => {
                            if matches!(below.child(dir2), TreeNode::Null) {
                                ret = ret.zig(dir1);
                                break ;
                            } else if dir1 == dir2 {
                                ret = ret.zigzig(dir1);
                            } else {
                                ret = ret.zig(dir1).zig(dir2);
                            }
                        },
                    }
                },
            }
        }
        ret.finish(LCHD).finish(RCHD)
    }
}

/// How many keys a step to side `dir` from the root of `t` leaves behind on
/// the left: none on a step to the left, the left subtree and the root on a
/// step to the right.
spec fn passed(t: TreeNode, dir: usize) -> nat {
    if dir == LCHD {
        0
    } else {
        t.left()@.len() + 1
    }
}

/// Where a descent ends, one step at a time.
proof fn lemma_land_unfold<P: Descent>(t: TreeNode, p: P)
    ensures
        land(t, p) == match p.decide(&t) {
            None => t.left()@.len(),
            Some(dir) => if t.spec_child(dir) is Null {
                t.left()@.len()
            } else {
                passed(t, dir) + land(t.spec_child(dir), p.advance(&t))
            },
        },
{
}

/// A descent keeps a valid state valid and moves no key. Its root stands, in
/// the whole version, where the descent through the tree alone ends, behind
/// what the right chain held at the start.
pub proof fn lemma_descend<P: Descent>(s: Splay, p: P)
    requires
        s.inv(),
    ensures
        descend(s, p).0.inv(),
        descend(s, p).0@ == s@,
        descend(s, p).0.tree() is Null <==> s.tree() is Null,
        descend(s, p).0.root_index() == chain_keys(s.temp.right(), RCHD).len() + land(
            s.tree(),
            p,
        ),
    decreases s.tree(),
{
    let g = s.tree();
    let base = chain_keys(s.temp.right(), RCHD).len();
    lemma_wf_unfold(g);
    p.lemma_decide_side(&g);
    lemma_land_unfold(g, p);
    let once = p.advance(&g);
    match p.decide(&g) {
        None => {},
        Some(dir1) => {
            let c = g.spec_child(dir1);
            if c is Node {
                lemma_wf_unfold(c);
                once.lemma_decide_side(&c);
                lemma_land_unfold(c, once);
                let twice = once.advance(&c);
                let s1 = s.spec_zig(dir1);
                lemma_zig(s, dir1);
                assert(s1.tree() == c);
                assert(s1.root_index() == base + passed(g, dir1) + c.left()@.len());
                match once.decide(&c) {
                    None => {},
                    Some(dir2) => {
                        let below = c.spec_child(dir2);
                        if below is Node {
                            lemma_wf_unfold(below);
                            if dir1 == dir2 {
                                let s2 = s.spec_zigzig(dir1);
                                lemma_zigzig(s, dir1);
                                assert(s2.tree() == below);
                                assert(s2.root_index() == base + passed(g, dir1) + passed(c, dir2)
                                    + below.left()@.len());
                                lemma_descend(s2, twice);
                            } else {
                                let s2 = s1.spec_zig(dir2);
                                lemma_zig(s1, dir2);
                                assert(s2.tree() == below);
                                assert(s2.root_index() == base + passed(g, dir1) + passed(c, dir2)
                                    + below.left()@.len());
                                lemma_descend(s2, twice);
                            }
                        }
                    },
                }
            }
        },
    }
}

/// A splay pass keeps a tree version valid and moves no key; its root is the
/// node at which the descent ends.
pub proof fn lemma_splay<P: Descent>(s: Splay, p: P)
    requires
        s.wf(),
    ensures
        s.spec_splay(p).wf(),
        s.spec_splay(p)@ == s@,
        s.spec_splay(p).tree() is Null <==> s.tree() is Null,
        s.spec_splay(p).root.left()@.len() == land(s.tree(), p),
        s.spec_splay(p).root_index() == land(s.tree(), p),
{
    lemma_descend(s, p);
    let d = descend(s, p).0;
    lemma_finish(d, LCHD);
    lemma_finish(d.spec_finish(LCHD), RCHD);
}

} // verus!
