//! Descent predicates: what steers a splay pass down the tree.
//!
//! A predicate is asked once at each node on the way down. It answers with
//! the side to go on to, or with `None` to stop at that node, and may change
//! with each answer.

use crate::node::{lemma_wf_unfold, TreeNode, LCHD, RCHD};
use crate::order::{
    clamp_index, count_below, lemma_count_below_concat, lemma_count_below_range,
    lemma_sorted_split,
};
use vstd::prelude::*;

verus! {

pub trait Descent: Sized {
    /// The answer at `node`: `None` to stop there, or the side to go on to.
    spec fn decide(&self, node: &TreeNode) -> Option<usize>;

    /// The predicate after it has answered at `node`.
    spec fn advance(&self, node: &TreeNode) -> Self;

    /// An answer names one of the two sides.
    proof fn lemma_decide_side(&self, node: &TreeNode)
        ensures
            self.decide(node) matches Some(dir) ==> dir < 2,
    ;

    /// Answers at `node` and moves on.
    fn step(&mut self, node: &TreeNode) -> (answer: Option<usize>)
        requires
            node.wf(),
        ensures
            answer == old(self).decide(node),
            *final(self) == old(self).advance(node),
    ;
}

/// The index, among the keys of `t`, of the node at which a descent from the
/// root of `t` steered by `p` ends: at the node where `p` stops, or at the
/// node that lacks the child that `p` asks for.
pub open spec fn land<P: Descent>(t: TreeNode, p: P) -> nat
    decreases t,
{
    match p.decide(&t) {
        None => t.left()@.len(),
        Some(dir) => {
            let c = t.spec_child(dir);
            if c is Null {
                t.left()@.len()
            } else if dir == LCHD {
                land(c, p.advance(&t))
            } else {
                t.left()@.len() + 1 + land(c, p.advance(&t))
            }
        },
    }
}

/// Steers to the node of a given in-order rank, counted from 0 within the
/// tree that is still to be searched.
#[derive(Debug, PartialEq, Eq)]
pub struct RankProbe {
    pub k: i32,
}

impl Descent for RankProbe {
    /// Stops where the left subtree holds exactly `k` keys; goes left where
    /// it holds more, right where it holds fewer.
    open spec fn decide(&self, node: &TreeNode) -> Option<usize> {
        let pos = node.left().spec_size();
        if self.k == pos {
            None
        } else if self.k < pos {
            Some(LCHD)
        } else {
            Some(RCHD)
        }
    }

    /// Going right skips the left subtree and the node itself.
    open spec fn advance(&self, node: &TreeNode) -> Self {
        let pos = node.left().spec_size();
        if self.k > pos {
            RankProbe { k: (self.k - (pos + 1)) as i32 }
        } else {
            *self
        }
    }

    proof fn lemma_decide_side(&self, node: &TreeNode) {
    }

    fn step(&mut self, node: &TreeNode) -> (answer: Option<usize>) {
        proof {
            lemma_wf_unfold(*node);
        }
        let pos: i32 = node.child(LCHD).size();
        if self.k == pos {
            None
        } else if self.k < pos {
            Some(LCHD)
        } else {
            self.k -= pos + 1;
            Some(RCHD)
        }
    }
}

/// Steers towards the first key that is at least `x`: left where the node's
/// key is at least `x`, right otherwise. It never stops by itself.
#[derive(Debug, PartialEq, Eq)]
pub struct KeyProbe {
    pub x: i32,
}

impl Descent for KeyProbe {
    open spec fn decide(&self, node: &TreeNode) -> Option<usize> {
        if self.x <= node.spec_key() {
            Some(LCHD)
        } else {
            Some(RCHD)
        }
    }

    open spec fn advance(&self, node: &TreeNode) -> Self {
        *self
    }

    proof fn lemma_decide_side(&self, node: &TreeNode) {
    }

    fn step(&mut self, node: &TreeNode) -> (answer: Option<usize>) {
        if self.x <= node.key() {
            Some(LCHD)
        } else {
            Some(RCHD)
        }
    }
}

/// A descent by rank ends at the node of that rank; a rank that the tree
/// does not have ends it at the first or at the last node.
pub proof fn lemma_land_by_rank(t: TreeNode, k: i32)
    requires
        t.wf(),
    ensures
        land(t, (RankProbe { k })) == clamp_index(k as int, t@.len()),
    decreases t,
{
    lemma_wf_unfold(t);
    if t is Node {
        let p = RankProbe { k };
        lemma_wf_unfold(t.left());
        lemma_wf_unfold(t.right());
        match p.decide(&t) {
            None => {},
            Some(dir) => {
                let c = t.spec_child(dir);
                if c is Node {
                    lemma_land_by_rank(c, p.advance(&t).k);
                }
            },
        }
    }
}

/// A descent by key through a sorted tree ends at the first key that is at
/// least `x` or at the key just before it.
pub proof fn lemma_land_by_key(t: TreeNode, x: i32)
    requires
        t.wf(),
        t.ordered(),
        t is Node,
    ensures
        land(t, (KeyProbe { x })) < t@.len(),
        t@[land(t, (KeyProbe { x })) as int] >= x ==> count_below(t@, x as int) == land(
            t,
            (KeyProbe { x }),
        ),
        t@[land(t, (KeyProbe { x })) as int] < x ==> count_below(t@, x as int) == land(
            t,
            (KeyProbe { x }),
        ) + 1,
    decreases t,
{
    let p = KeyProbe { x };
    let l = t.left();
    let r = t.right();
    let k = t.spec_key();
    lemma_wf_unfold(t);
    lemma_wf_unfold(l);
    lemma_wf_unfold(r);
    lemma_sorted_split(l@, k, r@);
    let low = l@.push(k);
    let high = seq![k] + r@;
    assert(t@ =~= l@ + high);
    assert(t@ == low + r@);
    lemma_count_below_concat(l@, high, x as int);
    lemma_count_below_concat(low, r@, x as int);
    lemma_count_below_range(low, x as int);
    lemma_count_below_range(high, x as int);
    lemma_count_below_range(l@, x as int);
    lemma_count_below_range(r@, x as int);
    if x <= k {
        assert(forall|i: int| 0 <= i < high.len() ==> high[i] >= x);
        if l is Node {
            lemma_land_by_key(l, x);
            assert(t@[land(l, p) as int] == l@[land(l, p) as int]);
        }
    } else {
        assert(forall|i: int| 0 <= i < low.len() ==> low[i] < x);
        if r is Node {
            lemma_land_by_key(r, x);
            assert(t@[(low.len() + land(r, p)) as int] == r@[land(r, p) as int]);
        }
    }
}

} // verus!
