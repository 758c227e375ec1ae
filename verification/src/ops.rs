//! The order-statistic operations. Each takes a tree version and returns a
//! new one; the version it was given stays as it was.

use crate::assembly::Splay;
use crate::descent::{land, lemma_land_by_key, lemma_land_by_rank, KeyProbe, RankProbe};
use crate::engine::lemma_splay;
use crate::node::{lemma_new, lemma_replace_chd, lemma_wf_unfold, TreeNode, LCHD, RCHD};
use crate::order::{
    clamp_index, count_below, landing, lemma_count_below_parts, lemma_insert_keeps_sorted,
    lemma_remove_keeps_sorted,
};
use std::rc::Rc;
use vstd::prelude::*;

verus! {

impl Splay {
    /// The version that `select` makes: a splay pass steered by rank.
    pub open spec fn spec_select(&self, k: i32) -> Splay {
        self.spec_splay(RankProbe { k })
    }

    /// The version that `lowerbound` makes: a splay pass steered by key and,
    /// where that pass ends on a key below `x`, a second pass that brings up
    /// the key after it.
    pub open spec fn spec_lowerbound(&self, x: i32) -> Splay {
        let ret = self.spec_splay(KeyProbe { x });
        if x > ret.root.spec_key() && ret.tree() is Node {
            ret.spec_select((ret.root.left().spec_size() + 1) as i32)
        } else {
            ret
        }
    }

    /// The version that `insert` makes: a new root with key `x` above the
    /// two parts into which `lowerbound` has split the keys.
    pub open spec fn spec_insert(&self, x: i32) -> Splay {
        let origin = self.spec_lowerbound(x);
        Splay {
            temp: origin.temp,
            root: Rc::new(
                if origin.root.spec_key() >= x {
                    TreeNode::spec_new(
                        x,
                        LCHD,
                        origin.root.left(),
                        origin.root.spec_replace_chd(LCHD, TreeNode::Null),
                    )
                } else {
                    TreeNode::spec_new(x, LCHD, origin.tree(), TreeNode::Null)
                },
            ),
        }
    }

    /// The version that `remove` makes: the root that `lowerbound` has
    /// brought up is dropped, and its left subtree goes under the first node
    /// of its right subtree.
    pub open spec fn spec_remove(&self, x: i32) -> Splay {
        let origin = self.spec_lowerbound(x);
        if origin.root.right() is Null {
            Splay { temp: origin.temp, root: Rc::new(origin.root.left()) }
        } else {
            let sub = Splay { temp: origin.temp, root: Rc::new(origin.root.right()) }.spec_select(
                0,
            );
            Splay {
                temp: sub.temp,
                root: Rc::new(sub.root.spec_replace_chd(LCHD, origin.root.left())),
            }
        }
    }

    /// The key that `at` returns.
    pub open spec fn spec_at(&self, k: i32) -> i32 {
        self.spec_select(k).root.spec_key()
    }

    /// The rank that `rank` returns.
    pub open spec fn spec_rank(&self, x: i32) -> int {
        self.spec_lowerbound(x).root.left().spec_size() + 1
    }

    /// Splays the node of in-order rank `k`, counted from 0, to the root. A
    /// rank below 0 brings up the first key, a rank past the end the last.
    #[verifier::when_used_as_spec(spec_select)]
    pub fn select(&self, k: i32) -> (r: Splay)
        requires
            self.wf(),
        ensures
            r == self.spec_select(k),
            r.wf(),
            r@ == self@,
            self.ordered() ==> r.ordered(),
            r.tree() is Null <==> self@.len() == 0,
            r.root_index() == clamp_index(k as int, self@.len()),
            self@.len() > 0 ==> {
                let i = clamp_index(k as int, self@.len());
                &&& r.root.spec_key() == self@[i]
                &&& r.root.left()@ == self@.take(i)
                &&& r.root.right()@ == self@.skip(i + 1)
            },
    {
        proof {
            lemma_select(*self, k);
        }
        let mut pred = RankProbe { k };
        self.splay(&mut pred)
    }

    /// Splays to the root the first key that is at least `x`; where every
    /// key is below `x`, the last key.
    #[verifier::when_used_as_spec(spec_lowerbound)]
    pub fn lowerbound(&self, x: i32) -> (r: Splay)
        requires
            self.wf(),
            self.ordered(),
        ensures
            r == self.spec_lowerbound(x),
            r.wf(),
            r.ordered(),
            r@ == self@,
            r.tree() is Null <==> self@.len() == 0,
            r.root_index() == landing(self@, x as int),
            self@.len() > 0 ==> {
                let i = landing(self@, x as int);
                &&& r.root.spec_key() == self@[i]
                &&& r.root.left()@ == self@.take(i)
                &&& r.root.right()@ == self@.skip(i + 1)
            },
    {
        proof {
            lemma_lowerbound(*self, x);
        }
        let mut pred = KeyProbe { x };
        let ret = self.splay(&mut pred);
        proof {
            lemma_root(ret);
        }
        if x > ret.root.key() && matches!(*ret.root, TreeNode::Node { .. }) {
            ret.select(ret.root.child(LCHD).size() + 1)
        } else {
            ret
        }
    }

    /// The version with one more key `x`, placed before the first key that
    /// is at least `x`. The new node is the root.
    #[verifier::when_used_as_spec(spec_insert)]
    pub fn insert(&self, x: i32) -> (r: Splay)
        requires
            self.wf(),
            self.ordered(),
            self@.len() < i32::MAX,
        ensures
            r == self.spec_insert(x),
            r.wf(),
            r.ordered(),
            r@ == self@.insert(count_below(self@, x as int) as int, x),
            r.root_index() == count_below(self@, x as int),
            r.root.spec_key() == x,
    {
        proof {
            lemma_insert(*self, x);
        }
        let origin = self.lowerbound(x);
        proof {
            lemma_wf_unfold(origin.root.right());
        }
        let ret = Splay {
            temp: origin.temp,
            root: if origin.root.key() >= x {
                Rc::new(
                    TreeNode::new(
                        x,
                        LCHD,
                        origin.root.child(LCHD),
                        origin.root.replace_chd(LCHD, TreeNode::Null),
                    ),
                )
            } else {
                Rc::new(TreeNode::new(x, LCHD, (*origin.root).clone(), TreeNode::Null))
            },
        };
        ret
    }

    /// The version without the key on which a search for `x` lands: the
    /// first key that is at least `x`, or the last key where every key is
    /// below `x`. An empty version stays empty.
    #[verifier::when_used_as_spec(spec_remove)]
    pub fn remove(&self, x: i32) -> (r: Splay)
        requires
            self.wf(),
            self.ordered(),
        ensures
            r == self.spec_remove(x),
            r.wf(),
            r.ordered(),
            r@ == if self@.len() == 0 {
                self@
            } else {
                self@.remove(landing(self@, x as int))
            },
    {
        proof {
            lemma_remove(*self, x);
        }
        let origin = self.lowerbound(x);
        if matches!(origin.root.child(RCHD), TreeNode::Null) {
            return Splay { temp: origin.temp, root: Rc::new(origin.root.child(LCHD)) }
        } else {
            let sub = Splay { temp: origin.temp, root: Rc::new(origin.root.child(RCHD)) }.select(0);
            return Splay {
                temp: sub.temp,
                root: Rc::new(sub.root.replace_chd(LCHD, origin.root.child(LCHD))),
            }
        }
    }

    /// The key of in-order rank `k`, counted from 0; 0 in an empty version.
    /// The version is replaced by the one that `select` makes of it.
    pub fn at(&mut self, k: i32) -> (key: i32)
        requires
            old(self).wf(),
        ensures
            *final(self) == old(self).spec_select(k),
            final(self).wf(),
            final(self)@ == old(self)@,
            old(self).ordered() ==> final(self).ordered(),
            key == old(self).spec_at(k),
            key == if old(self)@.len() == 0 {
                0
            } else {
                old(self)@[clamp_index(k as int, old(self)@.len())]
            },
    {
        *self = self.select(k);
        self.root.key()
    }

    /// One more than the number of keys before the key on which a search for
    /// `x` lands. The version is replaced by the one that `lowerbound` makes
    /// of it.
    pub fn rank(&mut self, x: i32) -> (n: i32)
        requires
            old(self).wf(),
            old(self).ordered(),
        ensures
            *final(self) == old(self).spec_lowerbound(x),
            final(self).wf(),
            final(self).ordered(),
            final(self)@ == old(self)@,
            n == old(self).spec_rank(x),
            n == landing(old(self)@, x as int) + 1,
    {
        *self = self.lowerbound(x);
        proof {
            lemma_root(*self);
        }
        self.root.child(LCHD).size() + 1
    }

    /// The empty version.
    pub fn new() -> (r: Splay)
        ensures
            r.wf(),
            r.ordered(),
            r@ == Seq::<i32>::empty(),
            r.tree() is Null,
            *r.temp == TreeNode::spec_new(0, 0, TreeNode::Null, TreeNode::Null),
    {
        let r = Splay {
            root: Rc::new(TreeNode::Null),
            temp: Rc::new(TreeNode::new(0, 0, TreeNode::Null, TreeNode::Null)),
        };
        r
    }
}

/// In a tree version the keys are those of the tree at the root, and the
/// root parts them: its left subtree holds the keys before the root's key,
/// its right subtree those after it.
pub proof fn lemma_root(s: Splay)
    requires
        s.wf(),
    ensures
        s@ == s.tree()@,
        s.root_index() == s.root.left()@.len(),
        s.root.left().spec_size() == s.root_index(),
        s.root.left().wf(),
        s.root.right().wf(),
        s.root.spec_size() == s@.len(),
        s.tree() is Null <==> s@.len() == 0,
        s.tree() is Node ==> {
            &&& 0 <= s.root_index() < s@.len()
            &&& s@[s.root_index()] == s.root.spec_key()
            &&& s.root.left()@ == s@.take(s.root_index())
            &&& s.root.right()@ == s@.skip(s.root_index() + 1)
        },
{
    let g = s.tree();
    lemma_wf_unfold(g);
    lemma_wf_unfold(g.left());
    lemma_wf_unfold(g.right());
    assert(s@ =~= g@);
    if g is Node {
        assert(g.left()@ =~= g@.take(s.root_index()));
        assert(g.right()@ =~= g@.skip(s.root_index() + 1));
    }
}

/// `select` keeps the keys and brings the key of rank `k` to the root.
pub proof fn lemma_select(s: Splay, k: i32)
    requires
        s.wf(),
    ensures
        s.spec_select(k).wf(),
        s.spec_select(k)@ == s@,
        s.spec_select(k).tree() is Null <==> s@.len() == 0,
        s.spec_select(k).root_index() == clamp_index(k as int, s@.len()),
        s@.len() > 0 ==> {
            let i = clamp_index(k as int, s@.len());
            &&& s.spec_select(k).root.spec_key() == s@[i]
            &&& s.spec_select(k).root.left()@ == s@.take(i)
            &&& s.spec_select(k).root.right()@ == s@.skip(i + 1)
        },
{
    lemma_splay(s, RankProbe { k });
    lemma_root(s);
    lemma_land_by_rank(s.tree(), k);
    lemma_root(s.spec_select(k));
}

/// `lowerbound` keeps the keys and brings to the root the key on which the
/// search for `x` lands.
pub proof fn lemma_lowerbound(s: Splay, x: i32)
    requires
        s.wf(),
        s.ordered(),
    ensures
        s.spec_lowerbound(x).wf(),
        s.spec_lowerbound(x)@ == s@,
        s.spec_lowerbound(x).tree() is Null <==> s@.len() == 0,
        s.spec_lowerbound(x).root_index() == landing(s@, x as int),
        s@.len() > 0 ==> {
            let i = landing(s@, x as int);
            &&& s.spec_lowerbound(x).root.spec_key() == s@[i]
            &&& s.spec_lowerbound(x).root.left()@ == s@.take(i)
            &&& s.spec_lowerbound(x).root.right()@ == s@.skip(i + 1)
        },
{
    let ret = s.spec_splay(KeyProbe { x });
    lemma_splay(s, KeyProbe { x });
    lemma_root(s);
    lemma_root(ret);
    lemma_count_below_parts(s@, x as int);
    if s.tree() is Node {
        lemma_land_by_key(s.tree(), x);
        let i = land(s.tree(), KeyProbe { x }) as int;
        assert(ret.root.spec_key() == s@[i]);
        if x > ret.root.spec_key() {
            let k = (ret.root.left().spec_size() + 1) as i32;
            assert(k == i + 1);
            lemma_select(ret, k);
        }
    }
    lemma_root(s.spec_lowerbound(x));
}

/// `insert` puts `x` before the first key that is at least `x` and keeps
/// both invariants.
pub proof fn lemma_insert(s: Splay, x: i32)
    requires
        s.wf(),
        s.ordered(),
        s@.len() < i32::MAX,
    ensures
        s.spec_insert(x).wf(),
        s.spec_insert(x).ordered(),
        s.spec_insert(x)@ == s@.insert(count_below(s@, x as int) as int, x),
        s.spec_insert(x).root_index() == count_below(s@, x as int),
        s.spec_insert(x).root.spec_key() == x,
{
    let origin = s.spec_lowerbound(x);
    lemma_lowerbound(s, x);
    lemma_root(origin);
    lemma_count_below_parts(s@, x as int);
    lemma_insert_keeps_sorted(s@, x);
    let g = origin.tree();
    let c = count_below(s@, x as int) as int;
    let r = s.spec_insert(x);
    lemma_wf_unfold(g);
    lemma_wf_unfold(g.left());
    lemma_wf_unfold(g.right());
    lemma_wf_unfold(origin.scratch());
    if origin.root.spec_key() >= x {
        let cut = g.spec_replace_chd(LCHD, TreeNode::Null);
        lemma_replace_chd(g, LCHD, TreeNode::Null);
        lemma_wf_unfold(cut);
        lemma_new(x, LCHD, g.left(), cut);
        lemma_wf_unfold(r.tree());
        if g is Node {
            assert(cut@ =~= s@.skip(c));
        } else {
            assert(cut@ =~= s@.skip(c));
        }
        assert(g.left()@ =~= s@.take(c));
        assert(r.tree()@ =~= s@.insert(c, x));
    } else {
        lemma_new(x, LCHD, g, TreeNode::Null);
        lemma_wf_unfold(r.tree());
        assert(r.tree()@ =~= s@.insert(c, x));
    }
    lemma_root(r);
}

/// `remove` takes out the key on which the search for `x` lands and keeps
/// both invariants.
pub proof fn lemma_remove(s: Splay, x: i32)
    requires
        s.wf(),
        s.ordered(),
    ensures
        s.spec_remove(x).wf(),
        s.spec_remove(x).ordered(),
        s.spec_remove(x)@ == if s@.len() == 0 {
            s@
        } else {
            s@.remove(landing(s@, x as int))
        },
{
    let origin = s.spec_lowerbound(x);
    lemma_lowerbound(s, x);
    lemma_root(origin);
    let g = origin.tree();
    let i = landing(s@, x as int);
    let r = s.spec_remove(x);
    lemma_wf_unfold(g);
    lemma_wf_unfold(g.left());
    lemma_wf_unfold(g.right());
    lemma_wf_unfold(origin.scratch());
    if s@.len() > 0 {
        lemma_remove_keeps_sorted(s@, i);
    }
    if g.right() is Null {
        if g is Node {
            assert(g.left()@ =~= s@.remove(i));
        }
        assert(r.tree() == g.left());
        lemma_root(r);
    } else {
        let sub0 = Splay { temp: origin.temp, root: Rc::new(g.right()) };
        assert(sub0.wf());
        lemma_select(sub0, 0);
        lemma_root(sub0);
        let sub = sub0.spec_select(0);
        lemma_root(sub);
        lemma_wf_unfold(sub.tree());
        lemma_wf_unfold(sub.root.left());
        lemma_wf_unfold(sub.root.right());
        lemma_wf_unfold(sub.scratch());
        assert(sub.root.left() is Null);
        lemma_replace_chd(sub.tree(), LCHD, g.left());
        lemma_wf_unfold(r.tree());
        assert(r.tree()@ =~= g.left()@ + sub@);
        assert(g.left()@ + g.right()@ =~= s@.remove(i));
        lemma_root(r);
    }
}

} // verus!
