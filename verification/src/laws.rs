//! What holds of the operations taken together.

use crate::assembly::Splay;
use crate::descent::Descent;
use crate::engine::lemma_splay;
use crate::node::{LCHD, RCHD};
use crate::ops::{lemma_insert, lemma_lowerbound, lemma_remove, lemma_root, lemma_select};
use crate::order::{
    count_below, landing, lemma_count_below_is_boundary, lemma_count_below_parts,
};
use vstd::prelude::*;

verus! {

/// The size invariant and the order invariant hold of every version that
/// an operation makes of a version of which they hold: in the tree at its
/// root every node's size is one more than the sizes of its children, and the
/// in-order keys never decrease.
pub proof fn law_invariants_are_kept(t: Splay, x: i32, k: i32)
    requires
        t.wf(),
        t.ordered(),
    ensures
        t.tree().wf() && t.tree().ordered(),
        t.spec_select(k).wf() && t.spec_select(k).ordered(),
        t.spec_select(k).tree().wf() && t.spec_select(k).tree().ordered(),
        t.spec_lowerbound(x).wf() && t.spec_lowerbound(x).ordered(),
        t.spec_lowerbound(x).tree().wf() && t.spec_lowerbound(x).tree().ordered(),
        t.spec_remove(x).wf() && t.spec_remove(x).ordered(),
        t.spec_remove(x).tree().wf() && t.spec_remove(x).tree().ordered(),
        t@.len() < i32::MAX ==> t.spec_insert(x).wf() && t.spec_insert(x).ordered(),
        t@.len() < i32::MAX ==> t.spec_insert(x).tree().wf() && t.spec_insert(x).tree().ordered(),
{
    lemma_select(t, k);
    lemma_lowerbound(t, x);
    lemma_remove(t, x);
    if t@.len() < i32::MAX {
        lemma_insert(t, x);
    }
}

/// A splay pass keeps both invariants, whatever predicate steers it.
pub proof fn law_splay_keeps_invariants<P: Descent>(t: Splay, p: P)
    requires
        t.wf(),
        t.ordered(),
    ensures
        t.spec_splay(p).wf() && t.spec_splay(p).ordered(),
        t.spec_splay(p).tree().wf() && t.spec_splay(p).tree().ordered(),
        t.spec_splay(p)@ == t@,
{
    lemma_splay(t, p);
}

/// The two chains are independent: replaying the left one first or the
/// right one first ends in the same state.
pub proof fn law_finish_in_either_order(s: Splay)
    requires
        s.inv(),
    ensures
        s.spec_finish(LCHD).spec_finish(RCHD) == s.spec_finish(RCHD).spec_finish(LCHD),
{
}

/// Two versions that hold the same keys answer every query alike, whatever
/// shape either has been splayed into: the rank of `x`, the key at rank `k`,
/// and the key and position that a lower-bound search for `x` brings to the
/// root.
pub proof fn law_answers_depend_on_keys(a: Splay, b: Splay, x: i32, k: i32)
    requires
        a.wf(),
        a.ordered(),
        b.wf(),
        b@ == a@,
    ensures
        a.spec_rank(x) == b.spec_rank(x),
        a.spec_at(k) == b.spec_at(k),
        a.spec_lowerbound(x)@ == b.spec_lowerbound(x)@,
        a.spec_lowerbound(x).root_index() == b.spec_lowerbound(x).root_index(),
        a.spec_lowerbound(x).root.spec_key() == b.spec_lowerbound(x).root.spec_key(),
{
    lemma_lowerbound(a, x);
    lemma_lowerbound(b, x);
    lemma_root(a.spec_lowerbound(x));
    lemma_root(b.spec_lowerbound(x));
    lemma_select(a, k);
    lemma_select(b, k);
}

/// Persistence: deriving a version from `t1` by `insert` leaves `t1` with
/// its keys, and `t1` goes on answering as before. `rank`, `at` and
/// `lowerbound` hand `t1` back splayed; each of the versions they hand back
/// holds the keys of `t1` and answers the queries `rank x`, `at k` and
/// `lowerbound x` as `t1` did before the insert.
pub proof fn law_persistence(t1: Splay, inserted: i32, x: i32, k: i32)
    requires
        t1.wf(),
        t1.ordered(),
        t1@.len() < i32::MAX,
    ensures
        ({
            let t2 = t1.spec_insert(inserted);
            let after_rank = t1.spec_lowerbound(x);
            let after_at = t1.spec_select(k);
            &&& t2@ == t1@.insert(count_below(t1@, inserted as int) as int, inserted)
            &&& after_rank@ == t1@
            &&& after_at@ == t1@
            &&& after_rank.spec_rank(x) == t1.spec_rank(x)
            &&& after_at.spec_rank(x) == t1.spec_rank(x)
            &&& after_rank.spec_at(k) == t1.spec_at(k)
            &&& after_at.spec_at(k) == t1.spec_at(k)
            &&& after_rank.spec_lowerbound(x)@ == t1.spec_lowerbound(x)@
            &&& after_at.spec_lowerbound(x)@ == t1.spec_lowerbound(x)@
            &&& after_rank.spec_lowerbound(x).root.spec_key() == t1.spec_lowerbound(
                x,
            ).root.spec_key()
            &&& after_at.spec_lowerbound(x).root.spec_key() == t1.spec_lowerbound(
                x,
            ).root.spec_key()
        }),
{
    lemma_insert(t1, inserted);
    lemma_lowerbound(t1, x);
    lemma_select(t1, k);
    law_answers_depend_on_keys(t1, t1.spec_lowerbound(x), x, k);
    law_answers_depend_on_keys(t1, t1.spec_select(k), x, k);
}

/// Insert and remove undo each other: removing `x` from the version that
/// `insert` made by adding `x` gives back the keys that were there before.
/// This holds whether or not `x` was among them: the new `x` stands before
/// any equal key, and that is where `remove` lands.
pub proof fn law_insert_remove_round_trip(t: Splay, x: i32)
    requires
        t.wf(),
        t.ordered(),
        t@.len() < i32::MAX,
    ensures
        t.spec_insert(x).spec_remove(x)@ == t@,
{
    let s = t@;
    let c = count_below(s, x as int) as int;
    let grown = t.spec_insert(x);
    lemma_insert(t, x);
    lemma_count_below_parts(s, x as int);
    lemma_count_below_is_boundary(grown@, x as int, c);
    lemma_remove(grown, x);
}

/// Select and rank answer each other: the key at rank `k` has rank `k`.
/// `at` counts from 0 and `rank` from 1, so the rank of the key that `at`
/// returns for `k` is `k + 1`, asked of the version as it was or as `at` left
/// it. `rank` reports the first of several equal keys, so `k` has to be the
/// first position of its key.
pub proof fn law_select_rank_duality(t: Splay, k: i32)
    requires
        t.wf(),
        t.ordered(),
        0 <= k < t@.len(),
        k == 0 || t@[k - 1] < t@[k as int],
    ensures
        t.spec_at(k) == t@[k as int],
        t.spec_rank(t.spec_at(k)) == k + 1,
        t.spec_select(k).spec_rank(t.spec_at(k)) == k + 1,
{
    let key = t.spec_at(k);
    lemma_select(t, k);
    lemma_count_below_is_boundary(t@, key as int, k as int);
    lemma_lowerbound(t, key);
    lemma_root(t.spec_lowerbound(key));
    let seen = t.spec_select(k);
    lemma_lowerbound(seen, key);
    lemma_root(seen.spec_lowerbound(key));
}

/// The rank that `rank` returns, stated over the keys alone.
pub proof fn law_rank_counts_keys_below(t: Splay, x: i32)
    requires
        t.wf(),
        t.ordered(),
    ensures
        t.spec_rank(x) == landing(t@, x as int) + 1,
        count_below(t@, x as int) < t@.len() ==> t.spec_rank(x) == count_below(t@, x as int) + 1,
{
    lemma_lowerbound(t, x);
    lemma_root(t.spec_lowerbound(x));
}

} // verus!
