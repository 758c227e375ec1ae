//! The commands of the line protocol, as calls on a tree version.
//!
//! A command is an operation number and one value. Reading the lines and
//! printing the replies is left to the caller.

use crate::assembly::Splay;
use crate::node::{lemma_wf_unfold, TreeNode, LCHD, RCHD};
use crate::order::{clamp_index, count_below, landing, lemma_count_below_parts};
use vstd::prelude::*;

verus! {

/// What a command gives back to be printed.
#[derive(Debug, Clone, Copy, PartialEq, Eq)]
pub enum Reply {
    /// Nothing is printed.
    Silent,
    /// A rank or a key.
    Number(i32),
    /// The successor query found no key.
    NoSuccessor,
}

/// The key that `predecessor` returns on the keys `s`: the last key below
/// `val`, or 0 where no key is below `val`.
pub open spec fn spec_predecessor(s: Seq<i32>, val: i32) -> i32 {
    if count_below(s, val as int) > 0 {
        s[count_below(s, val as int) - 1]
    } else {
        0
    }
}

/// What `successor` returns on the keys `s`: the first key above `val`. Where
/// there is none the answer is `None`, but for an empty `s` and a negative
/// `val`, where the key 0 of the empty tree is taken for one.
pub open spec fn spec_successor(s: Seq<i32>, val: i32) -> Option<i32> {
    if count_below(s, val + 1) < s.len() {
        Some(s[count_below(s, val + 1) as int])
    } else if s.len() == 0 && val < 0 {
        Some(0)
    } else {
        None
    }
}

/// The last key of `t`, or 0 where `t` has none.
pub open spec fn last_key(t: TreeNode) -> i32 {
    if t@.len() > 0 {
        t@.last()
    } else {
        0
    }
}

/// The last key below `val`, or 0 where there is none. The version is
/// replaced by the one that `lowerbound` makes of it for `val`.
pub fn predecessor(tree: &mut Splay, val: i32) -> (key: i32)
    requires
        old(tree).wf(),
        old(tree).ordered(),
    ensures
        *final(tree) == old(tree).spec_lowerbound(val),
        final(tree).wf(),
        final(tree).ordered(),
        final(tree)@ == old(tree)@,
        key == spec_predecessor(old(tree)@, val),
{
    *tree = tree.lowerbound(val);
    proof {
        lemma_count_below_parts(tree@, val as int);
    }
    if tree.root.key() >= val {
        let mut ptr = tree.root.child(LCHD);
        while matches!(ptr.child(RCHD), TreeNode::Node { .. })
            invariant
                ptr.wf(),
                last_key(ptr) == last_key(tree.root.left()),
                ptr is Null ==> tree.root.left() is Null,
            decreases ptr,
        {
            ptr = ptr.child(RCHD);
        }
        proof {
            lemma_wf_unfold(ptr);
        }
        ptr.key()
    } else {
        tree.root.key()
    }
}

/// The first key above `val`, if there is one. The version is replaced by
/// the one that `lowerbound` makes of it for `val + 1`.
pub fn successor(tree: &mut Splay, val: i32) -> (key: Option<i32>)
    requires
        old(tree).wf(),
        old(tree).ordered(),
        val < i32::MAX,
    ensures
        *final(tree) == old(tree).spec_lowerbound((val + 1) as i32),
        final(tree).wf(),
        final(tree).ordered(),
        final(tree)@ == old(tree)@,
        key == spec_successor(old(tree)@, val),
{
    *tree = tree.lowerbound(val + 1);
    proof {
        lemma_count_below_parts(tree@, val + 1);
    }
    if tree.root.key() >= val + 1 {
        Some(tree.root.key())
    } else {
        None
    }
}

/// The version that the command `opt val` leaves behind.
pub open spec fn spec_execute(tree: Splay, opt: i32, val: i32) -> Splay {
    if opt == 1 {
        tree.spec_insert(val)
    } else if opt == 2 {
        tree.spec_remove(val)
    } else if opt == 3 || opt == 5 {
        tree.spec_lowerbound(val)
    } else if opt == 4 {
        tree.spec_select((val - 1) as i32)
    } else if opt == 6 {
        tree.spec_lowerbound((val + 1) as i32)
    } else {
        tree
    }
}

/// The reply to the command `opt val` on a version that holds the keys `s`.
pub open spec fn spec_reply(s: Seq<i32>, opt: i32, val: i32) -> Reply {
    if opt == 3 {
        Reply::Number((landing(s, val as int) + 1) as i32)
    } else if opt == 4 {
        Reply::Number(
            if s.len() == 0 {
                0
            } else {
                s[clamp_index(val - 1, s.len())]
            },
        )
    } else if opt == 5 {
        Reply::Number(spec_predecessor(s, val))
    } else if opt == 6 {
        match spec_successor(s, val) {
            Some(key) => Reply::Number(key),
            None => Reply::NoSuccessor,
        }
    } else {
        Reply::Silent
    }
}

/// Runs one command: 1 inserts `val`, 2 removes it, 3 asks for its rank, 4
/// for the key of rank `val` counted from 1, 5 for the predecessor of `val`, 6
/// for its successor. Any other operation number does nothing.
pub fn execute(tree: &mut Splay, opt: i32, val: i32) -> (reply: Reply)
    requires
        old(tree).wf(),
        old(tree).ordered(),
        opt == 1 ==> old(tree)@.len() < i32::MAX,
        opt == 4 ==> val > i32::MIN,
        opt == 6 ==> val < i32::MAX,
    ensures
        *final(tree) == spec_execute(*old(tree), opt, val),
        reply == spec_reply(old(tree)@, opt, val),
        final(tree).wf(),
        final(tree).ordered(),
        opt != 1 && opt != 2 ==> final(tree)@ == old(tree)@,
{
    match opt {
        1 => {
            *tree = tree.insert(val);
            Reply::Silent
        },
        2 => {
            *tree = tree.remove(val);
            Reply::Silent
        },
        3 => Reply::Number(tree.rank(val)),
        4 => Reply::Number(tree.at(val - 1)),
        5 => Reply::Number(predecessor(tree, val)),
        6 => match successor(tree, val) {
            Some(key) => Reply::Number(key),
            None => Reply::NoSuccessor,
        },
        _ => Reply::Silent,
    }
}

} // verus!
