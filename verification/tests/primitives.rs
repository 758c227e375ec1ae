use persistent_splay::node::{TreeNode, LCHD, RCHD};
use std::rc::Rc;

fn leaf(key: i32) -> TreeNode {
    TreeNode::new(key, LCHD, TreeNode::Null, TreeNode::Null)
}

#[test]
fn null_has_key_zero_and_size_zero() {
    assert_eq!(TreeNode::Null.key(), 0);
    assert_eq!(TreeNode::Null.size(), 0);
}

#[test]
fn null_has_null_children() {
    assert_eq!(TreeNode::Null.child(LCHD), TreeNode::Null);
    assert_eq!(TreeNode::Null.child(RCHD), TreeNode::Null);
}

#[test]
fn new_leaf_has_size_one() {
    let n = leaf(7);
    assert_eq!(n.key(), 7);
    assert_eq!(n.size(), 1);
    assert_eq!(n.child(LCHD), TreeNode::Null);
    assert_eq!(n.child(RCHD), TreeNode::Null);
    assert_eq!(
        n,
        TreeNode::Node {
            key: 7,
            size: 1,
            left: Rc::new(TreeNode::Null),
            right: Rc::new(TreeNode::Null),
        }
    );
}

#[test]
fn new_puts_the_inside_child_on_the_given_side() {
    let on_left = TreeNode::new(5, LCHD, leaf(3), leaf(8));
    assert_eq!(on_left.child(LCHD).key(), 3);
    assert_eq!(on_left.child(RCHD).key(), 8);
    let on_right = TreeNode::new(5, RCHD, leaf(8), leaf(3));
    assert_eq!(on_right.child(LCHD).key(), 3);
    assert_eq!(on_right.child(RCHD).key(), 8);
    assert_eq!(on_left, on_right);
}

#[test]
fn size_is_one_more_than_the_children() {
    let small = TreeNode::new(5, LCHD, leaf(3), leaf(8));
    assert_eq!(small.size(), 3);
    let big = TreeNode::new(10, LCHD, small, leaf(12));
    assert_eq!(big.size(), 5);
    let lopsided = TreeNode::new(20, RCHD, TreeNode::Null, big);
    assert_eq!(lopsided.size(), 6);
}

#[test]
fn replace_chd_keeps_key_and_other_child() {
    let n = TreeNode::new(5, LCHD, leaf(3), leaf(8));
    let m = n.replace_chd(LCHD, TreeNode::new(2, LCHD, leaf(1), TreeNode::Null));
    assert_eq!(m.key(), 5);
    assert_eq!(m.size(), 4);
    assert_eq!(m.child(LCHD).key(), 2);
    assert_eq!(m.child(RCHD), leaf(8));
    let r = n.replace_chd(RCHD, TreeNode::Null);
    assert_eq!(r.key(), 5);
    assert_eq!(r.size(), 2);
    assert_eq!(r.child(LCHD), leaf(3));
    assert_eq!(r.child(RCHD), TreeNode::Null);
}

#[test]
fn replace_chd_leaves_the_old_node_as_it_was() {
    let n = TreeNode::new(5, LCHD, leaf(3), leaf(8));
    let _ = n.replace_chd(LCHD, TreeNode::Null);
    let _ = n.replace_chd(RCHD, leaf(9));
    assert_eq!(n, TreeNode::new(5, LCHD, leaf(3), leaf(8)));
}

#[test]
fn replace_chd_of_null_is_null() {
    assert_eq!(TreeNode::Null.replace_chd(LCHD, leaf(1)), TreeNode::Null);
    assert_eq!(TreeNode::Null.replace_chd(RCHD, leaf(1)), TreeNode::Null);
}

#[test]
fn child_shares_its_subtrees_with_the_parent() {
    let n = TreeNode::new(5, LCHD, TreeNode::new(3, LCHD, leaf(1), leaf(4)), leaf(8));
    let c = n.child(LCHD);
    assert_eq!(c, TreeNode::new(3, LCHD, leaf(1), leaf(4)));
    let inner = match &n {
        TreeNode::Node { left, .. } => match &**left {
            TreeNode::Node { left, .. } => Rc::clone(left),
            TreeNode::Null => panic!("left child is missing"),
        },
        TreeNode::Null => panic!("node is missing"),
    };
    match &c {
        TreeNode::Node { left, .. } => assert!(Rc::ptr_eq(left, &inner)),
        TreeNode::Null => panic!("child is missing"),
    }
}

#[test]
fn clone_copies_the_top_and_shares_the_rest() {
    let n = TreeNode::new(5, LCHD, leaf(3), leaf(8));
    let c = n.clone();
    assert_eq!(c, n);
    match (&n, &c) {
        (
            TreeNode::Node { left: l1, right: r1, .. },
            TreeNode::Node { left: l2, right: r2, .. },
        ) => {
            assert!(Rc::ptr_eq(l1, l2));
            assert!(Rc::ptr_eq(r1, r2));
        }
        _ => panic!("node is missing"),
    }
    assert_eq!(TreeNode::Null.clone(), TreeNode::Null);
}

#[test]
fn replace_chd_shares_what_lies_below_the_other_child() {
    let n = TreeNode::new(5, LCHD, leaf(3), TreeNode::new(8, LCHD, leaf(7), leaf(9)));
    let m = n.replace_chd(LCHD, leaf(2));
    assert_eq!(m.child(RCHD), TreeNode::new(8, LCHD, leaf(7), leaf(9)));
    match (n.child(RCHD), m.child(RCHD)) {
        (
            TreeNode::Node { left: l1, right: r1, .. },
            TreeNode::Node { left: l2, right: r2, .. },
        ) => {
            assert!(Rc::ptr_eq(&l1, &l2));
            assert!(Rc::ptr_eq(&r1, &r2));
        }
        _ => panic!("node is missing"),
    }
}
