use persistent_splay::assembly::Splay;
use persistent_splay::node::{TreeNode, LCHD};

fn collect(t: &TreeNode, out: &mut Vec<i32>) {
    if let TreeNode::Node { key, left, right, .. } = t {
        collect(left, out);
        out.push(*key);
        collect(right, out);
    }
}

fn listing(s: &Splay) -> Vec<i32> {
    let mut out = Vec::new();
    collect(&s.root, &mut out);
    out
}

fn every_size_holds(t: &TreeNode) -> bool {
    match t {
        TreeNode::Null => t.size() == 0,
        TreeNode::Node { size, left, right, .. } => {
            *size == 1 + left.size() + right.size()
                && every_size_holds(left)
                && every_size_holds(right)
        }
    }
}

fn never_decreases(keys: &[i32]) -> bool {
    keys.windows(2).all(|w| w[0] <= w[1])
}

fn grown_from(values: &[i32]) -> Splay {
    let mut s = Splay::new();
    for v in values {
        s = s.insert(*v);
    }
    s
}

#[test]
fn size_invariant_after_every_operation() {
    let mut s = Splay::new();
    assert!(every_size_holds(&s.root));
    for (i, v) in [9, 2, 7, 7, 1, 30, -4, 18, 2, 11].iter().enumerate() {
        s = s.insert(*v);
        assert!(every_size_holds(&s.root));
        assert_eq!(s.root.size(), i as i32 + 1);
        s.rank(*v - 1);
        assert!(every_size_holds(&s.root));
        s.at(i as i32 / 2);
        assert!(every_size_holds(&s.root));
        s = s.lowerbound(*v + 3);
        assert!(every_size_holds(&s.root));
        s = s.select(i as i32);
        assert!(every_size_holds(&s.root));
    }
    for v in [7, 100, -100, 2, 2, 2] {
        s = s.remove(v);
        assert!(every_size_holds(&s.root));
    }
    assert_eq!(s.root.size(), 4);
}

#[test]
fn order_invariant_in_every_version() {
    let mut versions = vec![Splay::new()];
    for v in [9, 2, 7, 7, 1, 30, -4, 18, 2, 11] {
        let next = versions.last().unwrap().insert(v);
        versions.push(next);
    }
    for x in [7, 8, 40, -9] {
        let next = versions.last().unwrap().remove(x);
        versions.push(next);
    }
    for k in [0, 3, 5] {
        let next = versions.last().unwrap().select(k);
        versions.push(next);
    }
    for s in &versions {
        assert!(never_decreases(&listing(s)));
        assert!(every_size_holds(&s.root));
    }
    assert_eq!(listing(versions.last().unwrap()), vec![1, 2, 2, 7, 11, 18]);
}

#[test]
fn old_version_answers_as_before_the_insert() {
    let mut t1 = grown_from(&[10, 20, 20, 30, 50]);
    let rank_before = t1.rank(20);
    let key_before = t1.at(3);
    let landed_before = t1.lowerbound(25).root.key();
    let keys_before = listing(&t1);

    let t2 = t1.insert(25);
    assert_eq!(listing(&t2), vec![10, 20, 20, 25, 30, 50]);

    assert_eq!(listing(&t1), keys_before);
    assert_eq!(t1.rank(20), rank_before);
    assert_eq!(t1.at(3), key_before);
    assert_eq!(t1.lowerbound(25).root.key(), landed_before);
    assert_eq!(listing(&t1), vec![10, 20, 20, 30, 50]);
    assert_eq!(listing(&t2), vec![10, 20, 20, 25, 30, 50]);
}

#[test]
fn old_version_shape_is_untouched_by_derived_versions() {
    let t1 = grown_from(&[4, 2, 6, 1, 3, 5, 7]);
    let snapshot = t1.clone();
    let t2 = t1.insert(0);
    let t3 = t2.remove(4);
    let _ = t3.select(2);
    let _ = t1.lowerbound(5);
    assert_eq!(t1, snapshot);
    assert_eq!(listing(&t2), vec![0, 1, 2, 3, 4, 5, 6, 7]);
    assert_eq!(listing(&t3), vec![0, 1, 2, 3, 5, 6, 7]);
}

#[test]
fn insert_then_remove_gives_back_the_keys() {
    let t = grown_from(&[10, 20, 30, 40]);
    for x in [-5, 15, 25, 35, 45] {
        assert_eq!(listing(&t.insert(x).remove(x)), vec![10, 20, 30, 40]);
    }
    let e = Splay::new();
    assert_eq!(listing(&e.insert(3).remove(3)), Vec::<i32>::new());
}

#[test]
fn insert_then_remove_gives_back_the_keys_for_a_present_key() {
    let t = grown_from(&[10, 20, 20, 30]);
    for x in [10, 20, 30] {
        assert_eq!(listing(&t.insert(x).remove(x)), vec![10, 20, 20, 30]);
    }
}

#[test]
fn rank_of_the_key_at_a_rank() {
    let keys = [3, 8, 15, 16, 23, 42];
    let mut t = grown_from(&[16, 3, 42, 8, 23, 15]);
    for k in 0..keys.len() as i32 {
        let key = t.at(k);
        assert_eq!(key, keys[k as usize]);
        assert_eq!(t.rank(key), k + 1);
    }
}

#[test]
fn rank_of_a_repeated_key_is_that_of_its_first_place() {
    let mut t = grown_from(&[1, 1]);
    assert_eq!(t.at(1), 1);
    assert_eq!(t.rank(1), 1);
    let mut u = grown_from(&[5, 7, 7, 7, 9]);
    assert_eq!(u.at(3), 7);
    assert_eq!(u.rank(7), 2);
    assert_eq!(u.at(4), 9);
    assert_eq!(u.rank(9), 5);
}

#[test]
fn versions_with_the_same_keys_answer_alike() {
    let mut a = grown_from(&[1, 2, 3, 4, 5, 6]);
    let mut b = grown_from(&[6, 5, 4, 3, 2, 1]);
    assert_ne!(a, b);
    for x in [-1, 1, 3, 4, 6, 7] {
        assert_eq!(a.rank(x), b.rank(x));
        assert_eq!(a.lowerbound(x).root.key(), b.lowerbound(x).root.key());
    }
    for k in 0..6 {
        assert_eq!(a.at(k), b.at(k));
    }
    assert_eq!(a.root.child(LCHD).size(), 5);
}
