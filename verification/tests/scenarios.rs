use persistent_splay::assembly::Splay;
use persistent_splay::command::{execute, predecessor, successor, Reply};
use persistent_splay::node::{TreeNode, LCHD, RCHD};

fn in_order(t: &TreeNode, out: &mut Vec<i32>) {
    if let TreeNode::Node { key, left, right, .. } = t {
        in_order(left, out);
        out.push(*key);
        in_order(right, out);
    }
}

fn keys(s: &Splay) -> Vec<i32> {
    let mut out = Vec::new();
    in_order(&s.root, &mut out);
    out
}

fn leaf(key: i32) -> TreeNode {
    TreeNode::new(key, LCHD, TreeNode::Null, TreeNode::Null)
}

fn node(key: i32, left: TreeNode, right: TreeNode) -> TreeNode {
    TreeNode::new(key, LCHD, left, right)
}

fn build(values: &[i32]) -> Splay {
    let mut s = Splay::new();
    for v in values {
        s = s.insert(*v);
    }
    s
}

#[test]
fn three_inserts_come_out_in_order() {
    let s = build(&[5, 3, 8]);
    assert_eq!(keys(&s), vec![3, 5, 8]);
    assert_eq!(*s.root, node(8, node(5, leaf(3), TreeNode::Null), TreeNode::Null));
}

#[test]
fn rank_of_the_middle_key() {
    let mut s = build(&[5, 3, 8]);
    assert_eq!(s.rank(5), 2);
    assert_eq!(*s.root, node(5, leaf(3), leaf(8)));
}

#[test]
fn first_smallest_key() {
    let mut s = build(&[5, 3, 8]);
    assert_eq!(s.at(0), 3);
    assert_eq!(keys(&s), vec![3, 5, 8]);
}

#[test]
fn predecessor_of_the_middle_key() {
    let mut s = build(&[5, 3, 8]);
    assert_eq!(predecessor(&mut s, 5), 3);
    assert_eq!(keys(&s), vec![3, 5, 8]);
}

#[test]
fn successor_of_the_middle_key() {
    let mut s = build(&[5, 3, 8]);
    assert_eq!(successor(&mut s, 5), Some(8));
    assert_eq!(keys(&s), vec![3, 5, 8]);
}

#[test]
fn commands_on_three_keys() {
    let mut s = Splay::new();
    assert_eq!(execute(&mut s, 1, 5), Reply::Silent);
    assert_eq!(execute(&mut s, 1, 3), Reply::Silent);
    assert_eq!(execute(&mut s, 1, 8), Reply::Silent);
    assert_eq!(keys(&s), vec![3, 5, 8]);
    assert_eq!(execute(&mut s, 3, 5), Reply::Number(2));
    assert_eq!(execute(&mut s, 4, 1), Reply::Number(3));
    assert_eq!(execute(&mut s, 5, 5), Reply::Number(3));
    assert_eq!(execute(&mut s, 6, 5), Reply::Number(8));
    assert_eq!(keys(&s), vec![3, 5, 8]);
}

#[test]
fn successor_in_an_empty_tree() {
    let mut s = Splay::new();
    assert_eq!(successor(&mut s, 10), None);
    assert_eq!(execute(&mut s, 6, 10), Reply::NoSuccessor);
    assert_eq!(keys(&s), Vec::<i32>::new());
}

#[test]
fn rank_reports_the_first_of_equal_keys() {
    let mut s = build(&[1, 1]);
    assert_eq!(keys(&s), vec![1, 1]);
    assert_eq!(s.rank(1), 1);
    let mut t = Splay::new();
    execute(&mut t, 1, 1);
    execute(&mut t, 1, 1);
    assert_eq!(execute(&mut t, 3, 1), Reply::Number(1));
}

#[test]
fn rank_of_a_removed_key() {
    let mut s = build(&[4]).remove(4);
    assert_eq!(keys(&s), Vec::<i32>::new());
    assert_eq!(s.rank(4), 1);
    let mut t = Splay::new();
    execute(&mut t, 1, 4);
    execute(&mut t, 2, 4);
    assert_eq!(execute(&mut t, 3, 4), Reply::Number(1));
}

#[test]
fn rank_of_an_absent_key_is_that_of_its_successor() {
    let mut s = build(&[2, 4, 6]).remove(4);
    assert_eq!(keys(&s), vec![2, 6]);
    assert_eq!(s.rank(4), 2);
    assert_eq!(s.root.key(), 6);
}

#[test]
fn rank_past_every_key_is_the_count() {
    let mut s = build(&[2, 4, 6]);
    assert_eq!(s.rank(7), 3);
    assert_eq!(s.root.key(), 6);
}

#[test]
fn unknown_command_changes_nothing() {
    let mut s = build(&[5, 3, 8]);
    let before = s.clone();
    assert_eq!(execute(&mut s, 0, 7), Reply::Silent);
    assert_eq!(execute(&mut s, 7, 7), Reply::Silent);
    assert_eq!(execute(&mut s, -1, 7), Reply::Silent);
    assert_eq!(s, before);
}

#[test]
fn predecessor_without_a_smaller_key_is_zero() {
    let mut s = build(&[5, 3, 8]);
    assert_eq!(predecessor(&mut s, 3), 0);
    assert_eq!(predecessor(&mut s, -7), 0);
    let mut e = Splay::new();
    assert_eq!(predecessor(&mut e, 4), 0);
    assert_eq!(predecessor(&mut e, -4), 0);
}

#[test]
fn predecessor_past_every_key_is_the_last_key() {
    let mut s = build(&[5, 3, 8]);
    assert_eq!(predecessor(&mut s, 100), 8);
    assert_eq!(predecessor(&mut s, 9), 8);
    assert_eq!(predecessor(&mut s, 8), 5);
    assert_eq!(predecessor(&mut s, 4), 3);
}

#[test]
fn predecessor_takes_the_rightmost_key_of_a_deep_left_subtree() {
    let mut s = build(&[1, 2, 3, 4, 5, 6, 7, 10]);
    for v in 2..=7 {
        assert_eq!(predecessor(&mut s, v), v - 1);
    }
    assert_eq!(predecessor(&mut s, 10), 7);
    assert_eq!(predecessor(&mut s, 9), 7);
}

#[test]
fn successor_skips_equal_keys() {
    let mut s = build(&[5, 5, 7, 7, 9]);
    assert_eq!(successor(&mut s, 5), Some(7));
    assert_eq!(successor(&mut s, 6), Some(7));
    assert_eq!(successor(&mut s, 7), Some(9));
    assert_eq!(successor(&mut s, 9), None);
    assert_eq!(successor(&mut s, -40), Some(5));
}

#[test]
fn successor_in_an_empty_tree_below_zero_is_the_empty_key() {
    let mut e = Splay::new();
    assert_eq!(successor(&mut e, -1), Some(0));
    assert_eq!(successor(&mut e, -5), Some(0));
    assert_eq!(successor(&mut e, 0), None);
    assert_eq!(execute(&mut e, 6, -5), Reply::Number(0));
}

#[test]
fn kth_command_counts_from_one() {
    let mut s = build(&[40, 10, 30, 20]);
    assert_eq!(execute(&mut s, 4, 1), Reply::Number(10));
    assert_eq!(execute(&mut s, 4, 2), Reply::Number(20));
    assert_eq!(execute(&mut s, 4, 3), Reply::Number(30));
    assert_eq!(execute(&mut s, 4, 4), Reply::Number(40));
}

#[test]
fn remove_command_takes_the_key_out() {
    let mut s = build(&[40, 10, 30, 20]);
    assert_eq!(execute(&mut s, 2, 30), Reply::Silent);
    assert_eq!(keys(&s), vec![10, 20, 40]);
    assert_eq!(execute(&mut s, 3, 40), Reply::Number(3));
}

#[test]
fn right_side_constant_is_one() {
    assert_eq!(LCHD, 0);
    assert_eq!(RCHD, 1);
}

fn below(model: &[i32], x: i64) -> usize {
    model.iter().filter(|k| (**k as i64) < x).count()
}

fn expected_reply(model: &[i32], opt: i32, val: i32) -> Reply {
    let n = model.len();
    match opt {
        3 => {
            let b = below(model, val as i64);
            Reply::Number(if b < n { b as i32 + 1 } else if n > 0 { n as i32 } else { 1 })
        }
        4 => {
            let k = val as i64 - 1;
            if n == 0 {
                Reply::Number(0)
            } else if k < 0 {
                Reply::Number(model[0])
            } else if k >= n as i64 {
                Reply::Number(model[n - 1])
            } else {
                Reply::Number(model[k as usize])
            }
        }
        5 => {
            let b = below(model, val as i64);
            Reply::Number(if b > 0 { model[b - 1] } else { 0 })
        }
        6 => {
            let b = below(model, val as i64 + 1);
            if b < n {
                Reply::Number(model[b])
            } else if n == 0 && val < 0 {
                Reply::Number(0)
            } else {
                Reply::NoSuccessor
            }
        }
        _ => Reply::Silent,
    }
}

#[test]
fn long_run_of_commands_agrees_with_a_sorted_list() {
    let mut s = Splay::new();
    let mut model: Vec<i32> = Vec::new();
    let mut state: u32 = 12345;
    for _ in 0..4000 {
        state = state.wrapping_mul(1103515245).wrapping_add(12345);
        let opt = ((state >> 16) % 7) as i32;
        state = state.wrapping_mul(1103515245).wrapping_add(12345);
        let val = ((state >> 16) % 41) as i32 - 20;
        let expected = expected_reply(&model, opt, val);
        if opt == 1 {
            let at = below(&model, val as i64);
            model.insert(at, val);
        }
        if opt == 2 && !model.is_empty() {
            let b = below(&model, val as i64);
            let at = if b < model.len() { b } else { model.len() - 1 };
            model.remove(at);
        }
        assert_eq!(execute(&mut s, opt, val), expected);
        assert_eq!(keys(&s), model);
        assert_eq!(s.root.size(), model.len() as i32);
        assert_eq!(*s.temp, leaf(0));
    }
}
