//! Sorted key sequences and the position of a key among them.

use vstd::prelude::*;

verus! {

/// The keys never decrease from left to right.
pub open spec fn sorted(s: Seq<i32>) -> bool {
    forall|i: int, j: int| 0 <= i <= j < s.len() ==> s[i] <= s[j]
}

/// The number of keys in `s` that are strictly below `x`. In a sorted
/// sequence this is the index of the first key that is at least `x`, or the
/// length where there is no such key.
pub open spec fn count_below(s: Seq<i32>, x: int) -> nat
    decreases s.len(),
{
    if s.len() == 0 {
        0
    } else {
        count_below(s.drop_last(), x) + if s.last() < x {
            1nat
        } else {
            0nat
        }
    }
}

/// The index at which a search for `x` lands in `s`: that of the first key
/// that is at least `x`; where every key is below `x`, that of the last key.
/// In an empty sequence it is 0.
pub open spec fn landing(s: Seq<i32>, x: int) -> int {
    if count_below(s, x) < s.len() {
        count_below(s, x) as int
    } else if s.len() > 0 {
        s.len() - 1
    } else {
        0
    }
}

/// The index nearest to `k` that a sequence of `len` keys has; 0 where it has
/// none.
pub open spec fn clamp_index(k: int, len: nat) -> int {
    if k < 0 || len == 0 {
        0
    } else if k >= len {
        len - 1
    } else {
        k
    }
}

/// Counting the keys below `x` goes part by part.
pub proof fn lemma_count_below_concat(a: Seq<i32>, b: Seq<i32>, x: int)
    ensures
        count_below(a + b, x) == count_below(a, x) + count_below(b, x),
    decreases b.len(),
{
    if b.len() == 0 {
        assert(a + b =~= a);
    } else {
        assert((a + b).drop_last() =~= a + b.drop_last());
        lemma_count_below_concat(a, b.drop_last(), x);
    }
}

/// No more keys are below `x` than there are keys; all are where each is,
/// none where none is.
pub proof fn lemma_count_below_range(s: Seq<i32>, x: int)
    ensures
        count_below(s, x) <= s.len(),
        (forall|i: int| 0 <= i < s.len() ==> s[i] < x) ==> count_below(s, x) == s.len(),
        (forall|i: int| 0 <= i < s.len() ==> s[i] >= x) ==> count_below(s, x) == 0,
    decreases s.len(),
{
    if s.len() > 0 {
        lemma_count_below_range(s.drop_last(), x);
    }
}

/// In a sorted sequence the count of keys below `x` is the one index that
/// parts the keys below `x` from the others.
pub proof fn lemma_count_below_is_boundary(s: Seq<i32>, x: int, i: int)
    requires
        sorted(s),
        0 <= i <= s.len(),
        i > 0 ==> s[i - 1] < x,
        i < s.len() ==> s[i] >= x,
    ensures
        count_below(s, x) == i,
{
    let a = s.take(i);
    let b = s.skip(i);
    assert(s =~= a + b);
    lemma_count_below_concat(a, b, x);
    lemma_count_below_range(a, x);
    lemma_count_below_range(b, x);
    assert forall|j: int| 0 <= j < a.len() implies a[j] < x by {
        assert(s[j] <= s[i - 1]);
    }
    assert forall|j: int| 0 <= j < b.len() implies b[j] >= x by {
        assert(s[i] <= s[i + j]);
    }
}

/// In a sorted sequence the keys before the count are below `x`, those from
/// it on are not.
pub proof fn lemma_count_below_parts(s: Seq<i32>, x: int)
    requires
        sorted(s),
    ensures
        count_below(s, x) <= s.len(),
        forall|j: int| 0 <= j < count_below(s, x) ==> s[j] < x,
        forall|j: int| count_below(s, x) <= j < s.len() ==> s[j] >= x,
    decreases s.len(),
{
    if s.len() > 0 {
        let t = s.drop_last();
        assert(sorted(t)) by {
            assert forall|i: int, j: int| 0 <= i <= j < t.len() implies t[i] <= t[j] by {
                assert(s[i] <= s[j]);
            }
        }
        lemma_count_below_parts(t, x);
        if s.last() < x {
            assert forall|j: int| 0 <= j < t.len() implies t[j] < x by {
                assert(s[j] <= s[s.len() - 1]);
            }
            lemma_count_below_range(t, x);
        }
        let c = count_below(s, x);
        assert forall|j: int| 0 <= j < c implies s[j] < x by {
            if j < t.len() {
                assert(s[j] == t[j]);
            }
        }
        assert forall|j: int| c <= j < s.len() implies s[j] >= x by {
            if j < t.len() {
                assert(s[j] == t[j]);
            }
        }
    }
}

/// The parts of a sorted sequence around one of its keys are sorted, and the
/// key lies between them.
pub proof fn lemma_sorted_split(a: Seq<i32>, k: i32, b: Seq<i32>)
    requires
        sorted(a.push(k) + b),
    ensures
        sorted(a),
        sorted(b),
        forall|i: int| 0 <= i < a.len() ==> a[i] <= k,
        forall|i: int| 0 <= i < b.len() ==> k <= b[i],
{
    let s = a.push(k) + b;
    assert forall|i: int, j: int| 0 <= i <= j < a.len() implies a[i] <= a[j] by {
        assert(s[i] <= s[j]);
    }
    assert forall|i: int, j: int| 0 <= i <= j < b.len() implies b[i] <= b[j] by {
        assert(s[a.len() + 1 + i] <= s[a.len() + 1 + j]);
    }
    assert forall|i: int| 0 <= i < a.len() implies a[i] <= k by {
        assert(s[i] <= s[a.len() as int]);
    }
    assert forall|i: int| 0 <= i < b.len() implies k <= b[i] by {
        assert(s[a.len() as int] <= s[a.len() + 1 + i]);
    }
}

/// Putting `x` where the keys below it end keeps a sorted sequence sorted.
pub proof fn lemma_insert_keeps_sorted(s: Seq<i32>, x: i32)
    requires
        sorted(s),
    ensures
        count_below(s, x as int) <= s.len(),
        sorted(s.insert(count_below(s, x as int) as int, x)),
{
    lemma_count_below_parts(s, x as int);
    let c = count_below(s, x as int) as int;
    let t = s.insert(c, x);
    assert forall|i: int, j: int| 0 <= i <= j < t.len() implies t[i] <= t[j] by {
        if i < c && j > c {
            assert(s[i] <= s[j - 1]);
        } else if i < c && j < c {
            assert(s[i] <= s[j]);
        } else if i > c {
            assert(s[i - 1] <= s[j - 1]);
        }
    }
}

/// Taking one key out keeps a sorted sequence sorted.
pub proof fn lemma_remove_keeps_sorted(s: Seq<i32>, i: int)
    requires
        sorted(s),
        0 <= i < s.len(),
    ensures
        sorted(s.remove(i)),
{
    let t = s.remove(i);
    assert forall|a: int, b: int| 0 <= a <= b < t.len() implies t[a] <= t[b] by {
        let a0 = if a < i { a } else { a + 1 };
        let b0 = if b < i { b } else { b + 1 };
        assert(s[a0] <= s[b0]);
    }
}

} // verus!
