//! The ordered search primitive: a binary-search lower bound over a region
//! of keys, shared by both node layouts.

use vstd::prelude::*;
use crate::order::KeyCmp;
use crate::order::TotalOrder;

verus! {

/// `a` comes strictly before `b` in the key order.
pub open spec fn key_lt<K: TotalOrder>(a: K::V, b: K::V) -> bool {
    !K::le(b, a)
}

/// The strict order is `le` without equality.
pub proof fn lemma_key_lt<K: TotalOrder>(a: K::V, b: K::V)
    ensures
        key_lt::<K>(a, b) <==> (K::le(a, b) && a != b),
{
    K::le_total(a, b);
    if K::le(a, b) && K::le(b, a) {
        K::le_antisym(a, b);
    }
}

/// The strict order absorbs `le` on its left.
pub proof fn lemma_key_le_lt_trans<K: TotalOrder>(a: K::V, b: K::V, c: K::V)
    requires
        K::le(a, b),
        key_lt::<K>(b, c),
    ensures
        key_lt::<K>(a, c),
{
    if K::le(c, a) {
        K::le_trans(c, a, b);
    }
}

/// The strict order absorbs `le` on its right.
pub proof fn lemma_key_lt_le_trans<K: TotalOrder>(a: K::V, b: K::V, c: K::V)
    requires
        key_lt::<K>(a, b),
        K::le(b, c),
    ensures
        key_lt::<K>(a, c),
{
    if K::le(c, a) {
        K::le_trans(b, c, a);
    }
}

/// The views of the keys of `s` are in ascending order.
pub open spec fn sorted<K: TotalOrder>(s: Seq<K>) -> bool {
    forall|x: int, y: int| 0 <= x <= y < s.len() ==> K::le(s[x]@, s[y]@)
}

/// The views of the keys of `s` are in strictly ascending order.
pub open spec fn strictly_sorted<K: TotalOrder>(s: Seq<K>) -> bool {
    forall|x: int, y: int| 0 <= x < y < s.len() ==> key_lt::<K>(s[x]@, s[y]@)
}

pub proof fn lemma_strictly_sorted_implies_sorted<K: TotalOrder>(s: Seq<K>)
    requires
        strictly_sorted::<K>(s),
    ensures
        sorted::<K>(s),
{
    assert forall|x: int, y: int| 0 <= x <= y < s.len() implies K::le(s[x]@, s[y]@) by {
        if x == y {
            K::le_total(s[x]@, s[y]@);
        } else {
            lemma_key_lt::<K>(s[x]@, s[y]@);
        }
    }
}

/// The index the bisection loop of [`lower_bound`] converges to when run on
/// `s[l ..= r]`.
pub open spec fn bs_loop<K: TotalOrder>(s: Seq<K>, k: K::V, l: int, r: int) -> int
    decreases r - l,
{
    if l < r {
        let mid = l + (r - l) / 2;
        if key_lt::<K>(s[mid]@, k) {
            bs_loop::<K>(s, k, mid + 1, r)
        } else {
            bs_loop::<K>(s, k, l, mid)
        }
    } else {
        l
    }
}

/// The index [`lower_bound`] returns on a region with the given key views.
pub open spec fn bs_lower<K: TotalOrder>(s: Seq<K>, k: K::V) -> int {
    if s.len() == 0 {
        0
    } else if key_lt::<K>(s[s.len() - 1]@, k) {
        s.len() as int
    } else {
        bs_loop::<K>(s, k, 0, s.len() - 1)
    }
}

proof fn lemma_bs_loop_props<K: TotalOrder>(s: Seq<K>, k: K::V, l: int, r: int)
    requires
        sorted::<K>(s),
        0 <= l <= r < s.len(),
        forall|j: int| 0 <= j < l ==> key_lt::<K>(s[j]@, k),
        K::le(k, s[r]@),
    ensures
        l <= bs_loop::<K>(s, k, l, r) <= r,
        forall|j: int| 0 <= j < bs_loop::<K>(s, k, l, r) ==> key_lt::<K>(s[j]@, k),
        K::le(k, s[bs_loop::<K>(s, k, l, r)]@),
    decreases r - l,
{
    if l < r {
        let mid = l + (r - l) / 2;
        if key_lt::<K>(s[mid]@, k) {
            assert forall|j: int| 0 <= j < mid + 1 implies key_lt::<K>(s[j]@, k) by {
                if l <= j {
                    if K::le(k, s[j]@) {
                        K::le_trans(k, s[j]@, s[mid]@);
                    }
                }
            }
            lemma_bs_loop_props::<K>(s, k, mid + 1, r);
        } else {
            lemma_bs_loop_props::<K>(s, k, l, mid);
        }
    }
}

/// On a sorted region, [`bs_lower`] is the true lower bound: everything
/// before it is strictly below `k`, and the element at it (if any) is not.
pub proof fn lemma_bs_lower_sorted<K: TotalOrder>(s: Seq<K>, k: K::V)
    requires
        sorted::<K>(s),
    ensures
        0 <= bs_lower::<K>(s, k) <= s.len(),
        forall|j: int| 0 <= j < bs_lower::<K>(s, k) ==> key_lt::<K>(s[j]@, k),
        bs_lower::<K>(s, k) < s.len() ==> K::le(k, s[bs_lower::<K>(s, k)]@),
{
    if s.len() == 0 {
    } else if key_lt::<K>(s[s.len() - 1]@, k) {
        assert forall|j: int| 0 <= j < s.len() implies key_lt::<K>(s[j]@, k) by {
            if K::le(k, s[j]@) {
                K::le_trans(k, s[j]@, s[s.len() - 1]@);
            }
        }
    } else {
        lemma_bs_loop_props::<K>(s, k, 0, s.len() - 1);
    }
}

/// Any index with the lower-bound properties is the lower bound.
pub proof fn lemma_bs_lower_unique<K: TotalOrder>(s: Seq<K>, k: K::V, i: int)
    requires
        sorted::<K>(s),
        0 <= i <= s.len(),
        forall|j: int| 0 <= j < i ==> key_lt::<K>(s[j]@, k),
        i < s.len() ==> K::le(k, s[i]@),
    ensures
        bs_lower::<K>(s, k) == i,
{
    lemma_bs_lower_sorted::<K>(s, k);
    let b = bs_lower::<K>(s, k);
    if b < i {
        assert(key_lt::<K>(s[b]@, k));
        assert(K::le(k, s[b]@));
    } else if i < b {
        assert(key_lt::<K>(s[i]@, k));
        assert(K::le(k, s[i]@));
    }
}

/// Smallest index in `[0, a.len()]` whose element does not compare below
/// `val`, found by bisection; `a.len()` when every element is below `val`.
///
/// The returned index always equals [`bs_lower`]; when the region is sorted
/// it is the true lower bound: every element before it is strictly below
/// `val`, and the element at it, if there is one, is not below `val`. An
/// empty region yields `0`. Equal elements are found, not skipped.
pub fn lower_bound<K: TotalOrder>(a: &[K], val: &K) -> (r: usize)
    ensures
        r <= a@.len(),
        r as int == bs_lower::<K>(a@, val@),
        sorted::<K>(a@) ==> forall|j: int| 0 <= j < r ==> key_lt::<K>(a@[j]@, val@),
        sorted::<K>(a@) && r < a@.len() ==> K::le(val@, a@[r as int]@),
{
    proof {
        if sorted::<K>(a@) {
            lemma_bs_lower_sorted::<K>(a@, val@);
        }
    }
    let n = a.len();
    if n == 0 {
        return 0;
    }
    let last_less = match a[n - 1].key_cmp(val) {
        KeyCmp::Less => true,
        _ => false,
    };
    proof {
        lemma_key_lt::<K>(a@[n - 1]@, val@);
    }
    if last_less {
        return n;
    }
    let mut l: usize = 0;
    let mut r: usize = n - 1;
    while l < r
        invariant
            0 <= l <= r < n,
            n == a@.len(),
            bs_loop::<K>(a@, val@, l as int, r as int) == bs_loop::<K>(a@, val@, 0, n - 1),
        decreases r - l,
    {
        let mid = l + (r - l) / 2;
        let is_less = match a[mid].key_cmp(val) {
            KeyCmp::Less => true,
            _ => false,
        };
        proof {
            lemma_key_lt::<K>(a@[mid as int]@, val@);
        }
        if is_less {
            l = mid + 1;
        } else {
            r = mid;
        }
    }
    l
}

} // verus!
