//! The two node layouts of the tree: sorted leaves holding (key, value)
//! entries, and internal nodes holding separator keys and child handles.
//!
//! Every node has a fixed capacity of [`NODE_DEG`] entries (leaf) or
//! children (internal); the occupancy is the length of the backing vectors.
//! Entries past the occupancy simply do not exist, so no default fill value
//! is ever read.

use vstd::prelude::*;
use crate::order::KeyCmp;
use crate::order::TotalOrder;
use crate::search::bs_lower;
use crate::search::key_lt;
use crate::search::lemma_key_le_lt_trans;
use crate::search::lemma_key_lt;
use crate::search::lemma_strictly_sorted_implies_sorted;
use crate::search::lower_bound;
use crate::search::strictly_sorted;

verus! {

/// Branching factor: the maximum number of children of an internal node and
/// of entries of a leaf. Chosen so that a node stays close to a page in
/// size; it is a compile-time configuration constant.
pub const NODE_DEG: usize = 32;

/// A tagged handle: the position of a node in the arena of its kind.
///
/// Handles are the only form of reference between nodes, and they stay valid
/// for the lifetime of the tree, because the arenas only ever grow.
#[derive(Clone, Copy, PartialEq, Eq, Structural, Debug)]
pub enum NodeIndex {
    Leaf(usize),
    Internal(usize),
}

/// The value stored under the first occurrence of key view `k`, scanning
/// `s` from the front; `None` when no entry carries `k`.
pub open spec fn assoc_find<KV, V>(s: Seq<(KV, V)>, k: KV) -> Option<V>
    decreases s.len(),
{
    if s.len() == 0 {
        None
    } else if s[0].0 == k {
        Some(s[0].1)
    } else {
        assoc_find(s.drop_first(), k)
    }
}

/// The key views of the entries of `s` are strictly ascending.
pub open spec fn entries_sorted<K: TotalOrder, V>(s: Seq<(K::V, V)>) -> bool {
    forall|x: int, y: int| 0 <= x < y < s.len() ==> key_lt::<K>(s[x].0, s[y].0)
}

/// The entry sequence after an upsert of `(k, v)`: `(k, v)` replaces the
/// entry carrying `k` if one exists, and otherwise sits at the position the
/// order assigns to `k`.
pub open spec fn upsert_entries<K: TotalOrder, V>(s: Seq<(K::V, V)>, k: K::V, v: V) -> Seq<
    (K::V, V),
>
    decreases s.len(),
{
    if s.len() == 0 {
        seq![(k, v)]
    } else if key_lt::<K>(k, s[0].0) {
        seq![(k, v)] + s
    } else if s[0].0 == k {
        seq![(k, v)] + s.drop_first()
    } else {
        seq![s[0]] + upsert_entries::<K, V>(s.drop_first(), k, v)
    }
}

/// Upserting and then searching for the same key yields the new value.
pub proof fn lemma_upsert_then_find<K: TotalOrder, V>(s: Seq<(K::V, V)>, k: K::V, v: V)
    ensures
        assoc_find::<K::V, V>(upsert_entries::<K, V>(s, k, v), k) == Some(v),
    decreases s.len(),
{
    if s.len() == 0 {
    } else if key_lt::<K>(k, s[0].0) {
        lemma_key_lt::<K>(k, s[0].0);
    } else if s[0].0 == k {
    } else {
        lemma_upsert_then_find::<K, V>(s.drop_first(), k, v);
        let u = seq![s[0]] + upsert_entries::<K, V>(s.drop_first(), k, v);
        assert(u.drop_first() =~= upsert_entries::<K, V>(s.drop_first(), k, v));
    }
}

/// An upsert leaves the entry of every other key where the search finds it.
pub proof fn lemma_upsert_preserves_others<K: TotalOrder, V>(
    s: Seq<(K::V, V)>,
    k: K::V,
    v: V,
    k2: K::V,
)
    requires
        k2 != k,
    ensures
        assoc_find::<K::V, V>(upsert_entries::<K, V>(s, k, v), k2) == assoc_find::<K::V, V>(s, k2),
    decreases s.len(),
{
    if s.len() == 0 {
        let u = seq![(k, v)];
        assert(u[0] == (k, v));
        assert(u.drop_first() =~= Seq::<(K::V, V)>::empty());
        assert(assoc_find::<K::V, V>(u, k2) == assoc_find::<K::V, V>(u.drop_first(), k2));
        assert(assoc_find::<K::V, V>(u.drop_first(), k2) is None);
        assert(assoc_find::<K::V, V>(s, k2) is None);
    } else if key_lt::<K>(k, s[0].0) {
        let u = seq![(k, v)] + s;
        assert(u[0] == (k, v));
        assert(u.drop_first() =~= s);
        assert(assoc_find::<K::V, V>(u, k2) == assoc_find::<K::V, V>(s, k2));
    } else if s[0].0 == k {
        let u = seq![(k, v)] + s.drop_first();
        assert(u[0] == (k, v));
        assert(u.drop_first() =~= s.drop_first());
        assert(assoc_find::<K::V, V>(s, k2) == assoc_find::<K::V, V>(s.drop_first(), k2));
    } else {
        lemma_upsert_preserves_others::<K, V>(s.drop_first(), k, v, k2);
        let u = seq![s[0]] + upsert_entries::<K, V>(s.drop_first(), k, v);
        assert(upsert_entries::<K, V>(s, k, v) == u);
        assert(u.drop_first() =~= upsert_entries::<K, V>(s.drop_first(), k, v));
        assert(u[0] == s[0]);
        if s[0].0 == k2 {
            assert(assoc_find::<K::V, V>(u, k2) == Some(s[0].1));
            assert(assoc_find::<K::V, V>(s, k2) == Some(s[0].1));
        } else {
            assert(assoc_find::<K::V, V>(u, k2) == assoc_find::<K::V, V>(u.drop_first(), k2));
            assert(assoc_find::<K::V, V>(s, k2) == assoc_find::<K::V, V>(s.drop_first(), k2));
        }
    }
}

/// In a sorted entry sequence, an entry carrying `k` is what the search
/// finds.
pub proof fn lemma_assoc_find_hit<K: TotalOrder, V>(s: Seq<(K::V, V)>, k: K::V, i: int)
    requires
        entries_sorted::<K, V>(s),
        0 <= i < s.len(),
        s[i].0 == k,
    ensures
        assoc_find::<K::V, V>(s, k) == Some(s[i].1),
    decreases i,
{
    if i == 0 {
    } else {
        lemma_key_lt::<K>(s[0].0, s[i].0);
        assert(forall|x: int, y: int|
            0 <= x < y < s.drop_first().len() ==> key_lt::<K>(
                s.drop_first()[x].0,
                s.drop_first()[y].0,
            ));
        lemma_assoc_find_hit::<K, V>(s.drop_first(), k, i - 1);
    }
}

/// A key carried by no entry is not found.
pub proof fn lemma_assoc_find_miss<KV, V>(s: Seq<(KV, V)>, k: KV)
    requires
        forall|j: int| 0 <= j < s.len() ==> s[j].0 != k,
    ensures
        assoc_find::<KV, V>(s, k) is None,
    decreases s.len(),
{
    if s.len() != 0 {
        lemma_assoc_find_miss::<KV, V>(s.drop_first(), k);
    }
}

/// A found value sits at some position of the sequence.
pub proof fn lemma_assoc_find_some_index<KV, V>(s: Seq<(KV, V)>, k: KV, x: V)
    requires
        assoc_find::<KV, V>(s, k) == Some(x),
    ensures
        exists|j: int| 0 <= j < s.len() && (#[trigger] s[j]).0 == k && s[j].1 == x,
    decreases s.len(),
{
    if s.len() != 0 {
        if s[0].0 == k {
            assert(s[0].0 == k && s[0].1 == x);
        } else {
            lemma_assoc_find_some_index::<KV, V>(s.drop_first(), k, x);
            let j = choose|j: int|
                0 <= j < s.drop_first().len() && (#[trigger] s.drop_first()[j]).0 == k
                    && s.drop_first()[j].1 == x;
            assert(s[j + 1].0 == k && s[j + 1].1 == x);
        }
    }
}

/// What a contiguous slice of a sorted entry sequence finds, the whole
/// sequence finds too: keys are unique, so the slice's hit is the hit.
pub proof fn lemma_assoc_find_subrange<K: TotalOrder, V>(
    s: Seq<(K::V, V)>,
    a: int,
    b: int,
    k: K::V,
    x: V,
)
    requires
        entries_sorted::<K, V>(s),
        0 <= a <= b <= s.len(),
        assoc_find::<K::V, V>(s.subrange(a, b), k) == Some(x),
    ensures
        assoc_find::<K::V, V>(s, k) == Some(x),
{
    lemma_assoc_find_some_index::<K::V, V>(s.subrange(a, b), k, x);
    let j = choose|j: int|
        0 <= j < s.subrange(a, b).len() && (#[trigger] s.subrange(a, b)[j]).0 == k && s.subrange(
            a,
            b,
        )[j].1 == x;
    assert(s[a + j].0 == k && s[a + j].1 == x);
    lemma_assoc_find_hit::<K, V>(s, k, a + j);
}

/// An upsert introduces no key beyond `k` and the keys already present.
pub proof fn lemma_upsert_keys<K: TotalOrder, V>(s: Seq<(K::V, V)>, k: K::V, v: V)
    ensures
        forall|e: int|
            0 <= e < upsert_entries::<K, V>(s, k, v).len() ==> ((#[trigger] upsert_entries::<
                K,
                V,
            >(s, k, v)[e]).0 == k || exists|j: int|
                0 <= j < s.len() && (#[trigger] s[j]).0 == upsert_entries::<K, V>(s, k, v)[e].0),
    decreases s.len(),
{
    let u = upsert_entries::<K, V>(s, k, v);
    if s.len() == 0 {
        assert(u[0].0 == k);
    } else if key_lt::<K>(k, s[0].0) {
        assert forall|e: int| 0 <= e < u.len() implies (u[e].0 == k || exists|j: int|
            0 <= j < s.len() && (#[trigger] s[j]).0 == u[e].0) by {
            if e > 0 {
                assert(u[e] == s[e - 1]);
                assert(s[e - 1].0 == u[e].0);
            }
        }
    } else if s[0].0 == k {
        assert forall|e: int| 0 <= e < u.len() implies (u[e].0 == k || exists|j: int|
            0 <= j < s.len() && (#[trigger] s[j]).0 == u[e].0) by {
            if e > 0 {
                assert(u[e] == s.drop_first()[e - 1]);
                assert(s[e].0 == u[e].0);
            }
        }
    } else {
        lemma_upsert_keys::<K, V>(s.drop_first(), k, v);
        let t = upsert_entries::<K, V>(s.drop_first(), k, v);
        assert forall|e: int| 0 <= e < u.len() implies (u[e].0 == k || exists|j: int|
            0 <= j < s.len() && (#[trigger] s[j]).0 == u[e].0) by {
            if e == 0 {
                assert(u[0] == s[0]);
                assert(s[0].0 == u[0].0);
            } else {
                assert(u[e] == t[e - 1]);
                if t[e - 1].0 != k {
                    let j = choose|j: int|
                        0 <= j < s.drop_first().len() && (#[trigger] s.drop_first()[j]).0 == t[e
                            - 1].0;
                    assert(s[j + 1].0 == u[e].0);
                }
            }
        }
    }
}

/// Splitting a sorted entry sequence at `m` sends a search for a key at or
/// below the closing key of the left half to the left half.
pub proof fn lemma_assoc_half_left<K: TotalOrder, V>(s: Seq<(K::V, V)>, m: int, k: K::V)
    requires
        entries_sorted::<K, V>(s),
        1 <= m <= s.len(),
        K::le(k, s[m - 1].0),
    ensures
        assoc_find::<K::V, V>(s, k) == assoc_find::<K::V, V>(s.subrange(0, m), k),
{
    let sub = s.subrange(0, m);
    assert(entries_sorted::<K, V>(sub));
    match assoc_find::<K::V, V>(s, k) {
        Some(x) => {
            lemma_assoc_find_some_index::<K::V, V>(s, k, x);
            let i = choose|i: int| 0 <= i < s.len() && (#[trigger] s[i]).0 == k && s[i].1 == x;
            if i >= m {
                assert(key_lt::<K>(s[m - 1].0, s[i].0));
            }
            lemma_assoc_find_hit::<K, V>(sub, k, i);
            lemma_assoc_find_hit::<K, V>(s, k, i);
        },
        None => {
            match assoc_find::<K::V, V>(sub, k) {
                Some(y) => {
                    lemma_assoc_find_subrange::<K, V>(s, 0, m, k, y);
                },
                None => {},
            }
        },
    }
}

/// Splitting a sorted entry sequence at `m` sends a search for a key above
/// the closing key of the left half to the right half.
pub proof fn lemma_assoc_half_right<K: TotalOrder, V>(s: Seq<(K::V, V)>, m: int, k: K::V)
    requires
        entries_sorted::<K, V>(s),
        1 <= m <= s.len(),
        key_lt::<K>(s[m - 1].0, k),
    ensures
        assoc_find::<K::V, V>(s, k) == assoc_find::<K::V, V>(s.subrange(m, s.len() as int), k),
{
    let sub = s.subrange(m, s.len() as int);
    assert(entries_sorted::<K, V>(sub));
    match assoc_find::<K::V, V>(s, k) {
        Some(x) => {
            lemma_assoc_find_some_index::<K::V, V>(s, k, x);
            let i = choose|i: int| 0 <= i < s.len() && (#[trigger] s[i]).0 == k && s[i].1 == x;
            if i < m {
                if i < m - 1 {
                    assert(key_lt::<K>(s[i].0, s[m - 1].0));
                    lemma_key_lt::<K>(s[i].0, s[m - 1].0);
                }
                lemma_key_lt::<K>(s[m - 1].0, k);
                assert(false);
            }
            assert(sub[i - m].0 == k && sub[i - m].1 == x);
            lemma_assoc_find_hit::<K, V>(sub, k, i - m);
            lemma_assoc_find_hit::<K, V>(s, k, i);
        },
        None => {
            match assoc_find::<K::V, V>(sub, k) {
                Some(y) => {
                    lemma_assoc_find_subrange::<K, V>(s, m, s.len() as int, k, y);
                },
                None => {},
            }
        },
    }
}

/// Where an upsert lands: at the lower bound `i` of `k`, either replacing
/// the entry there (equal key) or making room for a new entry.
pub proof fn lemma_upsert_entries_at<K: TotalOrder, V>(s: Seq<(K::V, V)>, k: K::V, v: V, i: int)
    requires
        entries_sorted::<K, V>(s),
        0 <= i <= s.len(),
        forall|j: int| 0 <= j < i ==> key_lt::<K>(s[j].0, k),
        i < s.len() ==> K::le(k, s[i].0),
    ensures
        upsert_entries::<K, V>(s, k, v) == if i < s.len() && s[i].0 == k {
            s.update(i, (k, v))
        } else {
            s.subrange(0, i) + seq![(k, v)] + s.subrange(i, s.len() as int)
        },
    decreases i,
{
    if i == 0 {
        if s.len() == 0 {
            assert(upsert_entries::<K, V>(s, k, v) =~= s.subrange(0, 0) + seq![(k, v)]
                + s.subrange(0, 0));
        } else if s[0].0 == k {
            assert(seq![(k, v)] + s.drop_first() =~= s.update(0, (k, v)));
        } else {
            lemma_key_lt::<K>(k, s[0].0);
            assert(key_lt::<K>(k, s[0].0));
            assert(seq![(k, v)] + s =~= s.subrange(0, 0) + seq![(k, v)] + s.subrange(
                0,
                s.len() as int,
            ));
        }
    } else {
        // The head is strictly below `k`, so the upsert keeps it and recurses.
        lemma_key_lt::<K>(s[0].0, k);
        lemma_key_lt::<K>(k, s[0].0);
        K::le_total(s[0].0, k);
        assert(!key_lt::<K>(k, s[0].0));
        assert(s[0].0 != k);
        let t = s.drop_first();
        assert(forall|x: int, y: int|
            0 <= x < y < t.len() ==> key_lt::<K>(t[x].0, t[y].0));
        lemma_upsert_entries_at::<K, V>(t, k, v, i - 1);
        if i < s.len() && s[i].0 == k {
            assert(t[i - 1].0 == k);
            assert(seq![s[0]] + t.update(i - 1, (k, v)) =~= s.update(i, (k, v)));
        } else {
            if i < s.len() {
                assert(t[i - 1] == s[i]);
            }
            assert(seq![s[0]] + (t.subrange(0, i - 1) + seq![(k, v)] + t.subrange(
                i - 1,
                t.len() as int,
            )) =~= s.subrange(0, i) + seq![(k, v)] + s.subrange(i, s.len() as int));
        }
    }
}

/// Splitting a sorted entry sequence anywhere keeps every entry in exactly
/// one half, keeps both halves sorted, and the key closing the left half
/// separates them: the left half stays at or below it, the right half
/// strictly above it.
pub proof fn lemma_split_partition<K: TotalOrder, V>(s: Seq<(K::V, V)>, lc: int)
    requires
        entries_sorted::<K, V>(s),
        1 <= lc <= s.len(),
    ensures
        s.subrange(0, lc) + s.subrange(lc, s.len() as int) == s,
        s.subrange(0, lc).len() + s.subrange(lc, s.len() as int).len() == s.len(),
        entries_sorted::<K, V>(s.subrange(0, lc)),
        entries_sorted::<K, V>(s.subrange(lc, s.len() as int)),
        forall|j: int| 0 <= j < lc ==> K::le((#[trigger] s[j]).0, s[lc - 1].0),
        forall|j: int| lc <= j < s.len() ==> key_lt::<K>(s[lc - 1].0, (#[trigger] s[j]).0),
{
    assert(s.subrange(0, lc) + s.subrange(lc, s.len() as int) =~= s);
    assert forall|j: int| 0 <= j < lc implies K::le((#[trigger] s[j]).0, s[lc - 1].0) by {
        if j == lc - 1 {
            K::le_total(s[j].0, s[j].0);
        } else {
            lemma_key_lt::<K>(s[j].0, s[lc - 1].0);
        }
    }
}

/// A leaf: a sorted, fixed-capacity run of (key, value) entries.
pub struct LeafNode<K, V> {
    keys: Vec<K>,
    values: Vec<V>,
}

impl<K: TotalOrder + Copy, V: Copy> LeafNode<K, V> {
    /// Occupancy bounded by the capacity, keys strictly ascending, one value
    /// per key.
    pub closed spec fn wf(self) -> bool {
        &&& self.keys@.len() == self.values@.len()
        &&& self.keys@.len() <= NODE_DEG
        &&& strictly_sorted::<K>(self.keys@)
    }

    /// The entries of the leaf, as pairs of key view and value.
    pub closed spec fn entries(self) -> Seq<(K::V, V)> {
        Seq::new(self.keys@.len() as nat, |i: int| (self.keys@[i]@, self.values@[i]))
    }

    proof fn lemma_entries_sorted(self)
        requires
            self.wf(),
        ensures
            entries_sorted::<K, V>(self.entries()),
    {
    }

    /// What well-formedness guarantees about the observable entries.
    pub proof fn lemma_wf_props(self)
        requires
            self.wf(),
        ensures
            self.entries().len() <= NODE_DEG,
            entries_sorted::<K, V>(self.entries()),
    {
    }

    /// An empty leaf.
    pub fn new() -> (r: Self)
        ensures
            r.wf(),
            r.entries() == Seq::<(K::V, V)>::empty(),
    {
        let r = LeafNode { keys: Vec::new(), values: Vec::new() };
        proof {
            assert(r.entries() =~= Seq::<(K::V, V)>::empty());
        }
        r
    }

    /// Current occupancy.
    pub fn cnt(&self) -> (r: usize)
        ensures
            r == self.entries().len(),
    {
        self.keys.len()
    }

    /// The leaf holds as many entries as it has room for.
    pub fn full(&self) -> (r: bool)
        ensures
            r == (self.entries().len() == NODE_DEG),
    {
        self.keys.len() == NODE_DEG
    }

    /// Point lookup: the value stored under `k`, if any.
    pub fn lookup(&self, k: &K) -> (r: Option<&V>)
        requires
            self.wf(),
        ensures
            match r {
                Some(v) => assoc_find::<K::V, V>(self.entries(), k@) == Some(*v),
                None => assoc_find::<K::V, V>(self.entries(), k@) is None,
            },
    {
        proof {
            lemma_strictly_sorted_implies_sorted::<K>(self.keys@);
        }
        let i = lower_bound(self.keys.as_slice(), k);
        if i == self.keys.len() {
            proof {
                assert forall|j: int| 0 <= j < self.entries().len() implies self.entries()[j].0
                    != k@ by {
                    lemma_key_lt::<K>(self.keys@[j]@, k@);
                }
                lemma_assoc_find_miss::<K::V, V>(self.entries(), k@);
            }
            None
        } else {
            let hit = match self.keys[i].key_cmp(k) {
                KeyCmp::Equal => true,
                _ => false,
            };
            if hit {
                proof {
                    self.lemma_entries_sorted();
                    lemma_assoc_find_hit::<K, V>(self.entries(), k@, i as int);
                }
                Some(&self.values[i])
            } else {
                proof {
                    lemma_key_lt::<K>(k@, self.keys@[i as int]@);
                    assert forall|j: int| 0 <= j < self.entries().len() implies self.entries()[j].0
                        != k@ by {
                        if j < i {
                            lemma_key_lt::<K>(self.keys@[j]@, k@);
                        } else if j > i {
                            if self.keys@[j]@ == k@ {
                                assert(key_lt::<K>(self.keys@[i as int]@, self.keys@[j]@));
                            }
                        }
                    }
                    lemma_assoc_find_miss::<K::V, V>(self.entries(), k@);
                }
                None
            }
        }
    }

    /// Upsert: stores `v` under `k`, keeping the entries sorted. Returns the
    /// value previously stored under `k`, if any. The leaf must have room;
    /// the tree driver guarantees this by splitting beforehand.
    pub fn insert(&mut self, k: &K, v: &V) -> (r: Option<V>)
        requires
            old(self).wf(),
            old(self).entries().len() < NODE_DEG,
        ensures
            final(self).wf(),
            final(self).entries() == upsert_entries::<K, V>(old(self).entries(), k@, *v),
            r == assoc_find::<K::V, V>(old(self).entries(), k@),
    {
        proof {
            lemma_strictly_sorted_implies_sorted::<K>(self.keys@);
            self.lemma_entries_sorted();
        }
        let ghost s = self.entries();
        let ghost ko = self.keys@;
        let i = lower_bound(self.keys.as_slice(), k);
        proof {
            lemma_upsert_entries_at::<K, V>(s, k@, *v, i as int);
        }
        if i == self.keys.len() {
            // Append past the last entry.
            self.keys.push(*k);
            self.values.push(*v);
            proof {
                assert forall|j: int| 0 <= j < s.len() implies s[j].0 != k@ by {
                    lemma_key_lt::<K>(s[j].0, k@);
                }
                lemma_assoc_find_miss::<K::V, V>(s, k@);
                assert(self.entries() =~= s.subrange(0, i as int) + seq![(k@, *v)] + s.subrange(
                    i as int,
                    s.len() as int,
                ));
                assert forall|x: int, y: int|
                    0 <= x < y < self.keys@.len() implies key_lt::<K>(
                    self.keys@[x]@,
                    self.keys@[y]@,
                ) by {
                    if y == self.keys@.len() - 1 {
                        lemma_key_lt::<K>(self.keys@[x]@, k@);
                    }
                }
            }
            return None;
        }
        let hit = match self.keys[i].key_cmp(k) {
            KeyCmp::Equal => true,
            _ => false,
        };
        if hit {
            // The key exists: replace the value in place.
            let prev = self.values[i];
            self.values[i] = *v;
            proof {
                lemma_assoc_find_hit::<K, V>(s, k@, i as int);
                assert(self.entries() =~= s.update(i as int, (k@, *v)));
            }
            return Some(prev);
        }
        // A genuinely new key: open a slot at the insertion point.
        self.keys.insert(i, *k);
        self.values.insert(i, *v);
        proof {
            lemma_key_lt::<K>(k@, s[i as int].0);
            assert forall|j: int| 0 <= j < s.len() implies s[j].0 != k@ by {
                if j < i {
                    lemma_key_lt::<K>(s[j].0, k@);
                } else if j > i {
                    if s[j].0 == k@ {
                        assert(key_lt::<K>(s[i as int].0, s[j].0));
                    }
                } else {
                    lemma_key_lt::<K>(s[j].0, k@);
                }
            }
            lemma_assoc_find_miss::<K::V, V>(s, k@);
            assert(self.entries() =~= s.subrange(0, i as int) + seq![(k@, *v)] + s.subrange(
                i as int,
                s.len() as int,
            ));
            assert(self.keys@ =~= ko.subrange(0, i as int) + seq![*k] + ko.subrange(
                i as int,
                ko.len() as int,
            ));
            assert forall|x: int, y: int|
                0 <= x < y < self.keys@.len() implies key_lt::<K>(
                self.keys@[x]@,
                self.keys@[y]@,
            ) by {
                if x < i && y == i {
                    lemma_key_lt::<K>(ko[x]@, k@);
                } else if x == i && y > i {
                    if y - 1 == i {
                        lemma_key_lt::<K>(k@, ko[i as int]@);
                    } else {
                        lemma_key_le_lt_trans::<K>(k@, ko[i as int]@, ko[y - 1]@);
                    }
                }
            }
        }
        None
    }

    /// Split in half: the leaf keeps the first `floor(n/2)` entries, the
    /// returned node receives the rest, and the returned key is the largest
    /// key remaining on the left.
    pub fn split(&mut self) -> (r: (K, Self))
        requires
            old(self).wf(),
            old(self).entries().len() >= 2,
        ensures
            final(self).wf(),
            r.1.wf(),
            final(self).entries() == old(self).entries().subrange(
                0,
                old(self).entries().len() as int / 2,
            ),
            r.1.entries() == old(self).entries().subrange(
                old(self).entries().len() as int / 2,
                old(self).entries().len() as int,
            ),
            r.0@ == old(self).entries()[old(self).entries().len() as int / 2 - 1].0,
    {
        let ghost s = self.entries();
        let left_cnt = self.keys.len() / 2;
        let mut right = LeafNode { keys: Vec::new(), values: Vec::new() };
        proof {
            assert(right.keys@ =~= self.keys@.subrange(left_cnt as int, left_cnt as int));
            assert(right.values@ =~= self.values@.subrange(left_cnt as int, left_cnt as int));
        }
        let mut j = left_cnt;
        while j < self.keys.len()
            invariant
                left_cnt <= j <= self.keys@.len(),
                left_cnt == self.keys@.len() / 2,
                self == old(self),
                old(self).wf(),
                right.keys@ == self.keys@.subrange(left_cnt as int, j as int),
                right.values@ == self.values@.subrange(left_cnt as int, j as int),
            decreases self.keys@.len() - j,
        {
            right.keys.push(self.keys[j]);
            right.values.push(self.values[j]);
            proof {
                assert(right.keys@ =~= self.keys@.subrange(left_cnt as int, j + 1));
                assert(right.values@ =~= self.values@.subrange(left_cnt as int, j + 1));
            }
            j = j + 1;
        }
        let sep = self.keys[left_cnt - 1];
        self.keys.truncate(left_cnt);
        self.values.truncate(left_cnt);
        proof {
            assert(self.entries() =~= s.subrange(0, s.len() as int / 2));
            assert(right.entries() =~= s.subrange(s.len() as int / 2, s.len() as int));
        }
        (sep, right)
    }
}

/// An internal node: `cnt` child handles separated by `cnt - 1` keys.
///
/// `keys[i]` records the maximum key reachable through `sons[i]`; the last
/// child has no recorded maximum and is unbounded above.
pub struct InternalNode<K> {
    keys: Vec<K>,
    sons: Vec<NodeIndex>,
}

impl<K: TotalOrder + Copy> InternalNode<K> {
    /// At least one child, occupancy bounded by the capacity, one key less
    /// than there are children.
    pub closed spec fn wf(self) -> bool {
        &&& 1 <= self.sons@.len() <= NODE_DEG
        &&& self.keys@.len() == self.sons@.len() - 1
    }

    /// The separator keys, in storage order.
    pub closed spec fn key_seq(self) -> Seq<K> {
        self.keys@
    }

    /// The child handles, in storage order.
    pub closed spec fn son_seq(self) -> Seq<NodeIndex> {
        self.sons@
    }

    /// What well-formedness guarantees about the observable shape.
    pub proof fn lemma_wf_arity(self)
        requires
            self.wf(),
        ensures
            1 <= self.son_seq().len() <= NODE_DEG,
            self.key_seq().len() == self.son_seq().len() - 1,
    {
    }

    /// A node with exactly one child covering the whole key space.
    pub fn new(first: NodeIndex) -> (r: Self)
        ensures
            r.wf(),
            r.key_seq() == Seq::<K>::empty(),
            r.son_seq() == seq![first],
    {
        let mut sons = Vec::new();
        sons.push(first);
        let r = InternalNode { keys: Vec::new(), sons };
        proof {
            assert(r.key_seq() =~= Seq::<K>::empty());
            assert(r.son_seq() =~= seq![first]);
        }
        r
    }

    /// Current number of children.
    pub fn cnt(&self) -> (r: usize)
        ensures
            r == self.son_seq().len(),
    {
        self.sons.len()
    }

    /// The node holds as many children as it has room for.
    pub fn full(&self) -> (r: bool)
        ensures
            r == (self.son_seq().len() == NODE_DEG),
    {
        self.sons.len() == NODE_DEG
    }

    /// The child to descend into for `k`: the leftmost child whose recorded
    /// maximum is not below `k`, or the last child when `k` exceeds every
    /// recorded maximum. Returns the child's position and handle.
    pub fn lookup(&self, k: &K) -> (r: (usize, NodeIndex))
        requires
            self.wf(),
        ensures
            r.0 as int == bs_lower::<K>(self.key_seq(), k@),
            r.0 < self.son_seq().len(),
            r.1 == self.son_seq()[r.0 as int],
    {
        let i = lower_bound(self.keys.as_slice(), k);
        (i, self.sons[i])
    }

    /// The separator key at position `i`.
    pub fn key_at(&self, i: usize) -> (r: K)
        requires
            i < self.key_seq().len(),
        ensures
            r == self.key_seq()[i as int],
    {
        self.keys[i]
    }

    /// The child handle at position `i`.
    pub fn son_at(&self, i: usize) -> (r: NodeIndex)
        requires
            i < self.son_seq().len(),
        ensures
            r == self.son_seq()[i as int],
    {
        self.sons[i]
    }

    /// Attach `right` as the child at position `pos`, recording `left_max`
    /// as the maximum of the child at `pos - 1` (the node that was just
    /// split). Appending after the previous last child stores the new key
    /// at the end; anywhere else, later keys and children shift one slot.
    /// The node must have room; the driver guarantees this by splitting
    /// beforehand.
    pub fn insert(&mut self, pos: usize, left_max: &K, right: NodeIndex)
        requires
            old(self).wf(),
            old(self).son_seq().len() < NODE_DEG,
            1 <= pos <= old(self).son_seq().len(),
        ensures
            final(self).wf(),
            final(self).key_seq() == old(self).key_seq().insert(pos - 1, *left_max),
            final(self).son_seq() == old(self).son_seq().insert(pos as int, right),
    {
        self.keys.insert(pos - 1, *left_max);
        self.sons.insert(pos, right);
    }

    /// Split in half: the node keeps the first `floor(cnt/2)` children, the
    /// returned node receives the rest, and the key that separated the two
    /// halves is consumed and returned rather than kept in either half.
    pub fn split(&mut self) -> (r: (K, Self))
        requires
            old(self).wf(),
            old(self).son_seq().len() >= 2,
        ensures
            final(self).wf(),
            r.1.wf(),
            ({
                let lc = old(self).son_seq().len() as int / 2;
                &&& final(self).son_seq() == old(self).son_seq().subrange(0, lc)
                &&& final(self).key_seq() == old(self).key_seq().subrange(0, lc - 1)
                &&& r.1.son_seq() == old(self).son_seq().subrange(
                    lc,
                    old(self).son_seq().len() as int,
                )
                &&& r.1.key_seq() == old(self).key_seq().subrange(
                    lc,
                    old(self).key_seq().len() as int,
                )
                &&& r.0 == old(self).key_seq()[lc - 1]
            }),
    {
        let left_cnt = self.sons.len() / 2;
        let mut right = InternalNode { keys: Vec::new(), sons: Vec::new() };
        proof {
            assert(right.keys@ =~= self.keys@.subrange(left_cnt as int, left_cnt as int));
            assert(right.sons@ =~= self.sons@.subrange(left_cnt as int, left_cnt as int));
        }
        let mut j = left_cnt;
        while j < self.sons.len()
            invariant
                left_cnt <= j <= self.sons@.len(),
                left_cnt == self.sons@.len() / 2,
                1 <= left_cnt,
                self == old(self),
                old(self).wf(),
                right.sons@ == self.sons@.subrange(left_cnt as int, j as int),
                right.keys@ == self.keys@.subrange(left_cnt as int, left_cnt as int),
            decreases self.sons@.len() - j,
        {
            right.sons.push(self.sons[j]);
            proof {
                assert(right.sons@ =~= self.sons@.subrange(left_cnt as int, j + 1));
            }
            j = j + 1;
        }
        let mut m = left_cnt;
        while m < self.keys.len()
            invariant
                left_cnt <= m <= self.keys@.len(),
                left_cnt == self.sons@.len() / 2,
                1 <= left_cnt,
                self == old(self),
                old(self).wf(),
                right.sons@ == self.sons@.subrange(left_cnt as int, self.sons@.len() as int),
                right.keys@ == self.keys@.subrange(left_cnt as int, m as int),
            decreases self.keys@.len() - m,
        {
            right.keys.push(self.keys[m]);
            proof {
                assert(right.keys@ =~= self.keys@.subrange(left_cnt as int, m + 1));
            }
            m = m + 1;
        }
        let sep = self.keys[left_cnt - 1];
        self.keys.truncate(left_cnt - 1);
        self.sons.truncate(left_cnt);
        (sep, right)
    }
}

} // verus!
