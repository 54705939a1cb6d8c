//! The key order: a total order on the mathematical views of key values.
//!
//! Every key type of the index implements [`TotalOrder`]: a spec-level order
//! `le` on the type's view, the laws making it a total order, and an
//! executable three-way comparison that decides `le` exactly. The search
//! primitive and both node types compare keys only through this trait.

use vstd::prelude::*;
use vstd::string::StrSliceExecFns;

verus! {

/// Outcome of a three-way key comparison.
pub enum KeyCmp {
    Less,
    Equal,
    Greater,
}

/// A key type usable by the index.
///
/// `le` is a total order on the view of the type, and `key_cmp` is the
/// executable comparison the index runs; its result decides `le` on the
/// views of the two keys.
pub trait TotalOrder: View + Sized {
    /// The order on abstract key values.
    spec fn le(a: Self::V, b: Self::V) -> bool;

    /// The order is total (and hence reflexive).
    proof fn le_total(a: Self::V, b: Self::V)
        ensures
            Self::le(a, b) || Self::le(b, a),
    ;

    /// The order is transitive.
    proof fn le_trans(a: Self::V, b: Self::V, c: Self::V)
        requires
            Self::le(a, b),
            Self::le(b, c),
        ensures
            Self::le(a, c),
    ;

    /// The order is antisymmetric: mutually ordered views are equal.
    proof fn le_antisym(a: Self::V, b: Self::V)
        requires
            Self::le(a, b),
            Self::le(b, a),
        ensures
            a == b,
    ;

    /// Three-way comparison, deciding `le` on the views.
    fn key_cmp(&self, other: &Self) -> (c: KeyCmp)
        ensures
            match c {
                KeyCmp::Less => Self::le(self@, other@) && self@ != other@,
                KeyCmp::Equal => self@ == other@,
                KeyCmp::Greater => Self::le(other@, self@) && self@ != other@,
            },
    ;
}

impl TotalOrder for u64 {
    open spec fn le(a: u64, b: u64) -> bool {
        a <= b
    }

    proof fn le_total(a: u64, b: u64) {
    }

    proof fn le_trans(a: u64, b: u64, c: u64) {
    }

    proof fn le_antisym(a: u64, b: u64) {
    }

    fn key_cmp(&self, other: &Self) -> (c: KeyCmp) {
        if *self < *other {
            KeyCmp::Less
        } else if *self == *other {
            KeyCmp::Equal
        } else {
            KeyCmp::Greater
        }
    }
}

impl TotalOrder for u16 {
    open spec fn le(a: u16, b: u16) -> bool {
        a <= b
    }

    proof fn le_total(a: u16, b: u16) {
    }

    proof fn le_trans(a: u16, b: u16, c: u16) {
    }

    proof fn le_antisym(a: u16, b: u16) {
    }

    fn key_cmp(&self, other: &Self) -> (c: KeyCmp) {
        if *self < *other {
            KeyCmp::Less
        } else if *self == *other {
            KeyCmp::Equal
        } else {
            KeyCmp::Greater
        }
    }
}

impl TotalOrder for u32 {
    open spec fn le(a: u32, b: u32) -> bool {
        a <= b
    }

    proof fn le_total(a: u32, b: u32) {
    }

    proof fn le_trans(a: u32, b: u32, c: u32) {
    }

    proof fn le_antisym(a: u32, b: u32) {
    }

    fn key_cmp(&self, other: &Self) -> (c: KeyCmp) {
        if *self < *other {
            KeyCmp::Less
        } else if *self == *other {
            KeyCmp::Equal
        } else {
            KeyCmp::Greater
        }
    }
}

impl TotalOrder for usize {
    open spec fn le(a: usize, b: usize) -> bool {
        a <= b
    }

    proof fn le_total(a: usize, b: usize) {
    }

    proof fn le_trans(a: usize, b: usize, c: usize) {
    }

    proof fn le_antisym(a: usize, b: usize) {
    }

    fn key_cmp(&self, other: &Self) -> (c: KeyCmp) {
        if *self < *other {
            KeyCmp::Less
        } else if *self == *other {
            KeyCmp::Equal
        } else {
            KeyCmp::Greater
        }
    }
}

impl TotalOrder for i32 {
    open spec fn le(a: i32, b: i32) -> bool {
        a <= b
    }

    proof fn le_total(a: i32, b: i32) {
    }

    proof fn le_trans(a: i32, b: i32, c: i32) {
    }

    proof fn le_antisym(a: i32, b: i32) {
    }

    fn key_cmp(&self, other: &Self) -> (c: KeyCmp) {
        if *self < *other {
            KeyCmp::Less
        } else if *self == *other {
            KeyCmp::Equal
        } else {
            KeyCmp::Greater
        }
    }
}

/// Lexicographic order on character sequences: the empty sequence comes
/// first; otherwise the first characters decide, and on a tie the remainders
/// are compared.
pub open spec fn str_le(a: Seq<char>, b: Seq<char>) -> bool
    decreases a.len(),
{
    if a.len() == 0 {
        true
    } else if b.len() == 0 {
        false
    } else if (a[0] as u32) < (b[0] as u32) {
        true
    } else if (b[0] as u32) < (a[0] as u32) {
        false
    } else {
        str_le(a.drop_first(), b.drop_first())
    }
}

pub proof fn lemma_str_le_total(a: Seq<char>, b: Seq<char>)
    ensures
        str_le(a, b) || str_le(b, a),
    decreases a.len(),
{
    if a.len() != 0 && b.len() != 0 && !((a[0] as u32) < (b[0] as u32)) && !((b[0] as u32) < (
    a[0] as u32)) {
        lemma_str_le_total(a.drop_first(), b.drop_first());
    }
}

pub proof fn lemma_str_le_trans(a: Seq<char>, b: Seq<char>, c: Seq<char>)
    requires
        str_le(a, b),
        str_le(b, c),
    ensures
        str_le(a, c),
    decreases a.len(),
{
    if a.len() != 0 && b.len() != 0 && c.len() != 0 {
        if !((a[0] as u32) < (c[0] as u32)) && !((c[0] as u32) < (a[0] as u32)) {
            lemma_str_le_trans(a.drop_first(), b.drop_first(), c.drop_first());
        }
    }
}

pub proof fn lemma_str_le_antisym(a: Seq<char>, b: Seq<char>)
    requires
        str_le(a, b),
        str_le(b, a),
    ensures
        a == b,
    decreases a.len(),
{
    if a.len() == 0 {
        assert(a =~= b);
    } else {
        lemma_str_le_antisym(a.drop_first(), b.drop_first());
        assert(a[0] as u32 == b[0] as u32);
        vstd::utf8::char_u32_cast(a[0], a[0] as u32);
        vstd::utf8::char_u32_cast(b[0], b[0] as u32);
        assert(a[0] == b[0]);
        assert(a.len() == b.len());
        assert forall|j: int| 0 <= j < a.len() implies a[j] == b[j] by {
            if j > 0 {
                assert(a[j] == a.drop_first()[j - 1]);
                assert(b[j] == b.drop_first()[j - 1]);
            }
        }
        assert(a =~= b);
    }
}

/// A shared proper prefix followed by a smaller character puts `a` before `b`.
proof fn lemma_str_le_from_first_diff(a: Seq<char>, b: Seq<char>, i: int)
    requires
        0 <= i < a.len(),
        i < b.len(),
        forall|j: int| 0 <= j < i ==> a[j] == b[j],
        (a[i] as u32) < (b[i] as u32),
    ensures
        str_le(a, b),
        !str_le(b, a),
    decreases i,
{
    if i == 0 {
    } else {
        lemma_str_le_from_first_diff(a.drop_first(), b.drop_first(), i - 1);
    }
}

/// A prefix comes no later than the full sequence.
proof fn lemma_str_le_prefix(a: Seq<char>, b: Seq<char>)
    requires
        a.len() <= b.len(),
        forall|j: int| 0 <= j < a.len() ==> a[j] == b[j],
    ensures
        str_le(a, b),
    decreases a.len(),
{
    if a.len() != 0 {
        lemma_str_le_prefix(a.drop_first(), b.drop_first());
    }
}

impl<'a> TotalOrder for &'a str {
    open spec fn le(a: Seq<char>, b: Seq<char>) -> bool {
        str_le(a, b)
    }

    proof fn le_total(a: Seq<char>, b: Seq<char>) {
        lemma_str_le_total(a, b);
    }

    proof fn le_trans(a: Seq<char>, b: Seq<char>, c: Seq<char>) {
        lemma_str_le_trans(a, b, c);
    }

    proof fn le_antisym(a: Seq<char>, b: Seq<char>) {
        lemma_str_le_antisym(a, b);
    }

    fn key_cmp(&self, other: &Self) -> (c: KeyCmp) {
        let n1 = self.unicode_len();
        let n2 = other.unicode_len();
        let n = if n1 < n2 {
            n1
        } else {
            n2
        };
        let mut i: usize = 0;
        while i < n
            invariant
                0 <= i <= n,
                n1 == self@.len(),
                n2 == other@.len(),
                n == if n1 < n2 {
                    n1
                } else {
                    n2
                },
                forall|j: int| 0 <= j < i ==> self@[j] == other@[j],
            decreases n - i,
        {
            let c1 = self.get_char(i);
            let c2 = other.get_char(i);
            if (c1 as u32) < (c2 as u32) {
                proof {
                    lemma_str_le_from_first_diff(self@, other@, i as int);
                    if self@ == other@ {
                        assert(false);
                    }
                }
                return KeyCmp::Less;
            }
            if (c2 as u32) < (c1 as u32) {
                proof {
                    lemma_str_le_from_first_diff(other@, self@, i as int);
                    if self@ == other@ {
                        assert(false);
                    }
                }
                return KeyCmp::Greater;
            }
            proof {
                vstd::utf8::char_u32_cast(c1, c1 as u32);
                vstd::utf8::char_u32_cast(c2, c2 as u32);
                assert(c1 == c2);
            }
            i = i + 1;
        }
        if n1 < n2 {
            proof {
                lemma_str_le_prefix(self@, other@);
                if self@ == other@ {
                    assert(false);
                }
            }
            KeyCmp::Less
        } else if n2 < n1 {
            proof {
                lemma_str_le_prefix(other@, self@);
                if self@ == other@ {
                    assert(false);
                }
            }
            KeyCmp::Greater
        } else {
            proof {
                assert(self@ =~= other@);
            }
            KeyCmp::Equal
        }
    }
}

} // verus!
