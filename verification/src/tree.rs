//! The tree driver: owns the two node arenas and the root handle, and walks
//! handles top-down for lookup and for the single-pass, pre-emptive
//! split-and-insert.
//!
//! The structural invariant is indexed by a ghost height: every handle stays
//! inside its arena, every leaf sits at depth zero, and every node is
//! locally well-formed. A node's depth is unique, which rules out cycles
//! along any descent path.

use vstd::prelude::*;
use crate::node::assoc_find;
use crate::node::entries_sorted;
use crate::node::lemma_assoc_find_hit;
use crate::node::lemma_assoc_find_some_index;
use crate::node::lemma_assoc_find_subrange;
use crate::node::lemma_assoc_half_left;
use crate::node::lemma_assoc_half_right;
use crate::node::lemma_upsert_keys;
use crate::node::lemma_upsert_preserves_others;
use crate::node::lemma_upsert_then_find;
use crate::node::upsert_entries;
use crate::node::InternalNode;
use crate::node::LeafNode;
use crate::node::NodeIndex;
use crate::node::NODE_DEG;
use crate::order::KeyCmp;
use crate::order::TotalOrder;
use crate::search::bs_lower;
use crate::search::key_lt;
use crate::search::lemma_bs_lower_sorted;
use crate::search::lemma_bs_lower_unique;
use crate::search::lemma_key_lt;
use crate::search::lemma_key_lt_le_trans;
use crate::search::lemma_strictly_sorted_implies_sorted;
use crate::search::strictly_sorted;

verus! {

/// `x` lies strictly above the lower bound `lo` (`None` is unbounded).
spec fn above<K: TotalOrder>(lo: Option<K::V>, x: K::V) -> bool {
    match lo {
        None => true,
        Some(l) => key_lt::<K>(l, x),
    }
}

/// `x` lies at or below the upper bound `hi` (`None` is unbounded).
spec fn at_most<K: TotalOrder>(hi: Option<K::V>, x: K::V) -> bool {
    match hi {
        None => true,
        Some(h) => K::le(x, h),
    }
}

/// `x` lies in the half-open key interval `(lo, hi]`.
spec fn in_range<K: TotalOrder>(lo: Option<K::V>, hi: Option<K::V>, x: K::V) -> bool {
    above::<K>(lo, x) && at_most::<K>(hi, x)
}

/// Lower end of the interval a node assigns to its `j`-th child.
spec fn son_lo<K: TotalOrder + Copy>(n: InternalNode<K>, lo: Option<K::V>, j: int) -> Option<
    K::V,
> {
    if j == 0 {
        lo
    } else {
        Some(n.key_seq()[j - 1]@)
    }
}

/// Upper end of the interval a node assigns to its `j`-th child.
spec fn son_hi<K: TotalOrder + Copy>(n: InternalNode<K>, hi: Option<K::V>, j: int) -> Option<
    K::V,
> {
    if j == n.son_seq().len() - 1 {
        hi
    } else {
        Some(n.key_seq()[j]@)
    }
}

/// Structural and ordering well-formedness of the subtree rooted at `h` at
/// depth `d`, covering the key interval `(lo, hi]`: handles stay inside
/// their arenas, every leaf sits at depth zero, separator keys ascend
/// strictly, and every key stored in the subtree lies in the interval.
/// Each separator bounds the keys reachable through the child left of it;
/// the last child is bounded only by `hi`.
spec fn wf_node<K: TotalOrder + Copy, V: Copy>(
    ia: Seq<InternalNode<K>>,
    la: Seq<LeafNode<K, V>>,
    h: NodeIndex,
    d: nat,
    lo: Option<K::V>,
    hi: Option<K::V>,
) -> bool
    decreases d,
{
    match h {
        NodeIndex::Leaf(id) => d == 0 && id < la.len() && la[id as int].wf() && (forall|e: int|
            0 <= e < la[id as int].entries().len() ==> in_range::<K>(
                lo,
                hi,
                (#[trigger] la[id as int].entries()[e]).0,
            )),
        NodeIndex::Internal(id) => d >= 1 && id < ia.len() && ia[id as int].wf()
            && strictly_sorted::<K>(ia[id as int].key_seq()) && (forall|e: int|
            0 <= e < ia[id as int].key_seq().len() ==> in_range::<K>(
                lo,
                hi,
                (#[trigger] ia[id as int].key_seq()[e])@,
            )) && (forall|j: int|
            0 <= j < ia[id as int].son_seq().len() ==> wf_node(
                ia,
                la,
                #[trigger] ia[id as int].son_seq()[j],
                (d - 1) as nat,
                son_lo::<K>(ia[id as int], lo, j),
                son_hi::<K>(ia[id as int], hi, j),
            )),
    }
}

/// The handle of the leaf that the top-down descent for `k` reaches from
/// `h`. Total: on a malformed tree it stops at the offending handle.
spec fn find_slot<K: TotalOrder + Copy>(
    ia: Seq<InternalNode<K>>,
    h: NodeIndex,
    d: nat,
    k: K::V,
) -> NodeIndex
    decreases d,
{
    match h {
        NodeIndex::Leaf(_) => h,
        NodeIndex::Internal(id) => if d == 0 || id >= ia.len() {
            h
        } else {
            let j = bs_lower::<K>(ia[id as int].key_seq(), k);
            if 0 <= j < ia[id as int].son_seq().len() {
                find_slot::<K>(ia, ia[id as int].son_seq()[j], (d - 1) as nat, k)
            } else {
                h
            }
        },
    }
}

/// What the descent for `k` from `h` observes: the entry stored under `k`
/// in the leaf it reaches.
spec fn find_at<K: TotalOrder + Copy, V: Copy>(
    ia: Seq<InternalNode<K>>,
    la: Seq<LeafNode<K, V>>,
    h: NodeIndex,
    d: nat,
    k: K::V,
) -> Option<V> {
    match find_slot::<K>(ia, h, d, k) {
        NodeIndex::Leaf(id) => if id < la.len() {
            assoc_find::<K::V, V>(la[id as int].entries(), k)
        } else {
            None
        },
        NodeIndex::Internal(_) => None,
    }
}

/// The descent for `k` from `h` (depth `dh`, interval `(lo, hi]`) passes
/// through `t` at depth `dt`, where the interval has narrowed to
/// `(lot, hit]`.
spec fn route_ctx<K: TotalOrder + Copy>(
    ia: Seq<InternalNode<K>>,
    h: NodeIndex,
    dh: nat,
    lo: Option<K::V>,
    hi: Option<K::V>,
    k: K::V,
    t: NodeIndex,
    dt: nat,
    lot: Option<K::V>,
    hit: Option<K::V>,
) -> bool
    decreases dh,
{
    (h == t && dh == dt && lo == lot && hi == hit) || (dh > dt && match h {
        NodeIndex::Internal(id) => id < ia.len() && {
            let j = bs_lower::<K>(ia[id as int].key_seq(), k);
            0 <= j < ia[id as int].son_seq().len() && route_ctx::<K>(
                ia,
                ia[id as int].son_seq()[j],
                (dh - 1) as nat,
                son_lo::<K>(ia[id as int], lo, j),
                son_hi::<K>(ia[id as int], hi, j),
                k,
                t,
                dt,
                lot,
                hit,
            )
        },
        NodeIndex::Leaf(_) => false,
    })
}

/// `t` is a node of the subtree rooted at `h`.
spec fn reaches<K: TotalOrder + Copy>(
    ia: Seq<InternalNode<K>>,
    h: NodeIndex,
    d: nat,
    t: NodeIndex,
) -> bool
    decreases d,
{
    h == t || (match h {
        NodeIndex::Internal(id) => d >= 1 && id < ia.len() && exists|j: int|
            0 <= j < ia[id as int].son_seq().len() && reaches::<K>(
                ia,
                #[trigger] ia[id as int].son_seq()[j],
                (d - 1) as nat,
                t,
            ),
        NodeIndex::Leaf(_) => false,
    })
}

/// Every child handle stored anywhere in the internal arena addresses an
/// existing arena slot.
spec fn sons_ok<K: TotalOrder + Copy>(ia: Seq<InternalNode<K>>, la_len: int) -> bool {
    forall|a: int, j: int|
        0 <= a < ia.len() && 0 <= j < ia[a].son_seq().len() ==> (match #[trigger] ia[a].son_seq()[
            j
        ] {
            NodeIndex::Internal(y) => y < ia.len(),
            NodeIndex::Leaf(y) => y < la_len,
        })
}

/// No two child slots of the internal arena hold the same handle: every
/// node has at most one parent.
spec fn sons_inj<K: TotalOrder + Copy>(ia: Seq<InternalNode<K>>) -> bool {
    forall|a: int, j: int, b: int, m: int|
        0 <= a < ia.len() && 0 <= j < ia[a].son_seq().len() && 0 <= b < ia.len() && 0 <= m
            < ia[b].son_seq().len() && #[trigger] ia[a].son_seq()[j] == #[trigger] ia[b].son_seq()[
            m
        ] ==> a == b && j == m
}

/// The root is nobody's child.
spec fn root_not_son<K: TotalOrder + Copy>(ia: Seq<InternalNode<K>>, root: NodeIndex) -> bool {
    forall|a: int, j: int|
        0 <= a < ia.len() && 0 <= j < ia[a].son_seq().len() ==> #[trigger] ia[a].son_seq()[j]
            != root
}

/// A node's depth under the structural invariant is unique.
proof fn lemma_wf_depth_unique<K: TotalOrder + Copy, V: Copy>(
    ia: Seq<InternalNode<K>>,
    la: Seq<LeafNode<K, V>>,
    h: NodeIndex,
    d1: nat,
    lo1: Option<K::V>,
    hi1: Option<K::V>,
    d2: nat,
    lo2: Option<K::V>,
    hi2: Option<K::V>,
)
    requires
        wf_node::<K, V>(ia, la, h, d1, lo1, hi1),
        wf_node::<K, V>(ia, la, h, d2, lo2, hi2),
    ensures
        d1 == d2,
    decreases d1,
{
    match h {
        NodeIndex::Leaf(_) => {},
        NodeIndex::Internal(id) => {
            ia[id as int].lemma_wf_arity();
            let son = ia[id as int].son_seq()[0];
            lemma_wf_depth_unique::<K, V>(
                ia,
                la,
                son,
                (d1 - 1) as nat,
                son_lo::<K>(ia[id as int], lo1, 0),
                son_hi::<K>(ia[id as int], hi1, 0),
                (d2 - 1) as nat,
                son_lo::<K>(ia[id as int], lo2, 0),
                son_hi::<K>(ia[id as int], hi2, 0),
            );
        },
    }
}

/// A node of a well-formed subtree is itself well-formed, at a depth no
/// greater than the subtree's.
proof fn lemma_reach_wf<K: TotalOrder + Copy, V: Copy>(
    ia: Seq<InternalNode<K>>,
    la: Seq<LeafNode<K, V>>,
    h: NodeIndex,
    d: nat,
    lo: Option<K::V>,
    hi: Option<K::V>,
    t: NodeIndex,
)
    requires
        wf_node::<K, V>(ia, la, h, d, lo, hi),
        reaches::<K>(ia, h, d, t),
    ensures
        exists|d2: nat, lo2: Option<K::V>, hi2: Option<K::V>|
            d2 <= d && wf_node::<K, V>(ia, la, t, d2, lo2, hi2),
    decreases d,
{
    if h == t {
        assert(d <= d && wf_node::<K, V>(ia, la, t, d, lo, hi));
    } else {
        match h {
            NodeIndex::Internal(id) => {
                let j = choose|j: int|
                    0 <= j < ia[id as int].son_seq().len() && reaches::<K>(
                        ia,
                        #[trigger] ia[id as int].son_seq()[j],
                        (d - 1) as nat,
                        t,
                    );
                lemma_reach_wf::<K, V>(
                    ia,
                    la,
                    ia[id as int].son_seq()[j],
                    (d - 1) as nat,
                    son_lo::<K>(ia[id as int], lo, j),
                    son_hi::<K>(ia[id as int], hi, j),
                    t,
                );
            },
            NodeIndex::Leaf(_) => {},
        }
    }
}

/// Well-formed nodes of equal depth sharing a descendant are the same
/// node: with one parent per node, distinct subtrees are disjoint.
proof fn lemma_reach_disjoint<K: TotalOrder + Copy, V: Copy>(
    ia: Seq<InternalNode<K>>,
    la: Seq<LeafNode<K, V>>,
    s1: NodeIndex,
    s2: NodeIndex,
    d: nat,
    lo1: Option<K::V>,
    hi1: Option<K::V>,
    lo2: Option<K::V>,
    hi2: Option<K::V>,
    t: NodeIndex,
)
    requires
        sons_inj::<K>(ia),
        wf_node::<K, V>(ia, la, s1, d, lo1, hi1),
        wf_node::<K, V>(ia, la, s2, d, lo2, hi2),
        reaches::<K>(ia, s1, d, t),
        reaches::<K>(ia, s2, d, t),
    ensures
        s1 == s2,
    decreases d,
{
    if s1 == s2 {
    } else if s1 == t {
        match s2 {
            NodeIndex::Internal(id2) => {
                let j2 = choose|j: int|
                    0 <= j < ia[id2 as int].son_seq().len() && reaches::<K>(
                        ia,
                        #[trigger] ia[id2 as int].son_seq()[j],
                        (d - 1) as nat,
                        t,
                    );
                let c2 = ia[id2 as int].son_seq()[j2];
                lemma_reach_wf::<K, V>(
                    ia,
                    la,
                    c2,
                    (d - 1) as nat,
                    son_lo::<K>(ia[id2 as int], lo2, j2),
                    son_hi::<K>(ia[id2 as int], hi2, j2),
                    t,
                );
                let (dd, llo, hhi) = choose|dd: nat, llo: Option<K::V>, hhi: Option<K::V>|
                    dd <= (d - 1) as nat && wf_node::<K, V>(ia, la, t, dd, llo, hhi);
                lemma_wf_depth_unique::<K, V>(ia, la, t, dd, llo, hhi, d, lo1, hi1);
            },
            NodeIndex::Leaf(_) => {},
        }
    } else if s2 == t {
        match s1 {
            NodeIndex::Internal(id1) => {
                let j1 = choose|j: int|
                    0 <= j < ia[id1 as int].son_seq().len() && reaches::<K>(
                        ia,
                        #[trigger] ia[id1 as int].son_seq()[j],
                        (d - 1) as nat,
                        t,
                    );
                let c1 = ia[id1 as int].son_seq()[j1];
                lemma_reach_wf::<K, V>(
                    ia,
                    la,
                    c1,
                    (d - 1) as nat,
                    son_lo::<K>(ia[id1 as int], lo1, j1),
                    son_hi::<K>(ia[id1 as int], hi1, j1),
                    t,
                );
                let (dd, llo, hhi) = choose|dd: nat, llo: Option<K::V>, hhi: Option<K::V>|
                    dd <= (d - 1) as nat && wf_node::<K, V>(ia, la, t, dd, llo, hhi);
                lemma_wf_depth_unique::<K, V>(ia, la, t, dd, llo, hhi, d, lo2, hi2);
            },
            NodeIndex::Leaf(_) => {},
        }
    } else {
        match (s1, s2) {
            (NodeIndex::Internal(id1), NodeIndex::Internal(id2)) => {
                let j1 = choose|j: int|
                    0 <= j < ia[id1 as int].son_seq().len() && reaches::<K>(
                        ia,
                        #[trigger] ia[id1 as int].son_seq()[j],
                        (d - 1) as nat,
                        t,
                    );
                let j2 = choose|j: int|
                    0 <= j < ia[id2 as int].son_seq().len() && reaches::<K>(
                        ia,
                        #[trigger] ia[id2 as int].son_seq()[j],
                        (d - 1) as nat,
                        t,
                    );
                let c1 = ia[id1 as int].son_seq()[j1];
                let c2 = ia[id2 as int].son_seq()[j2];
                if c1 == c2 {
                    assert(id1 as int == id2 as int && j1 == j2);
                } else {
                    lemma_reach_disjoint::<K, V>(
                        ia,
                        la,
                        c1,
                        c2,
                        (d - 1) as nat,
                        son_lo::<K>(ia[id1 as int], lo1, j1),
                        son_hi::<K>(ia[id1 as int], hi1, j1),
                        son_lo::<K>(ia[id2 as int], lo2, j2),
                        son_hi::<K>(ia[id2 as int], hi2, j2),
                        t,
                    );
                }
            },
            _ => {},
        }
    }
}

/// A subtree that never visits internal slot `x` is untouched by rewriting
/// it; the arenas may also grow.
proof fn lemma_wf_frame_i<K: TotalOrder + Copy, V: Copy>(
    ia: Seq<InternalNode<K>>,
    ia2: Seq<InternalNode<K>>,
    la: Seq<LeafNode<K, V>>,
    la2: Seq<LeafNode<K, V>>,
    h: NodeIndex,
    d: nat,
    lo: Option<K::V>,
    hi: Option<K::V>,
    x: int,
)
    requires
        wf_node::<K, V>(ia, la, h, d, lo, hi),
        !reaches::<K>(ia, h, d, NodeIndex::Internal(x as usize)),
        ia.len() <= ia2.len(),
        la.len() <= la2.len(),
        forall|y: int| 0 <= y < ia.len() && y != x ==> ia2[y] == ia[y],
        forall|y: int| 0 <= y < la.len() ==> la2[y] == la[y],
    ensures
        wf_node::<K, V>(ia2, la2, h, d, lo, hi),
    decreases d,
{
    match h {
        NodeIndex::Leaf(_) => {},
        NodeIndex::Internal(id) => {
            assert(h != NodeIndex::Internal(x as usize));
            assert forall|j: int|
                0 <= j < ia2[id as int].son_seq().len() implies wf_node::<K, V>(
                ia2,
                la2,
                #[trigger] ia2[id as int].son_seq()[j],
                (d - 1) as nat,
                son_lo::<K>(ia2[id as int], lo, j),
                son_hi::<K>(ia2[id as int], hi, j),
            ) by {
                let son = ia[id as int].son_seq()[j];
                if reaches::<K>(ia, son, (d - 1) as nat, NodeIndex::Internal(x as usize)) {
                    assert(reaches::<K>(ia, h, d, NodeIndex::Internal(x as usize)));
                }
                lemma_wf_frame_i::<K, V>(
                    ia,
                    ia2,
                    la,
                    la2,
                    son,
                    (d - 1) as nat,
                    son_lo::<K>(ia[id as int], lo, j),
                    son_hi::<K>(ia[id as int], hi, j),
                    x,
                );
            }
        },
    }
}

/// A subtree that never visits leaf slot `x` is untouched by rewriting it;
/// the arenas may also grow.
proof fn lemma_wf_frame_l<K: TotalOrder + Copy, V: Copy>(
    ia: Seq<InternalNode<K>>,
    la: Seq<LeafNode<K, V>>,
    la2: Seq<LeafNode<K, V>>,
    h: NodeIndex,
    d: nat,
    lo: Option<K::V>,
    hi: Option<K::V>,
    x: int,
)
    requires
        wf_node::<K, V>(ia, la, h, d, lo, hi),
        !reaches::<K>(ia, h, d, NodeIndex::Leaf(x as usize)),
        la.len() <= la2.len(),
        forall|y: int| 0 <= y < la.len() && y != x ==> la2[y] == la[y],
    ensures
        wf_node::<K, V>(ia, la2, h, d, lo, hi),
    decreases d,
{
    match h {
        NodeIndex::Leaf(_) => {},
        NodeIndex::Internal(id) => {
            assert forall|j: int|
                0 <= j < ia[id as int].son_seq().len() implies wf_node::<K, V>(
                ia,
                la2,
                #[trigger] ia[id as int].son_seq()[j],
                (d - 1) as nat,
                son_lo::<K>(ia[id as int], lo, j),
                son_hi::<K>(ia[id as int], hi, j),
            ) by {
                let son = ia[id as int].son_seq()[j];
                if reaches::<K>(ia, son, (d - 1) as nat, NodeIndex::Leaf(x as usize)) {
                    assert(reaches::<K>(ia, h, d, NodeIndex::Leaf(x as usize)));
                }
                lemma_wf_frame_l::<K, V>(
                    ia,
                    la,
                    la2,
                    son,
                    (d - 1) as nat,
                    son_lo::<K>(ia[id as int], lo, j),
                    son_hi::<K>(ia[id as int], hi, j),
                    x,
                );
            }
        },
    }
}

/// A descent through a subtree that never visits the rewritten internal
/// slots is unchanged by rewriting them; the arenas may also grow.
proof fn lemma_find_slot_frame<K: TotalOrder + Copy, V: Copy>(
    ia: Seq<InternalNode<K>>,
    ia2: Seq<InternalNode<K>>,
    la: Seq<LeafNode<K, V>>,
    h: NodeIndex,
    d: nat,
    lo: Option<K::V>,
    hi: Option<K::V>,
    x1: int,
    x2: int,
    k2: K::V,
)
    requires
        wf_node::<K, V>(ia, la, h, d, lo, hi),
        !reaches::<K>(ia, h, d, NodeIndex::Internal(x1 as usize)),
        !reaches::<K>(ia, h, d, NodeIndex::Internal(x2 as usize)),
        ia.len() <= ia2.len(),
        forall|y: int| 0 <= y < ia.len() && y != x1 && y != x2 ==> ia2[y] == ia[y],
    ensures
        find_slot::<K>(ia2, h, d, k2) == find_slot::<K>(ia, h, d, k2),
    decreases d,
{
    match h {
        NodeIndex::Leaf(_) => {},
        NodeIndex::Internal(id) => {
            assert(h != NodeIndex::Internal(x1 as usize));
            assert(h != NodeIndex::Internal(x2 as usize));
            let j = bs_lower::<K>(ia[id as int].key_seq(), k2);
            if 0 <= j < ia[id as int].son_seq().len() {
                let son = ia[id as int].son_seq()[j];
                if reaches::<K>(ia, son, (d - 1) as nat, NodeIndex::Internal(x1 as usize)) {
                    assert(reaches::<K>(ia, h, d, NodeIndex::Internal(x1 as usize)));
                }
                if reaches::<K>(ia, son, (d - 1) as nat, NodeIndex::Internal(x2 as usize)) {
                    assert(reaches::<K>(ia, h, d, NodeIndex::Internal(x2 as usize)));
                }
                lemma_find_slot_frame::<K, V>(
                    ia,
                    ia2,
                    la,
                    son,
                    (d - 1) as nat,
                    son_lo::<K>(ia[id as int], lo, j),
                    son_hi::<K>(ia[id as int], hi, j),
                    x1,
                    x2,
                    k2,
                );
            }
        },
    }
}

/// Appending to either arena disturbs no existing subtree.
proof fn lemma_wf_grow<K: TotalOrder + Copy, V: Copy>(
    ia: Seq<InternalNode<K>>,
    la: Seq<LeafNode<K, V>>,
    ia2: Seq<InternalNode<K>>,
    la2: Seq<LeafNode<K, V>>,
    h: NodeIndex,
    d: nat,
    lo: Option<K::V>,
    hi: Option<K::V>,
)
    requires
        wf_node::<K, V>(ia, la, h, d, lo, hi),
        ia.len() <= ia2.len(),
        la.len() <= la2.len(),
        forall|x: int| 0 <= x < ia.len() ==> ia2[x] == ia[x],
        forall|x: int| 0 <= x < la.len() ==> la2[x] == la[x],
    ensures
        wf_node::<K, V>(ia2, la2, h, d, lo, hi),
    decreases d,
{
    match h {
        NodeIndex::Leaf(_) => {},
        NodeIndex::Internal(id) => {
            assert forall|j: int|
                0 <= j < ia2[id as int].son_seq().len() implies wf_node::<K, V>(
                ia2,
                la2,
                #[trigger] ia2[id as int].son_seq()[j],
                (d - 1) as nat,
                son_lo::<K>(ia2[id as int], lo, j),
                son_hi::<K>(ia2[id as int], hi, j),
            ) by {
                lemma_wf_grow::<K, V>(
                    ia,
                    la,
                    ia2,
                    la2,
                    ia[id as int].son_seq()[j],
                    (d - 1) as nat,
                    son_lo::<K>(ia[id as int], lo, j),
                    son_hi::<K>(ia[id as int], hi, j),
                );
            }
        },
    }
}

/// Widening the covering interval keeps a subtree well-formed.
proof fn lemma_wf_widen<K: TotalOrder + Copy, V: Copy>(
    ia: Seq<InternalNode<K>>,
    la: Seq<LeafNode<K, V>>,
    h: NodeIndex,
    d: nat,
    lo: Option<K::V>,
    hi: Option<K::V>,
    lo2: Option<K::V>,
    hi2: Option<K::V>,
)
    requires
        wf_node::<K, V>(ia, la, h, d, lo, hi),
        forall|x: K::V| above::<K>(lo, x) ==> above::<K>(lo2, x),
        forall|x: K::V| at_most::<K>(hi, x) ==> at_most::<K>(hi2, x),
    ensures
        wf_node::<K, V>(ia, la, h, d, lo2, hi2),
    decreases d,
{
    match h {
        NodeIndex::Leaf(_) => {},
        NodeIndex::Internal(id) => {
            let n = ia[id as int];
            assert forall|j: int|
                0 <= j < n.son_seq().len() implies wf_node::<K, V>(
                ia,
                la,
                #[trigger] n.son_seq()[j],
                (d - 1) as nat,
                son_lo::<K>(n, lo2, j),
                son_hi::<K>(n, hi2, j),
            ) by {
                lemma_wf_widen::<K, V>(
                    ia,
                    la,
                    n.son_seq()[j],
                    (d - 1) as nat,
                    son_lo::<K>(n, lo, j),
                    son_hi::<K>(n, hi, j),
                    son_lo::<K>(n, lo2, j),
                    son_hi::<K>(n, hi2, j),
                );
            }
        },
    }
}

/// The descent from `h` is the descent from any node on its route.
proof fn lemma_route_find_slot<K: TotalOrder + Copy>(
    ia: Seq<InternalNode<K>>,
    h: NodeIndex,
    dh: nat,
    lo: Option<K::V>,
    hi: Option<K::V>,
    k: K::V,
    t: NodeIndex,
    dt: nat,
    lot: Option<K::V>,
    hit: Option<K::V>,
)
    requires
        route_ctx::<K>(ia, h, dh, lo, hi, k, t, dt, lot, hit),
    ensures
        find_slot::<K>(ia, h, dh, k) == find_slot::<K>(ia, t, dt, k),
    decreases dh,
{
    if h == t && dh == dt {
    } else {
        match h {
            NodeIndex::Internal(id) => {
                let j = bs_lower::<K>(ia[id as int].key_seq(), k);
                lemma_route_find_slot::<K>(
                    ia,
                    ia[id as int].son_seq()[j],
                    (dh - 1) as nat,
                    son_lo::<K>(ia[id as int], lo, j),
                    son_hi::<K>(ia[id as int], hi, j),
                    k,
                    t,
                    dt,
                    lot,
                    hit,
                );
            },
            NodeIndex::Leaf(_) => {},
        }
    }
}

/// A route is in particular a containment.
proof fn lemma_route_reaches<K: TotalOrder + Copy>(
    ia: Seq<InternalNode<K>>,
    h: NodeIndex,
    dh: nat,
    lo: Option<K::V>,
    hi: Option<K::V>,
    k: K::V,
    t: NodeIndex,
    dt: nat,
    lot: Option<K::V>,
    hit: Option<K::V>,
)
    requires
        route_ctx::<K>(ia, h, dh, lo, hi, k, t, dt, lot, hit),
    ensures
        reaches::<K>(ia, h, dh, t),
    decreases dh,
{
    if h == t && dh == dt {
    } else {
        match h {
            NodeIndex::Internal(id) => {
                let j = bs_lower::<K>(ia[id as int].key_seq(), k);
                lemma_route_reaches::<K>(
                    ia,
                    ia[id as int].son_seq()[j],
                    (dh - 1) as nat,
                    son_lo::<K>(ia[id as int], lo, j),
                    son_hi::<K>(ia[id as int], hi, j),
                    k,
                    t,
                    dt,
                    lot,
                    hit,
                );
                assert(reaches::<K>(ia, h, dh, t));
            },
            NodeIndex::Leaf(_) => {},
        }
    }
}

/// Every node on a route is well-formed at the route's interval.
proof fn lemma_route_wf<K: TotalOrder + Copy, V: Copy>(
    ia: Seq<InternalNode<K>>,
    la: Seq<LeafNode<K, V>>,
    h: NodeIndex,
    dh: nat,
    lo: Option<K::V>,
    hi: Option<K::V>,
    k: K::V,
    t: NodeIndex,
    dt: nat,
    lot: Option<K::V>,
    hit: Option<K::V>,
)
    requires
        wf_node::<K, V>(ia, la, h, dh, lo, hi),
        route_ctx::<K>(ia, h, dh, lo, hi, k, t, dt, lot, hit),
    ensures
        wf_node::<K, V>(ia, la, t, dt, lot, hit),
    decreases dh,
{
    if h == t && dh == dt {
    } else {
        match h {
            NodeIndex::Internal(id) => {
                let j = bs_lower::<K>(ia[id as int].key_seq(), k);
                lemma_route_wf::<K, V>(
                    ia,
                    la,
                    ia[id as int].son_seq()[j],
                    (dh - 1) as nat,
                    son_lo::<K>(ia[id as int], lo, j),
                    son_hi::<K>(ia[id as int], hi, j),
                    k,
                    t,
                    dt,
                    lot,
                    hit,
                );
            },
            NodeIndex::Leaf(_) => {},
        }
    }
}

/// A route survives rewrites of slots at or below its endpoint's depth:
/// every node it steps through sits strictly above them.
proof fn lemma_route_frame<K: TotalOrder + Copy, V: Copy>(
    ia: Seq<InternalNode<K>>,
    ia2: Seq<InternalNode<K>>,
    la: Seq<LeafNode<K, V>>,
    h: NodeIndex,
    dh: nat,
    lo: Option<K::V>,
    hi: Option<K::V>,
    k: K::V,
    t: NodeIndex,
    dt: nat,
    lot: Option<K::V>,
    hit: Option<K::V>,
    x1: int,
    dx1: nat,
    lox1: Option<K::V>,
    hix1: Option<K::V>,
    x2: int,
    dx2: nat,
    lox2: Option<K::V>,
    hix2: Option<K::V>,
)
    requires
        wf_node::<K, V>(ia, la, h, dh, lo, hi),
        route_ctx::<K>(ia, h, dh, lo, hi, k, t, dt, lot, hit),
        0 <= x1 < ia.len(),
        0 <= x2 < ia.len(),
        ia.len() <= ia2.len(),
        forall|y: int| 0 <= y < ia.len() && y != x1 && y != x2 ==> ia2[y] == ia[y],
        wf_node::<K, V>(ia, la, NodeIndex::Internal(x1 as usize), dx1, lox1, hix1),
        wf_node::<K, V>(ia, la, NodeIndex::Internal(x2 as usize), dx2, lox2, hix2),
        dx1 <= dt,
        dx2 <= dt,
    ensures
        route_ctx::<K>(ia2, h, dh, lo, hi, k, t, dt, lot, hit),
    decreases dh,
{
    if h == t && dh == dt {
    } else {
        match h {
            NodeIndex::Internal(id) => {
                if id == x1 as usize {
                    lemma_wf_depth_unique::<K, V>(ia, la, h, dh, lo, hi, dx1, lox1, hix1);
                }
                if id == x2 as usize {
                    lemma_wf_depth_unique::<K, V>(ia, la, h, dh, lo, hi, dx2, lox2, hix2);
                }
                let j = bs_lower::<K>(ia[id as int].key_seq(), k);
                lemma_route_frame::<K, V>(
                    ia,
                    ia2,
                    la,
                    ia[id as int].son_seq()[j],
                    (dh - 1) as nat,
                    son_lo::<K>(ia[id as int], lo, j),
                    son_hi::<K>(ia[id as int], hi, j),
                    k,
                    t,
                    dt,
                    lot,
                    hit,
                    x1,
                    dx1,
                    lox1,
                    hix1,
                    x2,
                    dx2,
                    lox2,
                    hix2,
                );
            },
            NodeIndex::Leaf(_) => {},
        }
    }
}

/// A route survives appending to the internal arena.
proof fn lemma_route_grow<K: TotalOrder + Copy>(
    ia: Seq<InternalNode<K>>,
    ia2: Seq<InternalNode<K>>,
    h: NodeIndex,
    dh: nat,
    lo: Option<K::V>,
    hi: Option<K::V>,
    k: K::V,
    t: NodeIndex,
    dt: nat,
    lot: Option<K::V>,
    hit: Option<K::V>,
)
    requires
        route_ctx::<K>(ia, h, dh, lo, hi, k, t, dt, lot, hit),
        ia.len() <= ia2.len(),
        forall|x: int| 0 <= x < ia.len() ==> ia2[x] == ia[x],
    ensures
        route_ctx::<K>(ia2, h, dh, lo, hi, k, t, dt, lot, hit),
    decreases dh,
{
    if h == t && dh == dt {
    } else {
        match h {
            NodeIndex::Internal(id) => {
                let j = bs_lower::<K>(ia[id as int].key_seq(), k);
                lemma_route_grow::<K>(
                    ia,
                    ia2,
                    ia[id as int].son_seq()[j],
                    (dh - 1) as nat,
                    son_lo::<K>(ia[id as int], lo, j),
                    son_hi::<K>(ia[id as int], hi, j),
                    k,
                    t,
                    dt,
                    lot,
                    hit,
                );
            },
            NodeIndex::Leaf(_) => {},
        }
    }
}

/// A route may be extended by one descent step at its endpoint.
proof fn lemma_route_extend<K: TotalOrder + Copy>(
    ia: Seq<InternalNode<K>>,
    h: NodeIndex,
    dh: nat,
    lo: Option<K::V>,
    hi: Option<K::V>,
    k: K::V,
    tid: usize,
    dt: nat,
    lot: Option<K::V>,
    hit: Option<K::V>,
)
    requires
        route_ctx::<K>(ia, h, dh, lo, hi, k, NodeIndex::Internal(tid), dt, lot, hit),
        tid < ia.len(),
        dt >= 1,
        0 <= bs_lower::<K>(ia[tid as int].key_seq(), k) < ia[tid as int].son_seq().len(),
    ensures
        route_ctx::<K>(
            ia,
            h,
            dh,
            lo,
            hi,
            k,
            ia[tid as int].son_seq()[bs_lower::<K>(ia[tid as int].key_seq(), k)],
            (dt - 1) as nat,
            son_lo::<K>(ia[tid as int], lot, bs_lower::<K>(ia[tid as int].key_seq(), k)),
            son_hi::<K>(ia[tid as int], hit, bs_lower::<K>(ia[tid as int].key_seq(), k)),
        ),
    decreases dh,
{
    let t = NodeIndex::Internal(tid);
    if h == t && dh == dt {
        let j = bs_lower::<K>(ia[tid as int].key_seq(), k);
        let son = ia[tid as int].son_seq()[j];
        assert(route_ctx::<K>(
            ia,
            son,
            (dt - 1) as nat,
            son_lo::<K>(ia[tid as int], lot, j),
            son_hi::<K>(ia[tid as int], hit, j),
            k,
            son,
            (dt - 1) as nat,
            son_lo::<K>(ia[tid as int], lot, j),
            son_hi::<K>(ia[tid as int], hit, j),
        ));
        assert(route_ctx::<K>(
            ia,
            t,
            dt,
            lot,
            hit,
            k,
            son,
            (dt - 1) as nat,
            son_lo::<K>(ia[tid as int], lot, j),
            son_hi::<K>(ia[tid as int], hit, j),
        ));
    } else {
        match h {
            NodeIndex::Internal(id) => {
                let j = bs_lower::<K>(ia[id as int].key_seq(), k);
                lemma_route_extend::<K>(
                    ia,
                    ia[id as int].son_seq()[j],
                    (dh - 1) as nat,
                    son_lo::<K>(ia[id as int], lo, j),
                    son_hi::<K>(ia[id as int], hi, j),
                    k,
                    tid,
                    dt,
                    lot,
                    hit,
                );
            },
            NodeIndex::Leaf(_) => {},
        }
    }
}

/// Rewriting the internal slot at a route's endpoint, well-formed at the
/// route's interval both before and after, keeps every subtree on the way
/// well-formed: siblings off the route never visit the slot.
proof fn lemma_wf_update_route<K: TotalOrder + Copy, V: Copy>(
    ia: Seq<InternalNode<K>>,
    ia2: Seq<InternalNode<K>>,
    la: Seq<LeafNode<K, V>>,
    la2: Seq<LeafNode<K, V>>,
    h: NodeIndex,
    d: nat,
    lo: Option<K::V>,
    hi: Option<K::V>,
    k: K::V,
    x: usize,
    dx: nat,
    lox: Option<K::V>,
    hix: Option<K::V>,
)
    requires
        sons_inj::<K>(ia),
        wf_node::<K, V>(ia, la, h, d, lo, hi),
        route_ctx::<K>(ia, h, d, lo, hi, k, NodeIndex::Internal(x), dx, lox, hix),
        (x as int) < ia.len(),
        ia.len() <= ia2.len(),
        la.len() <= la2.len(),
        forall|y: int| 0 <= y < ia.len() && y != x ==> ia2[y] == ia[y],
        forall|y: int| 0 <= y < la.len() ==> la2[y] == la[y],
        wf_node::<K, V>(ia2, la2, NodeIndex::Internal(x), dx, lox, hix),
    ensures
        wf_node::<K, V>(ia2, la2, h, d, lo, hi),
    decreases d,
{
    if h == NodeIndex::Internal(x) && d == dx {
        assert(lo == lox && hi == hix);
    } else {
        lemma_route_wf::<K, V>(ia, la, h, d, lo, hi, k, NodeIndex::Internal(x), dx, lox, hix);
        if h == NodeIndex::Internal(x) {
            lemma_wf_depth_unique::<K, V>(ia, la, h, d, lo, hi, dx, lox, hix);
        }
        match h {
            NodeIndex::Internal(id) => {
                let j = bs_lower::<K>(ia[id as int].key_seq(), k);
                lemma_route_reaches::<K>(
                    ia,
                    ia[id as int].son_seq()[j],
                    (d - 1) as nat,
                    son_lo::<K>(ia[id as int], lo, j),
                    son_hi::<K>(ia[id as int], hi, j),
                    k,
                    NodeIndex::Internal(x),
                    dx,
                    lox,
                    hix,
                );
                assert forall|jj: int|
                    0 <= jj < ia2[id as int].son_seq().len() implies wf_node::<K, V>(
                    ia2,
                    la2,
                    #[trigger] ia2[id as int].son_seq()[jj],
                    (d - 1) as nat,
                    son_lo::<K>(ia2[id as int], lo, jj),
                    son_hi::<K>(ia2[id as int], hi, jj),
                ) by {
                    if jj == j {
                        lemma_wf_update_route::<K, V>(
                            ia,
                            ia2,
                            la,
                            la2,
                            ia[id as int].son_seq()[j],
                            (d - 1) as nat,
                            son_lo::<K>(ia[id as int], lo, j),
                            son_hi::<K>(ia[id as int], hi, j),
                            k,
                            x,
                            dx,
                            lox,
                            hix,
                        );
                    } else {
                        let son = ia[id as int].son_seq()[jj];
                        if son == ia[id as int].son_seq()[j] {
                            assert(jj == j);
                        }
                        if reaches::<K>(ia, son, (d - 1) as nat, NodeIndex::Internal(x)) {
                            lemma_reach_disjoint::<K, V>(
                                ia,
                                la,
                                ia[id as int].son_seq()[j],
                                son,
                                (d - 1) as nat,
                                son_lo::<K>(ia[id as int], lo, j),
                                son_hi::<K>(ia[id as int], hi, j),
                                son_lo::<K>(ia[id as int], lo, jj),
                                son_hi::<K>(ia[id as int], hi, jj),
                                NodeIndex::Internal(x),
                            );
                        }
                        lemma_wf_frame_i::<K, V>(
                            ia,
                            ia2,
                            la,
                            la2,
                            son,
                            (d - 1) as nat,
                            son_lo::<K>(ia[id as int], lo, jj),
                            son_hi::<K>(ia[id as int], hi, jj),
                            x as int,
                        );
                    }
                }
            },
            NodeIndex::Leaf(_) => {},
        }
    }
}

/// Rewriting the leaf slot at a route's endpoint with a well-formed leaf
/// whose keys stay inside the route's interval keeps every subtree on the
/// way well-formed.
proof fn lemma_wf_update_leaf_route<K: TotalOrder + Copy, V: Copy>(
    ia: Seq<InternalNode<K>>,
    la: Seq<LeafNode<K, V>>,
    la2: Seq<LeafNode<K, V>>,
    h: NodeIndex,
    d: nat,
    lo: Option<K::V>,
    hi: Option<K::V>,
    k: K::V,
    x: usize,
    lox: Option<K::V>,
    hix: Option<K::V>,
)
    requires
        sons_inj::<K>(ia),
        wf_node::<K, V>(ia, la, h, d, lo, hi),
        route_ctx::<K>(ia, h, d, lo, hi, k, NodeIndex::Leaf(x), 0, lox, hix),
        (x as int) < la.len(),
        la.len() <= la2.len(),
        forall|y: int| 0 <= y < la.len() && y != x ==> la2[y] == la[y],
        la2[x as int].wf(),
        forall|e: int|
            0 <= e < la2[x as int].entries().len() ==> in_range::<K>(
                lox,
                hix,
                (#[trigger] la2[x as int].entries()[e]).0,
            ),
    ensures
        wf_node::<K, V>(ia, la2, h, d, lo, hi),
    decreases d,
{
    if h == NodeIndex::Leaf(x) && d == 0 {
        assert(lo == lox && hi == hix);
    } else {
        match h {
            NodeIndex::Internal(id) => {
                let j = bs_lower::<K>(ia[id as int].key_seq(), k);
                lemma_route_reaches::<K>(
                    ia,
                    ia[id as int].son_seq()[j],
                    (d - 1) as nat,
                    son_lo::<K>(ia[id as int], lo, j),
                    son_hi::<K>(ia[id as int], hi, j),
                    k,
                    NodeIndex::Leaf(x),
                    0,
                    lox,
                    hix,
                );
                assert forall|jj: int|
                    0 <= jj < ia[id as int].son_seq().len() implies wf_node::<K, V>(
                    ia,
                    la2,
                    #[trigger] ia[id as int].son_seq()[jj],
                    (d - 1) as nat,
                    son_lo::<K>(ia[id as int], lo, jj),
                    son_hi::<K>(ia[id as int], hi, jj),
                ) by {
                    if jj == j {
                        lemma_wf_update_leaf_route::<K, V>(
                            ia,
                            la,
                            la2,
                            ia[id as int].son_seq()[j],
                            (d - 1) as nat,
                            son_lo::<K>(ia[id as int], lo, j),
                            son_hi::<K>(ia[id as int], hi, j),
                            k,
                            x,
                            lox,
                            hix,
                        );
                    } else {
                        let son = ia[id as int].son_seq()[jj];
                        if son == ia[id as int].son_seq()[j] {
                            assert(jj == j);
                        }
                        if reaches::<K>(ia, son, (d - 1) as nat, NodeIndex::Leaf(x)) {
                            lemma_reach_disjoint::<K, V>(
                                ia,
                                la,
                                ia[id as int].son_seq()[j],
                                son,
                                (d - 1) as nat,
                                son_lo::<K>(ia[id as int], lo, j),
                                son_hi::<K>(ia[id as int], hi, j),
                                son_lo::<K>(ia[id as int], lo, jj),
                                son_hi::<K>(ia[id as int], hi, jj),
                                NodeIndex::Leaf(x),
                            );
                        }
                        lemma_wf_frame_l::<K, V>(
                            ia,
                            la,
                            la2,
                            son,
                            (d - 1) as nat,
                            son_lo::<K>(ia[id as int], lo, jj),
                            son_hi::<K>(ia[id as int], hi, jj),
                            x as int,
                        );
                    }
                }
            },
            NodeIndex::Leaf(_) => {},
        }
    }
}

/// Splitting a full internal node and handing the new sibling to its
/// parent leaves the descent for `k` at the same leaf: the surviving half
/// routes `k` to the very child the full node did, and that child's
/// subtree is untouched.
#[verifier::rlimit(100)]
#[verifier::spinoff_prover]
proof fn lemma_split_find_same<K: TotalOrder + Copy, V: Copy>(
    ia0: Seq<InternalNode<K>>,
    iaf: Seq<InternalNode<K>>,
    la0: Seq<LeafNode<K, V>>,
    oroot: NodeIndex,
    oh: nat,
    nroot: NodeIndex,
    nh: nat,
    k: K::V,
    id0: usize,
    idn: usize,
    fx: usize,
    fxlo: Option<K::V>,
    fxhi: Option<K::V>,
    cfull: InternalNode<K>,
    lnode: InternalNode<K>,
    rnode: InternalNode<K>,
    half: int,
    sep: K::V,
    d: nat,
    lo0: Option<K::V>,
    hi0: Option<K::V>,
    nlo: Option<K::V>,
    nhi: Option<K::V>,
    go_right: bool,
    rightid: usize,
)
    requires
        wf_node::<K, V>(ia0, la0, NodeIndex::Internal(id0), d, lo0, hi0),
        cfull == ia0[id0 as int],
        cfull.son_seq().len() == NODE_DEG,
        cfull.key_seq().len() == NODE_DEG - 1,
        strictly_sorted::<K>(cfull.key_seq()),
        half == (NODE_DEG as int) / 2,
        sep == cfull.key_seq()[half - 1]@,
        (id0 as int) < ia0.len(),
        (idn as int) < iaf.len(),
        ia0.len() <= iaf.len(),
        forall|y: int| 0 <= y < ia0.len() && y != id0 && y != fx ==> iaf[y] == ia0[y],
        lnode == iaf[id0 as int],
        lnode.key_seq() == cfull.key_seq().subrange(0, half - 1),
        lnode.son_seq() == cfull.son_seq().subrange(0, half),
        rnode == iaf[rightid as int],
        (rightid as int) < iaf.len(),
        rnode.key_seq() == cfull.key_seq().subrange(half, NODE_DEG - 1),
        rnode.son_seq() == cfull.son_seq().subrange(half, NODE_DEG as int),
        go_right ==> idn == rightid && key_lt::<K>(sep, k),
        !go_right ==> idn == id0 && K::le(k, sep),
        (fx as int) < ia0.len() ==> wf_node::<K, V>(
            ia0,
            la0,
            NodeIndex::Internal(fx as usize),
            (d + 1) as nat,
            fxlo,
            fxhi,
        ),
        route_ctx::<K>(ia0, oroot, oh, None, None, k, NodeIndex::Internal(id0), d, lo0, hi0),
        route_ctx::<K>(iaf, nroot, nh, None, None, k, NodeIndex::Internal(idn), d, nlo, nhi),
    ensures
        find_slot::<K>(iaf, nroot, nh, k) == find_slot::<K>(ia0, oroot, oh, k),
{

                            // The split leaves the descent for `k` at the
                            // same leaf: the surviving half routes `k` to
                            // the very child the full node did.
                            let kseq = cfull.key_seq();
                            let jf = bs_lower::<K>(kseq, k);
                            let iaf0 = 0int;
                            lemma_strictly_sorted_implies_sorted::<K>(kseq);
                            lemma_bs_lower_sorted::<K>(kseq, k);
                            let jloc: int = if !go_right {
                                jf
                            } else {
                                jf - half
                            };
                            if !go_right {
                                assert(K::le(k, sep));
                                if jf > half - 1 {
                                    assert(key_lt::<K>(kseq[half - 1]@, k));
                                    assert(false);
                                }
                                assert forall|e: int| 0 <= e < jf implies key_lt::<K>(
                                    (#[trigger] lnode.key_seq()[e])@,
                                    k,
                                ) by {
                                    assert(lnode.key_seq()[e] == kseq[e]);
                                }
                                if jf < lnode.key_seq().len() {
                                    assert(lnode.key_seq()[jf] == kseq[jf]);
                                }
                                lemma_strictly_sorted_implies_sorted::<K>(lnode.key_seq());
                                lemma_bs_lower_unique::<K>(lnode.key_seq(), k, jf);
                                assert(lnode.son_seq()[jf] == cfull.son_seq()[jf]);
                            } else {
                                assert(key_lt::<K>(sep, k));
                                if jf < half {
                                    assert(K::le(k, kseq[jf]@));
                                    if jf < half - 1 {
                                        assert(key_lt::<K>(kseq[jf]@, sep));
                                        lemma_key_lt::<K>(kseq[jf]@, sep);
                                    }
                                    K::le_trans(k, kseq[jf]@, sep);
                                    assert(false);
                                }
                                assert forall|e: int| 0 <= e < jf - half implies key_lt::<K>(
                                    (#[trigger] rnode.key_seq()[e])@,
                                    k,
                                ) by {
                                    assert(rnode.key_seq()[e] == kseq[half + e]);
                                }
                                if jf - half < rnode.key_seq().len() {
                                    assert(rnode.key_seq()[jf - half] == kseq[jf]);
                                }
                                lemma_strictly_sorted_implies_sorted::<K>(rnode.key_seq());
                                lemma_bs_lower_unique::<K>(rnode.key_seq(), k, jf - half);
                                assert(rnode.son_seq()[jf - half] == cfull.son_seq()[jf]);
                            }
                            let son = cfull.son_seq()[jf];
                            assert(find_slot::<K>(iaf, NodeIndex::Internal(idn), d, k)
                                == find_slot::<K>(iaf, son, (d - 1) as nat, k));
                            assert(find_slot::<K>(ia0, NodeIndex::Internal(id0), d, k)
                                == find_slot::<K>(ia0, son, (d - 1) as nat, k));
                            let slo = son_lo::<K>(cfull, lo0, jf);
                            let shi = son_hi::<K>(cfull, hi0, jf);
                            assert(wf_node::<K, V>(ia0, la0, son, (d - 1) as nat, slo, shi));
                            if reaches::<K>(ia0, son, (d - 1) as nat, NodeIndex::Internal(id0)) {
                                lemma_reach_wf::<K, V>(
                                    ia0,
                                    la0,
                                    son,
                                    (d - 1) as nat,
                                    slo,
                                    shi,
                                    NodeIndex::Internal(id0),
                                );
                                let (dd, llo, hhi) = choose|
                                    dd: nat,
                                    llo: Option<K::V>,
                                    hhi: Option<K::V>,
                                |
                                    dd <= (d - 1) as nat && #[trigger] wf_node::<K, V>(
                                        ia0,
                                        la0,
                                        NodeIndex::Internal(id0),
                                        dd,
                                        llo,
                                        hhi,
                                    );
                                lemma_wf_depth_unique::<K, V>(
                                    ia0,
                                    la0,
                                    NodeIndex::Internal(id0),
                                    dd,
                                    llo,
                                    hhi,
                                    d,
                                    lo0,
                                    hi0,
                                );
                            }
                            if reaches::<K>(ia0, son, (d - 1) as nat, NodeIndex::Internal(fx as usize)) {
                                lemma_reach_wf::<K, V>(
                                    ia0,
                                    la0,
                                    son,
                                    (d - 1) as nat,
                                    slo,
                                    shi,
                                    NodeIndex::Internal(fx as usize),
                                );
                                let (dd, llo, hhi) = choose|
                                    dd: nat,
                                    llo: Option<K::V>,
                                    hhi: Option<K::V>,
                                |
                                    dd <= (d - 1) as nat && #[trigger] wf_node::<K, V>(
                                        ia0,
                                        la0,
                                        NodeIndex::Internal(fx as usize),
                                        dd,
                                        llo,
                                        hhi,
                                    );
                                if (fx as int) < ia0.len() {
                                    lemma_wf_depth_unique::<K, V>(
                                        ia0,
                                        la0,
                                        NodeIndex::Internal(fx as usize),
                                        dd,
                                        llo,
                                        hhi,
                                        (d + 1) as nat,
                                        fxlo,
                                        fxhi,
                                    );
                                } else {
                                    assert((fx as int) < ia0.len());
                                }
                            }
                            lemma_find_slot_frame::<K, V>(
                                ia0,
                                iaf,
                                la0,
                                son,
                                (d - 1) as nat,
                                slo,
                                shi,
                                id0 as int,
                                fx as int,
                                k,
                            );
                            lemma_route_find_slot::<K>(
                                iaf,
                                nroot,
                                nh,
                                None,
                                None,
                                k,
                                NodeIndex::Internal(idn),
                                d,
                                nlo,
                                nhi,
                            );
                            lemma_route_find_slot::<K>(
                                ia0,
                                oroot,
                                oh,
                                None,
                                None,
                                k,
                                NodeIndex::Internal(id0),
                                d,
                                lo0,
                                hi0,
                            );
                            assert(find_slot::<K>(iaf, nroot, nh, k)
                                == find_slot::<K>(ia0, oroot, oh, k));
                        }

/// Attaching a fresh handle as one more child of a single node keeps the
/// arena invariants: the handle collides with no existing child, stays in
/// bounds, and is not the root.
#[verifier::spinoff_prover]
proof fn lemma_arena_after_attach<K: TotalOrder + Copy>(
    ia3: Seq<InternalNode<K>>,
    ia4: Seq<InternalNode<K>>,
    la_len: int,
    root: NodeIndex,
    fid: usize,
    pos: int,
    rh: NodeIndex,
)
    requires
        sons_inj::<K>(ia3),
        sons_ok::<K>(ia3, la_len),
        root_not_son::<K>(ia3, root),
        (fid as int) < ia3.len(),
        ia4.len() == ia3.len(),
        forall|y: int| 0 <= y < ia3.len() && y != fid ==> ia4[y] == ia3[y],
        0 <= pos <= ia3[fid as int].son_seq().len(),
        ia4[fid as int].son_seq() == ia3[fid as int].son_seq().insert(pos, rh),
        ia4[fid as int].key_seq().len() == ia4[fid as int].son_seq().len() - 1,
        forall|a: int, j: int|
            0 <= a < ia3.len() && 0 <= j < ia3[a].son_seq().len() ==> #[trigger] ia3[a].son_seq()[j]
                != rh,
        match rh {
            NodeIndex::Internal(y) => y < ia4.len(),
            NodeIndex::Leaf(y) => y < la_len,
        },
        rh != root,
    ensures
        sons_inj::<K>(ia4),
        sons_ok::<K>(ia4, la_len),
        root_not_son::<K>(ia4, root),
{
    assert forall|a: int, j: int, b: int, m: int|
        0 <= a < ia4.len() && 0 <= j < ia4[a].son_seq().len() && 0 <= b < ia4.len() && 0 <= m
            < ia4[b].son_seq().len() && #[trigger] ia4[a].son_seq()[j]
            == #[trigger] ia4[b].son_seq()[m] implies a == b && j == m by {
        let ja = if a == fid as int && j >= pos {
            j - 1
        } else {
            j
        };
        let jb = if b == fid as int && m >= pos {
            m - 1
        } else {
            m
        };
        if a == fid as int && j == pos {
            if b == fid as int && m == pos {
            } else {
                assert(ia4[b].son_seq()[m] == ia3[b].son_seq()[jb]);
                assert(false);
            }
        } else if b == fid as int && m == pos {
            assert(ia4[a].son_seq()[j] == ia3[a].son_seq()[ja]);
            assert(false);
        } else {
            assert(ia4[a].son_seq()[j] == ia3[a].son_seq()[ja]);
            assert(ia4[b].son_seq()[m] == ia3[b].son_seq()[jb]);
            assert(a == b && ja == jb);
        }
    }
    assert forall|a: int, j: int|
        0 <= a < ia4.len() && 0 <= j < ia4[a].son_seq().len() implies (match #[trigger] ia4[a].son_seq()[
        j] {
        NodeIndex::Internal(y) => y < ia4.len(),
        NodeIndex::Leaf(y) => y < la_len,
    }) by {
        if a == fid as int && j == pos {
            assert(ia4[a].son_seq()[j] == rh);
        } else if a == fid as int && j > pos {
            assert(ia4[a].son_seq()[j] == ia3[a].son_seq()[j - 1]);
        } else {
            assert(ia4[a].son_seq()[j] == ia3[a].son_seq()[j]);
        }
    }
    assert forall|a: int, j: int|
        0 <= a < ia4.len() && 0 <= j < ia4[a].son_seq().len() implies #[trigger] ia4[a].son_seq()[j]
        != root by {
        if a == fid as int && j == pos {
            assert(ia4[a].son_seq()[j] == rh);
        } else if a == fid as int && j > pos {
            assert(ia4[a].son_seq()[j] == ia3[a].son_seq()[j - 1]);
        } else {
            assert(ia4[a].son_seq()[j] == ia3[a].son_seq()[j]);
        }
    }
}

/// The ordered key-value index.
///
/// All nodes live in the two arenas `i` and `l`; `root` addresses one of
/// them. The arenas only grow, so handles are never invalidated.
pub struct BTree<K, V> {
    i: Vec<InternalNode<K>>,
    l: Vec<LeafNode<K, V>>,
    root: NodeIndex,
    height: Ghost<nat>,
}

impl<K: TotalOrder + Copy, V: Copy> BTree<K, V> {
    /// The arenas and the root form a well-structured tree: handles in
    /// bounds, leaves at uniform depth, separator keys bracketing their
    /// subtrees, and every node with exactly one parent.
    pub closed spec fn wf(self) -> bool {
        &&& wf_node::<K, V>(self.i@, self.l@, self.root, self.height@, None, None)
        &&& sons_ok::<K>(self.i@, self.l@.len() as int)
        &&& sons_inj::<K>(self.i@)
        &&& root_not_son::<K>(self.i@, self.root)
    }

    /// What a lookup of `k` observes: the value stored under `k` in the
    /// leaf that the top-down descent for `k` reaches.
    pub closed spec fn find(self, k: K::V) -> Option<V> {
        find_at::<K, V>(self.i@, self.l@, self.root, self.height@, k)
    }

    /// The root has become an internal node.
    pub closed spec fn root_internal(self) -> bool {
        self.root is Internal
    }

    /// Some leaf of the tree stores `v` under `k`.
    pub closed spec fn stores(self, k: K::V, v: V) -> bool {
        exists|id: int|
            0 <= id < self.l@.len() && assoc_find::<K::V, V>(self.l@[id].entries(), k) == Some(v)
    }

    /// The root node is at capacity.
    pub closed spec fn root_full(self) -> bool {
        match self.root {
            NodeIndex::Leaf(id) => id < self.l@.len() && self.l@[id as int].entries().len()
                == NODE_DEG,
            NodeIndex::Internal(id) => id < self.i@.len() && self.i@[id as int].son_seq().len()
                == NODE_DEG,
        }
    }

    /// A fresh tree: one empty leaf, serving as the root.
    pub fn new() -> (r: Self)
        ensures
            r.wf(),
            forall|k: K::V| r.find(k) is None,
            forall|k: K::V, v: V| !r.stores(k, v),
            !r.root_internal(),
    {
        let mut l: Vec<LeafNode<K, V>> = Vec::with_capacity(1024);
        l.push(LeafNode::new());
        let t = BTree { i: Vec::new(), l, root: NodeIndex::Leaf(0), height: Ghost(0nat) };
        proof {
            assert(t.wf());
            assert forall|k: K::V| t.find(k) is None by {
                assert(find_slot::<K>(t.i@, t.root, 0, k) == t.root);
            }
            assert forall|k: K::V, v: V| !t.stores(k, v) by {
                assert(forall|id: int|
                    0 <= id < t.l@.len() ==> assoc_find::<K::V, V>(
                        #[trigger] t.l@[id].entries(),
                        k,
                    ) is None);
            }
        }
        t
    }

    /// Whether the tree has grown beyond a single leaf.
    pub fn root_is_internal(&self) -> (r: bool)
        ensures
            r == self.root_internal(),
    {
        match self.root {
            NodeIndex::Internal(_) => true,
            NodeIndex::Leaf(_) => false,
        }
    }

    /// Whether the root node is at capacity.
    pub fn root_is_full(&self) -> (r: bool)
        requires
            self.wf(),
        ensures
            r == self.root_full(),
    {
        match self.root {
            NodeIndex::Internal(id) => self.i[id].full(),
            NodeIndex::Leaf(id) => self.l[id].full(),
        }
    }

    /// Hands a leaf to the leaf arena; the node keeps the returned position
    /// forever.
    fn alloc_leaf(&mut self, leaf: LeafNode<K, V>) -> (rid: usize)
        ensures
            rid as int == old(self).l@.len(),
            final(self).l@ == old(self).l@.push(leaf),
            final(self).i@ == old(self).i@,
            final(self).root == old(self).root,
            final(self).height@ == old(self).height@,
    {
        self.l.push(leaf);
        self.l.len() - 1
    }

    /// Hands an internal node to the internal arena; the node keeps the
    /// returned position forever.
    fn alloc_internal(&mut self, internal: InternalNode<K>) -> (rid: usize)
        ensures
            rid as int == old(self).i@.len(),
            final(self).i@ == old(self).i@.push(internal),
            final(self).l@ == old(self).l@,
            final(self).root == old(self).root,
            final(self).height@ == old(self).height@,
    {
        self.i.push(internal);
        self.i.len() - 1
    }

    /// Grows the tree by one level: a fresh internal root whose only child
    /// is `first` (the old root). The only operation that changes the
    /// tree's height.
    fn make_new_root(&mut self, first: NodeIndex) -> (rid: usize)
        ensures
            rid as int == old(self).i@.len(),
            final(self).i@.len() == old(self).i@.len() + 1,
            forall|x: int| 0 <= x < old(self).i@.len() ==> final(self).i@[x] == old(self).i@[x],
            final(self).i@[rid as int].wf(),
            final(self).i@[rid as int].key_seq() == Seq::<K>::empty(),
            final(self).i@[rid as int].son_seq() == seq![first],
            final(self).l@ == old(self).l@,
            final(self).root == NodeIndex::Internal(rid),
            final(self).height@ == old(self).height@ + 1,
    {
        let new_root_id = self.alloc_internal(InternalNode::new(first));
        self.root = NodeIndex::Internal(new_root_id);
        proof {
            self.height@ = self.height@ + 1;
        }
        new_root_id
    }

    /// Point lookup: walks from the root through internal nodes to the one
    /// leaf the descent determines, and looks `k` up there.
    pub fn lookup(&self, k: &K) -> (r: Option<&V>)
        requires
            self.wf(),
        ensures
            match r {
                Some(v) => self.find(k@) == Some(*v) && self.stores(k@, *v),
                None => self.find(k@) is None,
            },
    {
        let mut cur = self.root;
        let ghost mut d = self.height@;
        let ghost mut glo: Option<K::V> = None;
        let ghost mut ghi: Option<K::V> = None;
        loop
            invariant
                self.wf(),
                wf_node::<K, V>(self.i@, self.l@, cur, d, glo, ghi),
                find_at::<K, V>(self.i@, self.l@, cur, d, k@) == self.find(k@),
            decreases d,
        {
            match cur {
                NodeIndex::Internal(id) => {
                    let (j, nxt) = self.i[id].lookup(k);
                    proof {
                        assert(find_slot::<K>(self.i@, cur, d, k@) == find_slot::<K>(
                            self.i@,
                            nxt,
                            (d - 1) as nat,
                            k@,
                        ));
                        glo = son_lo::<K>(self.i@[id as int], glo, j as int);
                        ghi = son_hi::<K>(self.i@[id as int], ghi, j as int);
                        d = (d - 1) as nat;
                    }
                    cur = nxt;
                },
                NodeIndex::Leaf(id) => {
                    proof {
                        assert(find_slot::<K>(self.i@, cur, d, k@) == cur);
                    }
                    let r = self.l[id].lookup(k);
                    proof {
                        match r {
                            Some(v) => {
                                assert(assoc_find::<K::V, V>(self.l@[id as int].entries(), k@)
                                    == Some(*v));
                                assert(self.stores(k@, *v));
                            },
                            None => {},
                        }
                    }
                    return r;
                },
            }
        }
    }

    /// Split a full internal child pre-emptively: halve it, adopt a fresh
    /// root if the child was the root, hand the new sibling to the parent,
    /// and continue on whichever half covers `k`. The descent for `k`
    /// observes the same value afterwards.
    #[verifier::rlimit(100)]
    #[verifier::spinoff_prover]
    fn split_internal_child(
        &mut self,
        id0: usize,
        father_id: Option<usize>,
        father_son_index: usize,
        k: &K,
        gs: Ghost<(nat, Option<K::V>, Option<K::V>, Option<K::V>, Option<K::V>)>,
    ) -> (res: (usize, Ghost<(Option<K::V>, Option<K::V>)>))
        requires
            sons_inj::<K>(old(self).i@),
            sons_ok::<K>(old(self).i@, old(self).l@.len() as int),
            root_not_son::<K>(old(self).i@, old(self).root),
            wf_node::<K, V>(old(self).i@, old(self).l@, old(self).root, old(self).height@, None, None),
            route_ctx::<K>(old(self).i@, old(self).root, old(self).height@, None, None, k@, NodeIndex::Internal(id0), gs@.0, gs@.1, gs@.2),
            in_range::<K>(gs@.1, gs@.2, k@),
            wf_node::<K, V>(old(self).i@, old(self).l@, NodeIndex::Internal(id0), gs@.0, gs@.1, gs@.2),
            old(self).i@[id0 as int].son_seq().len() == NODE_DEG,
            match father_id {
                None => NodeIndex::Internal(id0) == old(self).root && gs@.0 == old(self).height@ && gs@.1 is None && gs@.2 is None,
                Some(fid) => {
                    &&& (fid as int) < old(self).i@.len()
                    &&& route_ctx::<K>(old(self).i@, old(self).root, old(self).height@, None, None, k@, NodeIndex::Internal(fid), (gs@.0 + 1) as nat, gs@.3, gs@.4)
                    &&& wf_node::<K, V>(old(self).i@, old(self).l@, NodeIndex::Internal(fid), (gs@.0 + 1) as nat, gs@.3, gs@.4)
                    &&& old(self).i@[fid as int].son_seq().len() < NODE_DEG
                    &&& (father_son_index as int) < old(self).i@[fid as int].son_seq().len()
                    &&& old(self).i@[fid as int].son_seq()[father_son_index as int] == NodeIndex::Internal(id0)
                    &&& bs_lower::<K>(old(self).i@[fid as int].key_seq(), k@) == father_son_index as int
                    &&& son_lo::<K>(old(self).i@[fid as int], gs@.3, father_son_index as int) == gs@.1
                    &&& son_hi::<K>(old(self).i@[fid as int], gs@.4, father_son_index as int) == gs@.2
                },
            },
        ensures
            sons_inj::<K>(final(self).i@),
            sons_ok::<K>(final(self).i@, final(self).l@.len() as int),
            root_not_son::<K>(final(self).i@, final(self).root),
            wf_node::<K, V>(final(self).i@, final(self).l@, final(self).root, final(self).height@, None, None),
            route_ctx::<K>(final(self).i@, final(self).root, final(self).height@, None, None, k@, NodeIndex::Internal(res.0), gs@.0, res.1@.0, res.1@.1),
            in_range::<K>(res.1@.0, res.1@.1, k@),
            wf_node::<K, V>(final(self).i@, final(self).l@, NodeIndex::Internal(res.0), gs@.0, res.1@.0, res.1@.1),
            final(self).i@[res.0 as int].son_seq().len() < NODE_DEG,
            final(self).l@ == old(self).l@,
            final(self).find(k@) == old(self).find(k@),
            match father_id {
                None => (final(self).root is Internal) == ((old(self).root is Internal) || old(self).root_full()),
                Some(_) => final(self).root is Internal <==> old(self).root is Internal,
            },
            father_id is Some ==> final(self).root == old(self).root,
    {
        let mut id = id0;
        let ghost mut d = gs@.0;
        let ghost mut glo = gs@.1;
        let ghost mut ghi = gs@.2;
        let ghost mut flo = gs@.3;
        let ghost mut fhi = gs@.4;
        let mut father_id = father_id;
        let mut father_son_index = father_son_index;
        let ghost mut cur = NodeIndex::Internal(id0);
        proof {
            self.i@[id as int].lemma_wf_arity();
            assert(wf_node::<K, V>(self.i@, self.l@, cur, d, glo, ghi));
            assert(strictly_sorted::<K>(self.i@[id as int].key_seq()));
            assert(forall|e: int|
                0 <= e < self.i@[id as int].key_seq().len() ==> in_range::<K>(
                    glo,
                    ghi,
                    (#[trigger] self.i@[id as int].key_seq()[e])@,
                ));
        }

                        // Pre-emptive split of a full internal node.
                        let ghost ia0 = self.i@;
                        let ghost la0 = self.l@;
                        let ghost cfull = self.i@[id as int];
                        let ghost half = (NODE_DEG as int) / 2;
                        let (left_max, right) = self.i[id].split();
                        let ghost ia1 = self.i@;
                        let ghost lnode = ia1[id as int];
                        let ghost sep = left_max@;
                        proof {
                            assert(cfull.son_seq().len() == NODE_DEG);
                            assert(left_max == cfull.key_seq()[half - 1]);
                            assert(in_range::<K>(glo, ghi, sep));
                            // The shrunken left half is well-formed on
                            // `(glo, sep]`.
                            assert(strictly_sorted::<K>(lnode.key_seq()));
                            assert forall|e: int|
                                0 <= e < lnode.key_seq().len() implies in_range::<K>(
                                glo,
                                Some(sep),
                                (#[trigger] lnode.key_seq()[e])@,
                            ) by {
                                assert(lnode.key_seq()[e] == cfull.key_seq()[e]);
                                lemma_key_lt::<K>(cfull.key_seq()[e]@, sep);
                            }
                            assert forall|j: int|
                                0 <= j < lnode.son_seq().len() implies wf_node::<K, V>(
                                ia1,
                                la0,
                                #[trigger] lnode.son_seq()[j],
                                (d - 1) as nat,
                                son_lo::<K>(lnode, glo, j),
                                son_hi::<K>(lnode, Some(sep), j),
                            ) by {
                                let son = cfull.son_seq()[j];
                                assert(lnode.son_seq()[j] == son);
                                assert(son_lo::<K>(lnode, glo, j) == son_lo::<K>(cfull, glo, j));
                                assert(son_hi::<K>(lnode, Some(sep), j) == son_hi::<K>(
                                    cfull,
                                    ghi,
                                    j,
                                ));
                                assert(wf_node::<K, V>(
                                    ia0,
                                    la0,
                                    son,
                                    (d - 1) as nat,
                                    son_lo::<K>(cfull, glo, j),
                                    son_hi::<K>(cfull, ghi, j),
                                ));
                                if reaches::<K>(ia0, son, (d - 1) as nat, NodeIndex::Internal(id)) {
                                    lemma_reach_wf::<K, V>(
                                        ia0,
                                        la0,
                                        son,
                                        (d - 1) as nat,
                                        son_lo::<K>(cfull, glo, j),
                                        son_hi::<K>(cfull, ghi, j),
                                        NodeIndex::Internal(id),
                                    );
                                    let (dd, llo, hhi) = choose|
                                        dd: nat,
                                        llo: Option<K::V>,
                                        hhi: Option<K::V>,
                                    |
                                        dd <= (d - 1) as nat && wf_node::<K, V>(
                                            ia0,
                                            la0,
                                            NodeIndex::Internal(id),
                                            dd,
                                            llo,
                                            hhi,
                                        );
                                    lemma_wf_depth_unique::<K, V>(
                                        ia0,
                                        la0,
                                        NodeIndex::Internal(id),
                                        dd,
                                        llo,
                                        hhi,
                                        d,
                                        glo,
                                        ghi,
                                    );
                                }
                                lemma_wf_frame_i::<K, V>(
                                    ia0,
                                    ia1,
                                    la0,
                                    la0,
                                    son,
                                    (d - 1) as nat,
                                    son_lo::<K>(cfull, glo, j),
                                    son_hi::<K>(cfull, ghi, j),
                                    id as int,
                                );
                            }
                            assert(wf_node::<K, V>(ia1, la0, cur, d, glo, Some(sep)));
                            assert forall|x: K::V| at_most::<K>(Some(sep), x) implies at_most::<K>(
                                ghi,
                                x,
                            ) by {
                                match ghi {
                                    None => {},
                                    Some(g) => {
                                        K::le_trans(x, sep, g);
                                    },
                                }
                            }
                            lemma_wf_widen::<K, V>(ia1, la0, cur, d, glo, Some(sep), glo, ghi);
                            lemma_wf_update_route::<K, V>(
                                ia0,
                                ia1,
                                la0,
                                la0,
                                self.root,
                                self.height@,
                                None,
                                None,
                                k@,
                                id,
                                d,
                                glo,
                                ghi,
                            );
                            match father_id {
                                Some(fid) => {
                                    assert(route_ctx::<K>(
                                        ia0,
                                        cur,
                                        d,
                                        glo,
                                        ghi,
                                        k@,
                                        cur,
                                        d,
                                        glo,
                                        ghi,
                                    ));
                                    assert(route_ctx::<K>(
                                        ia0,
                                        NodeIndex::Internal(fid),
                                        (d + 1) as nat,
                                        flo,
                                        fhi,
                                        k@,
                                        cur,
                                        d,
                                        glo,
                                        ghi,
                                    ));
                                    lemma_wf_update_route::<K, V>(
                                        ia0,
                                        ia1,
                                        la0,
                                        la0,
                                        NodeIndex::Internal(fid),
                                        (d + 1) as nat,
                                        flo,
                                        fhi,
                                        k@,
                                        id,
                                        d,
                                        glo,
                                        ghi,
                                    );
                                    lemma_route_frame::<K, V>(
                                        ia0,
                                        ia1,
                                        la0,
                                        self.root,
                                        self.height@,
                                        None,
                                        None,
                                        k@,
                                        NodeIndex::Internal(fid),
                                        (d + 1) as nat,
                                        flo,
                                        fhi,
                                        id as int,
                                        d,
                                        glo,
                                        ghi,
                                        id as int,
                                        d,
                                        glo,
                                        ghi,
                                    );
                                },
                                None => {},
                            }
                            lemma_route_frame::<K, V>(
                                ia0,
                                ia1,
                                la0,
                                self.root,
                                self.height@,
                                None,
                                None,
                                k@,
                                cur,
                                d,
                                glo,
                                ghi,
                                id as int,
                                d,
                                glo,
                                ghi,
                                id as int,
                                d,
                                glo,
                                ghi,
                            );
                            // One parent per node survives the shrink.
                            assert forall|a: int, j: int, b: int, m: int|
                                0 <= a < ia1.len() && 0 <= j < ia1[a].son_seq().len() && 0 <= b
                                    < ia1.len() && 0 <= m < ia1[b].son_seq().len()
                                    && #[trigger] ia1[a].son_seq()[j] == #[trigger] ia1[b].son_seq()[
                                m] implies a == b && j == m by {
                                assert(ia1[a].son_seq()[j] == ia0[a].son_seq()[j]);
                                assert(ia1[b].son_seq()[m] == ia0[b].son_seq()[m]);
                            }
                            assert(sons_ok::<K>(ia1, la0.len() as int)) by {
                                assert forall|a: int, j: int|
                                    0 <= a < ia1.len() && 0 <= j < ia1[a].son_seq().len() implies (
                                match #[trigger] ia1[a].son_seq()[j] {
                                    NodeIndex::Internal(y) => y < ia1.len(),
                                    NodeIndex::Leaf(y) => y < la0.len(),
                                }) by {
                                    assert(ia1[a].son_seq()[j] == ia0[a].son_seq()[j]);
                                }
                            }
                            assert(root_not_son::<K>(ia1, self.root)) by {
                                assert forall|a: int, j: int|
                                    0 <= a < ia1.len() && 0 <= j < ia1[a].son_seq().len() implies #[trigger] ia1[a].son_seq()[
                                j] != self.root by {
                                    assert(ia1[a].son_seq()[j] == ia0[a].son_seq()[j]);
                                }
                            }
                        }
                        let right_id = self.alloc_internal(right);
                        let ghost ia2 = self.i@;
                        let ghost rnode = ia2[right_id as int];
                        proof {
                            lemma_wf_grow::<K, V>(
                                ia1,
                                la0,
                                ia2,
                                la0,
                                self.root,
                                self.height@,
                                None,
                                None,
                            );
                            lemma_wf_grow::<K, V>(ia1, la0, ia2, la0, cur, d, glo, Some(sep));
                            lemma_route_grow::<K>(
                                ia1,
                                ia2,
                                self.root,
                                self.height@,
                                None,
                                None,
                                k@,
                                cur,
                                d,
                                glo,
                                ghi,
                            );
                            match father_id {
                                Some(fid) => {
                                    lemma_wf_grow::<K, V>(
                                        ia1,
                                        la0,
                                        ia2,
                                        la0,
                                        NodeIndex::Internal(fid),
                                        (d + 1) as nat,
                                        flo,
                                        fhi,
                                    );
                                    lemma_route_grow::<K>(
                                        ia1,
                                        ia2,
                                        self.root,
                                        self.height@,
                                        None,
                                        None,
                                        k@,
                                        NodeIndex::Internal(fid),
                                        (d + 1) as nat,
                                        flo,
                                        fhi,
                                    );
                                },
                                None => {},
                            }
                            // The fresh right sibling is well-formed on
                            // `(sep, ghi]`.
                            assert(strictly_sorted::<K>(rnode.key_seq()));
                            assert forall|e: int|
                                0 <= e < rnode.key_seq().len() implies in_range::<K>(
                                Some(sep),
                                ghi,
                                (#[trigger] rnode.key_seq()[e])@,
                            ) by {
                                assert(rnode.key_seq()[e] == cfull.key_seq()[half + e]);
                                assert(key_lt::<K>(sep, cfull.key_seq()[half + e]@));
                            }
                            assert forall|j: int|
                                0 <= j < rnode.son_seq().len() implies wf_node::<K, V>(
                                ia2,
                                la0,
                                #[trigger] rnode.son_seq()[j],
                                (d - 1) as nat,
                                son_lo::<K>(rnode, Some(sep), j),
                                son_hi::<K>(rnode, ghi, j),
                            ) by {
                                let son = cfull.son_seq()[half + j];
                                assert(rnode.son_seq()[j] == son);
                                assert(son_lo::<K>(rnode, Some(sep), j) == son_lo::<K>(
                                    cfull,
                                    glo,
                                    half + j,
                                ));
                                assert(son_hi::<K>(rnode, ghi, j) == son_hi::<K>(
                                    cfull,
                                    ghi,
                                    half + j,
                                ));
                                assert(wf_node::<K, V>(
                                    ia0,
                                    la0,
                                    son,
                                    (d - 1) as nat,
                                    son_lo::<K>(cfull, glo, half + j),
                                    son_hi::<K>(cfull, ghi, half + j),
                                ));
                                if reaches::<K>(ia0, son, (d - 1) as nat, NodeIndex::Internal(id)) {
                                    lemma_reach_wf::<K, V>(
                                        ia0,
                                        la0,
                                        son,
                                        (d - 1) as nat,
                                        son_lo::<K>(cfull, glo, half + j),
                                        son_hi::<K>(cfull, ghi, half + j),
                                        NodeIndex::Internal(id),
                                    );
                                    let (dd, llo, hhi) = choose|
                                        dd: nat,
                                        llo: Option<K::V>,
                                        hhi: Option<K::V>,
                                    |
                                        dd <= (d - 1) as nat && wf_node::<K, V>(
                                            ia0,
                                            la0,
                                            NodeIndex::Internal(id),
                                            dd,
                                            llo,
                                            hhi,
                                        );
                                    lemma_wf_depth_unique::<K, V>(
                                        ia0,
                                        la0,
                                        NodeIndex::Internal(id),
                                        dd,
                                        llo,
                                        hhi,
                                        d,
                                        glo,
                                        ghi,
                                    );
                                }
                                lemma_wf_frame_i::<K, V>(
                                    ia0,
                                    ia1,
                                    la0,
                                    la0,
                                    son,
                                    (d - 1) as nat,
                                    son_lo::<K>(cfull, glo, half + j),
                                    son_hi::<K>(cfull, ghi, half + j),
                                    id as int,
                                );
                                lemma_wf_grow::<K, V>(
                                    ia1,
                                    la0,
                                    ia2,
                                    la0,
                                    son,
                                    (d - 1) as nat,
                                    son_lo::<K>(cfull, glo, half + j),
                                    son_hi::<K>(cfull, ghi, half + j),
                                );
                            }
                            assert(wf_node::<K, V>(
                                ia2,
                                la0,
                                NodeIndex::Internal(right_id),
                                d,
                                Some(sep),
                                ghi,
                            ));
                            // Arena bookkeeping: the fresh slot collides
                            // with nothing.
                            assert forall|a: int, j: int, b: int, m: int|
                                0 <= a < ia2.len() && 0 <= j < ia2[a].son_seq().len() && 0 <= b
                                    < ia2.len() && 0 <= m < ia2[b].son_seq().len()
                                    && #[trigger] ia2[a].son_seq()[j] == #[trigger] ia2[b].son_seq()[
                                m] implies a == b && j == m by {
                                let va = if a == right_id as int {
                                    ia0[id as int].son_seq()[half + j]
                                } else {
                                    ia0[a].son_seq()[j]
                                };
                                let vb = if b == right_id as int {
                                    ia0[id as int].son_seq()[half + m]
                                } else {
                                    ia0[b].son_seq()[m]
                                };
                                assert(ia2[a].son_seq()[j] == va);
                                assert(ia2[b].son_seq()[m] == vb);
                                if a == right_id as int && b == right_id as int {
                                } else if a == right_id as int {
                                    assert(b == id as int && m == half + j);
                                    assert(m < lnode.son_seq().len());
                                    assert(false);
                                } else if b == right_id as int {
                                    assert(a == id as int && j == half + m);
                                    assert(j < lnode.son_seq().len());
                                    assert(false);
                                }
                            }
                            assert(sons_ok::<K>(ia2, la0.len() as int)) by {
                                assert forall|a: int, j: int|
                                    0 <= a < ia2.len() && 0 <= j < ia2[a].son_seq().len() implies (
                                match #[trigger] ia2[a].son_seq()[j] {
                                    NodeIndex::Internal(y) => y < ia2.len(),
                                    NodeIndex::Leaf(y) => y < la0.len(),
                                }) by {
                                    if a == right_id as int {
                                        assert(ia2[a].son_seq()[j] == ia0[id as int].son_seq()[half
                                            + j]);
                                    } else {
                                        assert(ia2[a].son_seq()[j] == ia1[a].son_seq()[j]);
                                    }
                                }
                            }
                            assert(root_not_son::<K>(ia2, self.root)) by {
                                assert forall|a: int, j: int|
                                    0 <= a < ia2.len() && 0 <= j < ia2[a].son_seq().len() implies #[trigger] ia2[a].son_seq()[
                                j] != self.root by {
                                    if a == right_id as int {
                                        assert(ia2[a].son_seq()[j] == ia0[id as int].son_seq()[half
                                            + j]);
                                    } else {
                                        assert(ia2[a].son_seq()[j] == ia0[a].son_seq()[j]);
                                    }
                                }
                            }
                        }
                        if father_id.is_none() {
                            // The root itself split: grow the tree by one
                            // level.
                            let ghost iaq = self.i@;
                            let rid = self.make_new_root(NodeIndex::Internal(id));
                            father_id = Some(rid);
                            father_son_index = 0;
                            proof {
                                flo = None;
                                fhi = None;
                                let ia3 = self.i@;
                                lemma_wf_grow::<K, V>(iaq, la0, ia3, la0, cur, d, glo, Some(sep));
                                lemma_wf_grow::<K, V>(
                                    iaq,
                                    la0,
                                    ia3,
                                    la0,
                                    NodeIndex::Internal(right_id),
                                    d,
                                    Some(sep),
                                    ghi,
                                );
                                assert(ia3[rid as int].son_seq() == seq![cur]);
                                assert(ia3[rid as int].son_seq()[0] == cur);
                                assert(son_lo::<K>(ia3[rid as int], None, 0) == None::<K::V>);
                                assert(son_hi::<K>(ia3[rid as int], None, 0) == None::<K::V>);
                                assert(glo is None && ghi is None);
                                lemma_wf_grow::<K, V>(iaq, la0, ia3, la0, cur, d, glo, ghi);
                                assert(wf_node::<K, V>(
                                    ia3,
                                    la0,
                                    self.root,
                                    self.height@,
                                    None,
                                    None,
                                ));
                                assert(bs_lower::<K>(ia3[rid as int].key_seq(), k@) == 0);
                                assert(route_ctx::<K>(ia3, cur, d, glo, ghi, k@, cur, d, glo, ghi));
                                assert(route_ctx::<K>(
                                    ia3,
                                    self.root,
                                    self.height@,
                                    None,
                                    None,
                                    k@,
                                    cur,
                                    d,
                                    glo,
                                    ghi,
                                ));
                                assert(route_ctx::<K>(
                                    ia3,
                                    self.root,
                                    self.height@,
                                    None,
                                    None,
                                    k@,
                                    NodeIndex::Internal(rid),
                                    (d + 1) as nat,
                                    None,
                                    None,
                                ));
                                // Arena bookkeeping for the fresh root.
                                assert forall|a: int, j: int, b: int, m: int|
                                    0 <= a < ia3.len() && 0 <= j < ia3[a].son_seq().len() && 0 <= b
                                        < ia3.len() && 0 <= m < ia3[b].son_seq().len()
                                        && #[trigger] ia3[a].son_seq()[j]
                                        == #[trigger] ia3[b].son_seq()[m] implies a == b && j
                                    == m by {
                                    if a == rid as int && b != rid as int {
                                        assert(ia3[b].son_seq()[m] == ia2[b].son_seq()[m]);
                                        assert(ia3[a].son_seq()[j] == cur);
                                        assert(false);
                                    } else if b == rid as int && a != rid as int {
                                        assert(ia3[a].son_seq()[j] == ia2[a].son_seq()[j]);
                                        assert(ia3[b].son_seq()[m] == cur);
                                        assert(false);
                                    } else if a != rid as int && b != rid as int {
                                        assert(ia3[a].son_seq()[j] == ia2[a].son_seq()[j]);
                                        assert(ia3[b].son_seq()[m] == ia2[b].son_seq()[m]);
                                    }
                                }
                                assert(sons_ok::<K>(ia3, la0.len() as int)) by {
                                    assert forall|a: int, j: int|
                                        0 <= a < ia3.len() && 0 <= j < ia3[a].son_seq().len() implies (
                                    match #[trigger] ia3[a].son_seq()[j] {
                                        NodeIndex::Internal(y) => y < ia3.len(),
                                        NodeIndex::Leaf(y) => y < la0.len(),
                                    }) by {
                                        if a != rid as int {
                                            assert(ia3[a].son_seq()[j] == ia2[a].son_seq()[j]);
                                        } else {
                                            assert(ia3[a].son_seq()[j] == cur);
                                        }
                                    }
                                }
                                assert(root_not_son::<K>(ia3, self.root)) by {
                                    assert forall|a: int, j: int|
                                        0 <= a < ia3.len() && 0 <= j
                                            < ia3[a].son_seq().len() implies #[trigger] ia3[a].son_seq()[
                                    j] != self.root by {
                                        if a != rid as int {
                                            assert(ia3[a].son_seq()[j] == ia2[a].son_seq()[j]);
                                            match ia2[a].son_seq()[j] {
                                                NodeIndex::Internal(y) => {
                                                    assert(y < ia2.len());
                                                },
                                                NodeIndex::Leaf(_) => {},
                                            }
                                        } else {
                                            assert(ia3[a].son_seq()[j] == cur);
                                            assert(id < ia0.len());
                                        }
                                    }
                                }
                            }
                        }
                        let fid = father_id.unwrap();
                        proof {
                            self.i@[fid as int].lemma_wf_arity();
                        }
                        let ghost ia3 = self.i@;
                        let ghost fold = ia3[fid as int];
                        self.i[fid].insert(
                            father_son_index + 1,
                            &left_max,
                            NodeIndex::Internal(right_id),
                        );
                        let ghost ia4 = self.i@;
                        let ghost fnew = ia4[fid as int];
                        let ghost fsi = father_son_index as int;
                        proof {
                            let dfa = (d + 1) as nat;
                            let ko = fold.key_seq();
                            let kn = fnew.key_seq();
                            let w = cfull.key_seq()[half];
                            assert(kn == ko.insert(fsi, left_max));
                            assert(fnew.son_seq() == fold.son_seq().insert(
                                fsi + 1,
                                NodeIndex::Internal(right_id),
                            ));
                            assert(kn =~= ko.subrange(0, fsi) + seq![left_max] + ko.subrange(
                                fsi,
                                ko.len() as int,
                            ));
                            // `sep` fits strictly between the father's
                            // neighbouring separators.
                            assert(key_lt::<K>(sep, w@));
                            if fsi < ko.len() {
                                assert(ghi == Some(ko[fsi]@));
                                assert(at_most::<K>(ghi, w@));
                                lemma_key_lt_le_trans::<K>(sep, w@, ko[fsi]@);
                            }
                            if fsi > 0 {
                                assert(glo == Some(ko[fsi - 1]@));
                                assert(key_lt::<K>(ko[fsi - 1]@, sep));
                            }
                            assert(strictly_sorted::<K>(kn)) by {
                                assert forall|x: int, y: int|
                                    0 <= x < y < kn.len() implies key_lt::<K>(kn[x]@, kn[y]@) by {
                                    lemma_key_lt::<K>(kn[x]@, kn[y]@);
                                    if x < fsi && y == fsi {
                                        if x < fsi - 1 {
                                            assert(key_lt::<K>(ko[x]@, ko[fsi - 1]@));
                                            lemma_key_lt::<K>(ko[fsi - 1]@, sep);
                                            lemma_key_lt_le_trans::<K>(ko[x]@, ko[fsi - 1]@, sep);
                                        }
                                    } else if x == fsi && y > fsi {
                                        if y - 1 > fsi {
                                            assert(key_lt::<K>(sep, ko[fsi]@));
                                            lemma_key_lt::<K>(ko[fsi]@, ko[y - 1]@);
                                            lemma_key_lt_le_trans::<K>(sep, ko[fsi]@, ko[y - 1]@);
                                        }
                                    }
                                }
                            }
                            assert forall|e: int|
                                0 <= e < kn.len() implies in_range::<K>(
                                flo,
                                fhi,
                                (#[trigger] kn[e])@,
                            ) by {
                                if e == fsi {
                                    assert(kn[e] == left_max);
                                    match flo {
                                        None => {},
                                        Some(fl) => {
                                            if fsi > 0 {
                                                lemma_key_lt::<K>(ko[fsi - 1]@, sep);
                                                lemma_key_lt_le_trans::<K>(fl, ko[fsi - 1]@, sep);
                                            }
                                        },
                                    }
                                    match fhi {
                                        None => {},
                                        Some(fh) => {
                                            if fsi < ko.len() {
                                                lemma_key_lt::<K>(sep, ko[fsi]@);
                                                K::le_trans(sep, ko[fsi]@, fh);
                                            }
                                        },
                                    }
                                } else if e < fsi {
                                    assert(kn[e] == ko[e]);
                                } else {
                                    assert(kn[e] == ko[e - 1]);
                                }
                            }
                            assert forall|jj: int|
                                0 <= jj < fnew.son_seq().len() implies wf_node::<K, V>(
                                ia4,
                                la0,
                                #[trigger] fnew.son_seq()[jj],
                                (dfa - 1) as nat,
                                son_lo::<K>(fnew, flo, jj),
                                son_hi::<K>(fnew, fhi, jj),
                            ) by {
                                let scnt = fold.son_seq().len() as int;
                                let pre_wf: bool = true;
                                let (son, slo, shi): (NodeIndex, Option<K::V>, Option<K::V>) = if jj
                                    < fsi {
                                    (fold.son_seq()[jj], son_lo::<K>(fold, flo, jj), son_hi::<K>(
                                        fold,
                                        fhi,
                                        jj,
                                    ))
                                } else if jj == fsi {
                                    (cur, glo, Some(sep))
                                } else if jj == fsi + 1 {
                                    (NodeIndex::Internal(right_id), Some(sep), ghi)
                                } else {
                                    (fold.son_seq()[jj - 1], son_lo::<K>(fold, flo, jj - 1),
                                    son_hi::<K>(fold, fhi, jj - 1))
                                };
                                assert(fnew.son_seq()[jj] == son);
                                assert(son_lo::<K>(fnew, flo, jj) == slo);
                                assert(son_hi::<K>(fnew, fhi, jj) == shi);
                                assert(wf_node::<K, V>(ia3, la0, son, d, slo, shi));
                                if reaches::<K>(ia3, son, d, NodeIndex::Internal(fid)) {
                                    lemma_reach_wf::<K, V>(
                                        ia3,
                                        la0,
                                        son,
                                        d,
                                        slo,
                                        shi,
                                        NodeIndex::Internal(fid),
                                    );
                                    let (dd, llo, hhi) = choose|
                                        dd: nat,
                                        llo: Option<K::V>,
                                        hhi: Option<K::V>,
                                    |
                                        dd <= d && wf_node::<K, V>(
                                            ia3,
                                            la0,
                                            NodeIndex::Internal(fid),
                                            dd,
                                            llo,
                                            hhi,
                                        );
                                    lemma_wf_depth_unique::<K, V>(
                                        ia3,
                                        la0,
                                        NodeIndex::Internal(fid),
                                        dd,
                                        llo,
                                        hhi,
                                        dfa,
                                        flo,
                                        fhi,
                                    );
                                }
                                lemma_wf_frame_i::<K, V>(
                                    ia3,
                                    ia4,
                                    la0,
                                    la0,
                                    son,
                                    d,
                                    slo,
                                    shi,
                                    fid as int,
                                );
                            }
                            assert(wf_node::<K, V>(ia4, la0, NodeIndex::Internal(fid), dfa, flo, fhi));
                            lemma_wf_update_route::<K, V>(
                                ia3,
                                ia4,
                                la0,
                                la0,
                                self.root,
                                self.height@,
                                None,
                                None,
                                k@,
                                fid,
                                dfa,
                                flo,
                                fhi,
                            );
                            lemma_route_frame::<K, V>(
                                ia3,
                                ia4,
                                la0,
                                self.root,
                                self.height@,
                                None,
                                None,
                                k@,
                                NodeIndex::Internal(fid),
                                dfa,
                                flo,
                                fhi,
                                fid as int,
                                dfa,
                                flo,
                                fhi,
                                fid as int,
                                dfa,
                                flo,
                                fhi,
                            );
                            if reaches::<K>(ia3, cur, d, NodeIndex::Internal(fid)) {
                                lemma_reach_wf::<K, V>(
                                    ia3,
                                    la0,
                                    cur,
                                    d,
                                    glo,
                                    Some(sep),
                                    NodeIndex::Internal(fid),
                                );
                                let (dd, llo, hhi) = choose|
                                    dd: nat,
                                    llo: Option<K::V>,
                                    hhi: Option<K::V>,
                                |
                                    dd <= d && wf_node::<K, V>(
                                        ia3,
                                        la0,
                                        NodeIndex::Internal(fid),
                                        dd,
                                        llo,
                                        hhi,
                                    );
                                lemma_wf_depth_unique::<K, V>(
                                    ia3,
                                    la0,
                                    NodeIndex::Internal(fid),
                                    dd,
                                    llo,
                                    hhi,
                                    (d + 1) as nat,
                                    flo,
                                    fhi,
                                );
                            }
                            lemma_wf_frame_i::<K, V>(
                                ia3,
                                ia4,
                                la0,
                                la0,
                                cur,
                                d,
                                glo,
                                Some(sep),
                                fid as int,
                            );
                            if reaches::<K>(
                                ia3,
                                NodeIndex::Internal(right_id),
                                d,
                                NodeIndex::Internal(fid),
                            ) {
                                lemma_reach_wf::<K, V>(
                                    ia3,
                                    la0,
                                    NodeIndex::Internal(right_id),
                                    d,
                                    Some(sep),
                                    ghi,
                                    NodeIndex::Internal(fid),
                                );
                                let (dd, llo, hhi) = choose|
                                    dd: nat,
                                    llo: Option<K::V>,
                                    hhi: Option<K::V>,
                                |
                                    dd <= d && wf_node::<K, V>(
                                        ia3,
                                        la0,
                                        NodeIndex::Internal(fid),
                                        dd,
                                        llo,
                                        hhi,
                                    );
                                lemma_wf_depth_unique::<K, V>(
                                    ia3,
                                    la0,
                                    NodeIndex::Internal(fid),
                                    dd,
                                    llo,
                                    hhi,
                                    (d + 1) as nat,
                                    flo,
                                    fhi,
                                );
                            }
                            lemma_wf_frame_i::<K, V>(
                                ia3,
                                ia4,
                                la0,
                                la0,
                                NodeIndex::Internal(right_id),
                                d,
                                Some(sep),
                                ghi,
                                fid as int,
                            );
                            // No existing child slot holds the fresh
                            // sibling's handle.
                            assert forall|a: int, j: int|
                                0 <= a < ia3.len() && 0 <= j
                                    < ia3[a].son_seq().len() implies #[trigger] ia3[a].son_seq()[j]
                                != NodeIndex::Internal(right_id) by {
                                match ia3[a].son_seq()[j] {
                                    NodeIndex::Internal(y) => {
                                        if a < ia0.len() && a != id as int {
                                            assert(ia3[a].son_seq()[j] == ia0[a].son_seq()[j]);
                                            assert(y < ia0.len());
                                        } else if a == id as int {
                                            assert(ia3[a].son_seq()[j] == ia0[id as int].son_seq()[
                                                j]);
                                            assert(y < ia0.len());
                                        } else if a == right_id as int {
                                            assert(ia3[a].son_seq()[j] == ia0[id as int].son_seq()[
                                                half + j]);
                                            assert(y < ia0.len());
                                        } else {
                                            assert(ia3[a].son_seq()[j] == cur);
                                            assert(y < ia0.len());
                                        }
                                    },
                                    NodeIndex::Leaf(_) => {},
                                }
                            }
                            ia4[fid as int].lemma_wf_arity();
                            if self.root == NodeIndex::Internal(right_id) {
                                lemma_wf_depth_unique::<K, V>(
                                    ia3,
                                    la0,
                                    NodeIndex::Internal(right_id),
                                    d,
                                    Some(sep),
                                    ghi,
                                    self.height@,
                                    None,
                                    None,
                                );
                            }
                            lemma_arena_after_attach::<K>(
                                ia3,
                                ia4,
                                la0.len() as int,
                                self.root,
                                fid,
                                (father_son_index + 1) as int,
                                NodeIndex::Internal(right_id),
                            );
                        }
                        // Continue on the side of the split where `k`
                        // belongs.
                        let go_right = match left_max.key_cmp(k) {
                            KeyCmp::Less => true,
                            _ => false,
                        };
                        proof {
                            let ko = fold.key_seq();
                            let kn = fnew.key_seq();
                            let fsi2 = father_son_index as int;
                            lemma_strictly_sorted_implies_sorted::<K>(ko);
                            lemma_strictly_sorted_implies_sorted::<K>(kn);
                            lemma_bs_lower_sorted::<K>(ko, k@);
                            if !go_right {
                                K::le_total(k@, sep);
                                lemma_key_lt::<K>(sep, k@);
                                assert(K::le(k@, sep));
                                assert forall|e: int| 0 <= e < fsi2 implies key_lt::<K>(
                                    (#[trigger] kn[e])@,
                                    k@,
                                ) by {
                                    assert(kn[e] == ko[e]);
                                }
                                lemma_bs_lower_unique::<K>(kn, k@, fsi2);
                                lemma_route_extend::<K>(
                                    self.i@,
                                    self.root,
                                    self.height@,
                                    None,
                                    None,
                                    k@,
                                    fid,
                                    (d + 1) as nat,
                                    flo,
                                    fhi,
                                );
                                assert(fnew.son_seq()[fsi2] == cur);
                                assert(son_lo::<K>(fnew, flo, fsi2) == glo);
                                assert(son_hi::<K>(fnew, fhi, fsi2) == Some(sep));
                                ghi = Some(sep);
                            } else {
                                lemma_key_lt::<K>(sep, k@);
                                assert(key_lt::<K>(sep, k@));
                                assert forall|e: int| 0 <= e < fsi2 + 1 implies key_lt::<K>(
                                    (#[trigger] kn[e])@,
                                    k@,
                                ) by {
                                    if e < fsi2 {
                                        assert(kn[e] == ko[e]);
                                    } else {
                                        assert(kn[e] == left_max);
                                    }
                                }
                                if fsi2 + 1 < kn.len() {
                                    assert(kn[fsi2 + 1] == ko[fsi2]);
                                }
                                lemma_bs_lower_unique::<K>(kn, k@, fsi2 + 1);
                                lemma_route_extend::<K>(
                                    self.i@,
                                    self.root,
                                    self.height@,
                                    None,
                                    None,
                                    k@,
                                    fid,
                                    (d + 1) as nat,
                                    flo,
                                    fhi,
                                );
                                assert(fnew.son_seq()[fsi2 + 1] == NodeIndex::Internal(right_id));
                                assert(son_lo::<K>(fnew, flo, fsi2 + 1) == Some(sep));
                                assert(son_hi::<K>(fnew, fhi, fsi2 + 1) == ghi);
                                glo = Some(sep);
                            }
                        }
                        if go_right {
                            id = right_id;
                        }
                        father_id = Some(fid);
                        proof {
                            cur = NodeIndex::Internal(id);
                        }
                        proof {
                            if (fid as int) == (id0 as int) {
                                lemma_wf_depth_unique::<K, V>(
                                    ia0,
                                    la0,
                                    NodeIndex::Internal(id0),
                                    d,
                                    gs@.1,
                                    gs@.2,
                                    (d + 1) as nat,
                                    flo,
                                    fhi,
                                );
                            }
                            assert(self.i@[id0 as int] == lnode);
                            assert(self.i@[right_id as int] == rnode);
                            lemma_split_find_same::<K, V>(
                                ia0,
                                self.i@,
                                la0,
                                old(self).root,
                                old(self).height@,
                                self.root,
                                self.height@,
                                k@,
                                id0,
                                id,
                                fid,
                                flo,
                                fhi,
                                cfull,
                                lnode,
                                rnode,
                                half,
                                sep,
                                d,
                                gs@.1,
                                gs@.2,
                                glo,
                                ghi,
                                go_right,
                                right_id,
                            );
                        }

        (id, Ghost((glo, ghi)))
    }

    /// One descent step through an internal node: split it first if it is
    /// full (adopting a fresh root when the split node was the root), then
    /// step to the child covering `k`. Returns the new parent, the child's
    /// position, the child, and the narrowed route state.
    #[verifier::rlimit(100)]
    #[verifier::spinoff_prover]
    fn insert_step_internal(
        &mut self,
        id0: usize,
        father_id: Option<usize>,
        father_son_index: usize,
        k: &K,
        gs: Ghost<(nat, Option<K::V>, Option<K::V>, Option<K::V>, Option<K::V>)>,
    ) -> (res: (usize, usize, NodeIndex, Ghost<(nat, Option<K::V>, Option<K::V>, Option<K::V>, Option<K::V>)>))
        requires
            sons_inj::<K>(old(self).i@),
            sons_ok::<K>(old(self).i@, old(self).l@.len() as int),
            root_not_son::<K>(old(self).i@, old(self).root),
            wf_node::<K, V>(old(self).i@, old(self).l@, old(self).root, old(self).height@, None, None),
            route_ctx::<K>(old(self).i@, old(self).root, old(self).height@, None, None, k@, NodeIndex::Internal(id0), gs@.0, gs@.1, gs@.2),
            in_range::<K>(gs@.1, gs@.2, k@),
            wf_node::<K, V>(old(self).i@, old(self).l@, NodeIndex::Internal(id0), gs@.0, gs@.1, gs@.2),
            match father_id {
                None => NodeIndex::Internal(id0) == old(self).root && gs@.0 == old(self).height@ && gs@.1 is None && gs@.2 is None,
                Some(fid) => {
                    &&& (fid as int) < old(self).i@.len()
                    &&& route_ctx::<K>(old(self).i@, old(self).root, old(self).height@, None, None, k@, NodeIndex::Internal(fid), (gs@.0 + 1) as nat, gs@.3, gs@.4)
                    &&& wf_node::<K, V>(old(self).i@, old(self).l@, NodeIndex::Internal(fid), (gs@.0 + 1) as nat, gs@.3, gs@.4)
                    &&& old(self).i@[fid as int].son_seq().len() < NODE_DEG
                    &&& (father_son_index as int) < old(self).i@[fid as int].son_seq().len()
                    &&& old(self).i@[fid as int].son_seq()[father_son_index as int] == NodeIndex::Internal(id0)
                    &&& bs_lower::<K>(old(self).i@[fid as int].key_seq(), k@) == father_son_index as int
                    &&& son_lo::<K>(old(self).i@[fid as int], gs@.3, father_son_index as int) == gs@.1
                    &&& son_hi::<K>(old(self).i@[fid as int], gs@.4, father_son_index as int) == gs@.2
                },
            },
        ensures
            sons_inj::<K>(final(self).i@),
            sons_ok::<K>(final(self).i@, final(self).l@.len() as int),
            root_not_son::<K>(final(self).i@, final(self).root),
            wf_node::<K, V>(final(self).i@, final(self).l@, final(self).root, final(self).height@, None, None),
            route_ctx::<K>(final(self).i@, final(self).root, final(self).height@, None, None, k@, res.2, (gs@.0 - 1) as nat, res.3@.1, res.3@.2),
            in_range::<K>(res.3@.1, res.3@.2, k@),
            wf_node::<K, V>(final(self).i@, final(self).l@, res.2, (gs@.0 - 1) as nat, res.3@.1, res.3@.2),
            final(self).l@ == old(self).l@,
            res.3@.0 == (gs@.0 - 1) as nat,
            (res.0 as int) < final(self).i@.len(),
            route_ctx::<K>(final(self).i@, final(self).root, final(self).height@, None, None, k@, NodeIndex::Internal(res.0), gs@.0, res.3@.3, res.3@.4),
            wf_node::<K, V>(final(self).i@, final(self).l@, NodeIndex::Internal(res.0), gs@.0, res.3@.3, res.3@.4),
            final(self).i@[res.0 as int].son_seq().len() < NODE_DEG,
            (res.1 as int) < final(self).i@[res.0 as int].son_seq().len(),
            final(self).i@[res.0 as int].son_seq()[res.1 as int] == res.2,
            bs_lower::<K>(final(self).i@[res.0 as int].key_seq(), k@) == res.1 as int,
            son_lo::<K>(final(self).i@[res.0 as int], res.3@.3, res.1 as int) == res.3@.1,
            son_hi::<K>(final(self).i@[res.0 as int], res.3@.4, res.1 as int) == res.3@.2,
            match father_id {
                None => (final(self).root is Internal) == ((old(self).root is Internal) || old(self).root_full()),
                Some(_) => final(self).root is Internal <==> old(self).root is Internal,
            },
            father_id is Some ==> final(self).root == old(self).root,
            final(self).find(k@) == old(self).find(k@),
    {
        let ghost mut d = gs@.0;
        let ghost mut glo = gs@.1;
        let ghost mut ghi = gs@.2;
        let ghost mut flo = gs@.3;
        let ghost mut fhi = gs@.4;
        let mut father_id = father_id;
        let mut father_son_index = father_son_index;
        let ghost mut cur = NodeIndex::Internal(id0);

                    let mut id = id0;
                    proof {
                        self.i@[id as int].lemma_wf_arity();
                    }
                    if self.i[id].full() {
                        let res = self.split_internal_child(
                            id,
                            father_id,
                            father_son_index,
                            k,
                            Ghost((d, glo, ghi, flo, fhi)),
                        );
                        id = res.0;
                        proof {
                            glo = res.1@.0;
                            ghi = res.1@.1;
                        }
                    }
                    // Record this node as the parent and step down to the
                    // child that covers `k`.
                    proof {
                        self.i@[id as int].lemma_wf_arity();
                    }
                    let tmp = self.i[id].lookup(k);
                    proof {
                        let node = self.i@[id as int];
                        let j = tmp.0 as int;
                        lemma_strictly_sorted_implies_sorted::<K>(node.key_seq());
                        lemma_bs_lower_sorted::<K>(node.key_seq(), k@);
                        lemma_route_extend::<K>(
                            self.i@,
                            self.root,
                            self.height@,
                            None,
                            None,
                            k@,
                            id,
                            d,
                            glo,
                            ghi,
                        );
                        flo = glo;
                        fhi = ghi;
                        glo = son_lo::<K>(node, flo, j);
                        ghi = son_hi::<K>(node, fhi, j);
                        d = (d - 1) as nat;
                    }
                
        (id, tmp.0, tmp.1, Ghost((d, glo, ghi, flo, fhi)))
    }

    /// The terminal step of an upsert: split the leaf first if it is full,
    /// then apply the upsert to the leaf now covering `k`.
    #[verifier::rlimit(100)]
    #[verifier::spinoff_prover]
    fn insert_step_leaf(
        &mut self,
        id0: usize,
        father_id: Option<usize>,
        father_son_index: usize,
        k: &K,
        v: &V,
        gs: Ghost<(nat, Option<K::V>, Option<K::V>, Option<K::V>, Option<K::V>)>,
    ) -> (r: Option<V>)
        requires
            sons_inj::<K>(old(self).i@),
            sons_ok::<K>(old(self).i@, old(self).l@.len() as int),
            root_not_son::<K>(old(self).i@, old(self).root),
            wf_node::<K, V>(old(self).i@, old(self).l@, old(self).root, old(self).height@, None, None),
            route_ctx::<K>(old(self).i@, old(self).root, old(self).height@, None, None, k@, NodeIndex::Leaf(id0), gs@.0, gs@.1, gs@.2),
            in_range::<K>(gs@.1, gs@.2, k@),
            wf_node::<K, V>(old(self).i@, old(self).l@, NodeIndex::Leaf(id0), gs@.0, gs@.1, gs@.2),
            match father_id {
                None => NodeIndex::Leaf(id0) == old(self).root && gs@.0 == old(self).height@ && gs@.1 is None && gs@.2 is None,
                Some(fid) => {
                    &&& (fid as int) < old(self).i@.len()
                    &&& route_ctx::<K>(old(self).i@, old(self).root, old(self).height@, None, None, k@, NodeIndex::Internal(fid), (gs@.0 + 1) as nat, gs@.3, gs@.4)
                    &&& wf_node::<K, V>(old(self).i@, old(self).l@, NodeIndex::Internal(fid), (gs@.0 + 1) as nat, gs@.3, gs@.4)
                    &&& old(self).i@[fid as int].son_seq().len() < NODE_DEG
                    &&& (father_son_index as int) < old(self).i@[fid as int].son_seq().len()
                    &&& old(self).i@[fid as int].son_seq()[father_son_index as int] == NodeIndex::Leaf(id0)
                    &&& bs_lower::<K>(old(self).i@[fid as int].key_seq(), k@) == father_son_index as int
                    &&& son_lo::<K>(old(self).i@[fid as int], gs@.3, father_son_index as int) == gs@.1
                    &&& son_hi::<K>(old(self).i@[fid as int], gs@.4, father_son_index as int) == gs@.2
                },
            },
        ensures
            final(self).wf(),
            final(self).find(k@) == Some(*v),
            final(self).stores(k@, *v),
            r matches Some(x) ==> old(self).stores(k@, x),
            r == old(self).find(k@),
            forall|k2: K::V, x: V|
                k2 != k@ && old(self).stores(k2, x) ==> final(self).stores(k2, x),
            forall|k2: K::V, x: V|
                k2 != k@ && final(self).stores(k2, x) ==> old(self).stores(k2, x),
            match father_id {
                None => (final(self).root is Internal) == ((old(self).root is Internal) || old(self).root_full()),
                Some(_) => final(self).root is Internal <==> old(self).root is Internal,
            },
    {
        let ghost mut d = gs@.0;
        let ghost mut glo = gs@.1;
        let ghost mut ghi = gs@.2;
        let ghost mut flo = gs@.3;
        let ghost mut fhi = gs@.4;
        let mut father_id = father_id;
        let mut father_son_index = father_son_index;
        let ghost cur = NodeIndex::Leaf(id0);

                    let mut id = id0;
                    proof {
                        self.l@[id as int].lemma_wf_props();
                        assert((id0 as int) < old(self).l@.len());
                        assert(old(self).l@[id0 as int].wf());
                    }
                    let ghost mut leaf_split: bool = false;
                    if self.l[id].full() {
                        // Pre-emptive split of a full leaf.
                        let ghost ia0 = self.i@;
                        let ghost la0 = self.l@;
                        let ghost cleaf = self.l@[id as int];
                        let ghost half = (NODE_DEG as int) / 2;
                        let (left_max, right) = self.l[id].split();
                        let ghost la1 = self.l@;
                        let ghost sep = left_max@;
                        proof {
                            leaf_split = true;
                            assert(cleaf.entries().len() == NODE_DEG);
                            assert(sep == cleaf.entries()[half - 1].0);
                            assert(in_range::<K>(glo, ghi, sep));
                            cleaf.lemma_wf_props();
                            // Left half stays inside `(glo, sep]`, hence
                            // inside the route's interval.
                            assert forall|e: int|
                                0 <= e < la1[id as int].entries().len() implies in_range::<K>(
                                glo,
                                ghi,
                                (#[trigger] la1[id as int].entries()[e]).0,
                            ) by {
                                assert(la1[id as int].entries()[e] == cleaf.entries()[e]);
                            }
                            lemma_wf_update_leaf_route::<K, V>(
                                ia0,
                                la0,
                                la1,
                                self.root,
                                self.height@,
                                None,
                                None,
                                k@,
                                id,
                                glo,
                                ghi,
                            );
                            match father_id {
                                Some(fid) => {
                                    assert(route_ctx::<K>(
                                        ia0,
                                        cur,
                                        d,
                                        glo,
                                        ghi,
                                        k@,
                                        cur,
                                        d,
                                        glo,
                                        ghi,
                                    ));
                                    assert(route_ctx::<K>(
                                        ia0,
                                        NodeIndex::Internal(fid),
                                        (d + 1) as nat,
                                        flo,
                                        fhi,
                                        k@,
                                        cur,
                                        d,
                                        glo,
                                        ghi,
                                    ));
                                    lemma_wf_update_leaf_route::<K, V>(
                                        ia0,
                                        la0,
                                        la1,
                                        NodeIndex::Internal(fid),
                                        (d + 1) as nat,
                                        flo,
                                        fhi,
                                        k@,
                                        id,
                                        glo,
                                        ghi,
                                    );
                                },
                                None => {},
                            }
                            // The shrunken left leaf on `(glo, sep]`.
                            assert forall|e: int|
                                0 <= e < la1[id as int].entries().len() implies in_range::<K>(
                                glo,
                                Some(sep),
                                (#[trigger] la1[id as int].entries()[e]).0,
                            ) by {
                                assert(la1[id as int].entries()[e] == cleaf.entries()[e]);
                                if e < half - 1 {
                                    lemma_key_lt::<K>(cleaf.entries()[e].0, sep);
                                } else {
                                    K::le_total(sep, sep);
                                }
                            }
                            assert(wf_node::<K, V>(ia0, la1, NodeIndex::Leaf(id), 0, glo, Some(sep)));
                        }
                        let right_id = self.alloc_leaf(right);
                        let ghost la2 = self.l@;
                        proof {
                            lemma_wf_grow::<K, V>(
                                ia0,
                                la1,
                                ia0,
                                la2,
                                self.root,
                                self.height@,
                                None,
                                None,
                            );
                            lemma_wf_grow::<K, V>(
                                ia0,
                                la1,
                                ia0,
                                la2,
                                NodeIndex::Leaf(id),
                                0,
                                glo,
                                Some(sep),
                            );
                            match father_id {
                                Some(fid) => {
                                    lemma_wf_grow::<K, V>(
                                        ia0,
                                        la1,
                                        ia0,
                                        la2,
                                        NodeIndex::Internal(fid),
                                        (d + 1) as nat,
                                        flo,
                                        fhi,
                                    );
                                },
                                None => {},
                            }
                            // The fresh right leaf on `(sep, ghi]`.
                            cleaf.lemma_wf_props();
                            assert forall|e: int|
                                0 <= e < la2[right_id as int].entries().len() implies in_range::<K>(
                                Some(sep),
                                ghi,
                                (#[trigger] la2[right_id as int].entries()[e]).0,
                            ) by {
                                assert(la2[right_id as int].entries()[e] == cleaf.entries()[half
                                    + e]);
                                assert(key_lt::<K>(sep, cleaf.entries()[half + e].0));
                            }
                            assert(wf_node::<K, V>(
                                ia0,
                                la2,
                                NodeIndex::Leaf(right_id),
                                0,
                                Some(sep),
                                ghi,
                            ));
                        }
                        if father_id.is_none() {
                            // The root leaf split: the tree gains its first
                            // internal node.
                            let ghost iaq = self.i@;
                            let rid = self.make_new_root(NodeIndex::Leaf(id));
                            father_id = Some(rid);
                            father_son_index = 0;
                            proof {
                                flo = None;
                                fhi = None;
                                let ia3 = self.i@;
                                assert(ia3[rid as int].son_seq() == seq![NodeIndex::Leaf(id)]);
                                assert(ia3[rid as int].son_seq()[0] == NodeIndex::Leaf(id));
                                assert(son_lo::<K>(ia3[rid as int], None, 0) == None::<K::V>);
                                assert(son_hi::<K>(ia3[rid as int], None, 0) == None::<K::V>);
                                assert(glo is None && ghi is None);
                                assert(wf_node::<K, V>(ia3, la2, NodeIndex::Leaf(id), 0, glo, ghi));
                                assert forall|j: int|
                                    0 <= j < ia3[rid as int].son_seq().len() implies wf_node::<
                                    K,
                                    V,
                                >(
                                    ia3,
                                    la2,
                                    #[trigger] ia3[rid as int].son_seq()[j],
                                    0,
                                    son_lo::<K>(ia3[rid as int], None, j),
                                    son_hi::<K>(ia3[rid as int], None, j),
                                ) by {
                                    assert(ia3[rid as int].son_seq()[j] == NodeIndex::Leaf(id));
                                }
                                assert(wf_node::<K, V>(
                                    ia3,
                                    la2,
                                    self.root,
                                    self.height@,
                                    None,
                                    None,
                                ));
                                assert(bs_lower::<K>(ia3[rid as int].key_seq(), k@) == 0);
                                assert(route_ctx::<K>(
                                    ia3,
                                    NodeIndex::Leaf(id),
                                    0,
                                    glo,
                                    ghi,
                                    k@,
                                    NodeIndex::Leaf(id),
                                    0,
                                    glo,
                                    ghi,
                                ));
                                assert(route_ctx::<K>(
                                    ia3,
                                    self.root,
                                    self.height@,
                                    None,
                                    None,
                                    k@,
                                    NodeIndex::Leaf(id),
                                    0,
                                    glo,
                                    ghi,
                                ));
                                assert(route_ctx::<K>(
                                    ia3,
                                    self.root,
                                    self.height@,
                                    None,
                                    None,
                                    k@,
                                    NodeIndex::Internal(rid),
                                    (d + 1) as nat,
                                    None,
                                    None,
                                ));
                                // Arena bookkeeping for the fresh root.
                                assert forall|a: int, j: int, b: int, m: int|
                                    0 <= a < ia3.len() && 0 <= j < ia3[a].son_seq().len() && 0 <= b
                                        < ia3.len() && 0 <= m < ia3[b].son_seq().len()
                                        && #[trigger] ia3[a].son_seq()[j]
                                        == #[trigger] ia3[b].son_seq()[m] implies a == b && j
                                    == m by {
                                    if a == rid as int && b != rid as int {
                                        assert(ia3[b].son_seq()[m] == iaq[b].son_seq()[m]);
                                        assert(ia3[a].son_seq()[j] == NodeIndex::Leaf(id));
                                        assert(false);
                                    } else if b == rid as int && a != rid as int {
                                        assert(ia3[a].son_seq()[j] == iaq[a].son_seq()[j]);
                                        assert(ia3[b].son_seq()[m] == NodeIndex::Leaf(id));
                                        assert(false);
                                    } else if a != rid as int && b != rid as int {
                                        assert(ia3[a].son_seq()[j] == iaq[a].son_seq()[j]);
                                        assert(ia3[b].son_seq()[m] == iaq[b].son_seq()[m]);
                                    }
                                }
                                assert(sons_ok::<K>(ia3, la2.len() as int)) by {
                                    assert forall|a: int, j: int|
                                        0 <= a < ia3.len() && 0 <= j < ia3[a].son_seq().len() implies (
                                    match #[trigger] ia3[a].son_seq()[j] {
                                        NodeIndex::Internal(y) => y < ia3.len(),
                                        NodeIndex::Leaf(y) => y < la2.len(),
                                    }) by {
                                        if a != rid as int {
                                            assert(ia3[a].son_seq()[j] == iaq[a].son_seq()[j]);
                                        } else {
                                            assert(ia3[a].son_seq()[j] == NodeIndex::Leaf(id));
                                        }
                                    }
                                }
                                assert(root_not_son::<K>(ia3, self.root)) by {
                                    assert forall|a: int, j: int|
                                        0 <= a < ia3.len() && 0 <= j
                                            < ia3[a].son_seq().len() implies #[trigger] ia3[a].son_seq()[
                                    j] != self.root by {
                                        if a != rid as int {
                                            assert(ia3[a].son_seq()[j] == iaq[a].son_seq()[j]);
                                            match iaq[a].son_seq()[j] {
                                                NodeIndex::Internal(y) => {
                                                    assert(y < iaq.len());
                                                },
                                                NodeIndex::Leaf(_) => {},
                                            }
                                        } else {
                                            assert(ia3[a].son_seq()[j] == NodeIndex::Leaf(id));
                                        }
                                    }
                                }
                            }
                        }
                        let fid = father_id.unwrap();
                        proof {
                            self.i@[fid as int].lemma_wf_arity();
                        }
                        let ghost ia3 = self.i@;
                        let ghost fold = ia3[fid as int];
                        self.i[fid].insert(
                            father_son_index + 1,
                            &left_max,
                            NodeIndex::Leaf(right_id),
                        );
                        let ghost ia4 = self.i@;
                        let ghost fnew = ia4[fid as int];
                        proof {
                            let dfa = (d + 1) as nat;
                            let fsi = father_son_index as int;
                            let ko = fold.key_seq();
                            let kn = fnew.key_seq();
                            let w = cleaf.entries()[half].0;
                            assert(kn == ko.insert(fsi, left_max));
                            assert(fnew.son_seq() == fold.son_seq().insert(
                                fsi + 1,
                                NodeIndex::Leaf(right_id),
                            ));
                            assert(kn =~= ko.subrange(0, fsi) + seq![left_max] + ko.subrange(
                                fsi,
                                ko.len() as int,
                            ));
                            cleaf.lemma_wf_props();
                            assert(key_lt::<K>(sep, w));
                            if fsi < ko.len() {
                                assert(ghi == Some(ko[fsi]@));
                                assert(at_most::<K>(ghi, w));
                                lemma_key_lt_le_trans::<K>(sep, w, ko[fsi]@);
                            }
                            if fsi > 0 {
                                assert(glo == Some(ko[fsi - 1]@));
                                assert(key_lt::<K>(ko[fsi - 1]@, sep));
                            }
                            assert(strictly_sorted::<K>(kn)) by {
                                assert forall|x: int, y: int|
                                    0 <= x < y < kn.len() implies key_lt::<K>(kn[x]@, kn[y]@) by {
                                    lemma_key_lt::<K>(kn[x]@, kn[y]@);
                                    if x < fsi && y == fsi {
                                        if x < fsi - 1 {
                                            assert(key_lt::<K>(ko[x]@, ko[fsi - 1]@));
                                            lemma_key_lt::<K>(ko[fsi - 1]@, sep);
                                            lemma_key_lt_le_trans::<K>(ko[x]@, ko[fsi - 1]@, sep);
                                        }
                                    } else if x == fsi && y > fsi {
                                        if y - 1 > fsi {
                                            assert(key_lt::<K>(sep, ko[fsi]@));
                                            lemma_key_lt::<K>(ko[fsi]@, ko[y - 1]@);
                                            lemma_key_lt_le_trans::<K>(sep, ko[fsi]@, ko[y - 1]@);
                                        }
                                    }
                                }
                            }
                            assert forall|e: int|
                                0 <= e < kn.len() implies in_range::<K>(
                                flo,
                                fhi,
                                (#[trigger] kn[e])@,
                            ) by {
                                if e == fsi {
                                    assert(kn[e] == left_max);
                                    match flo {
                                        None => {},
                                        Some(fl) => {
                                            if fsi > 0 {
                                                lemma_key_lt::<K>(ko[fsi - 1]@, sep);
                                                lemma_key_lt_le_trans::<K>(fl, ko[fsi - 1]@, sep);
                                            }
                                        },
                                    }
                                    match fhi {
                                        None => {},
                                        Some(fh) => {
                                            if fsi < ko.len() {
                                                lemma_key_lt::<K>(sep, ko[fsi]@);
                                                K::le_trans(sep, ko[fsi]@, fh);
                                            }
                                        },
                                    }
                                } else if e < fsi {
                                    assert(kn[e] == ko[e]);
                                } else {
                                    assert(kn[e] == ko[e - 1]);
                                }
                            }
                            assert forall|jj: int|
                                0 <= jj < fnew.son_seq().len() implies wf_node::<K, V>(
                                ia4,
                                la2,
                                #[trigger] fnew.son_seq()[jj],
                                (dfa - 1) as nat,
                                son_lo::<K>(fnew, flo, jj),
                                son_hi::<K>(fnew, fhi, jj),
                            ) by {
                                let (son, slo, shi): (NodeIndex, Option<K::V>, Option<K::V>) = if jj
                                    < fsi {
                                    (fold.son_seq()[jj], son_lo::<K>(fold, flo, jj), son_hi::<K>(
                                        fold,
                                        fhi,
                                        jj,
                                    ))
                                } else if jj == fsi {
                                    (NodeIndex::Leaf(id), glo, Some(sep))
                                } else if jj == fsi + 1 {
                                    (NodeIndex::Leaf(right_id), Some(sep), ghi)
                                } else {
                                    (fold.son_seq()[jj - 1], son_lo::<K>(fold, flo, jj - 1),
                                    son_hi::<K>(fold, fhi, jj - 1))
                                };
                                assert(fnew.son_seq()[jj] == son);
                                assert(son_lo::<K>(fnew, flo, jj) == slo);
                                assert(son_hi::<K>(fnew, fhi, jj) == shi);
                                assert(wf_node::<K, V>(ia3, la2, son, 0, slo, shi));
                            }
                            assert(wf_node::<K, V>(ia4, la2, NodeIndex::Internal(fid), dfa, flo, fhi));
                            lemma_wf_update_route::<K, V>(
                                ia3,
                                ia4,
                                la2,
                                la2,
                                self.root,
                                self.height@,
                                None,
                                None,
                                k@,
                                fid,
                                dfa,
                                flo,
                                fhi,
                            );
                            lemma_route_frame::<K, V>(
                                ia3,
                                ia4,
                                la2,
                                self.root,
                                self.height@,
                                None,
                                None,
                                k@,
                                NodeIndex::Internal(fid),
                                dfa,
                                flo,
                                fhi,
                                fid as int,
                                dfa,
                                flo,
                                fhi,
                                fid as int,
                                dfa,
                                flo,
                                fhi,
                            );
                            // No existing child slot holds the fresh leaf's
                            // handle.
                            assert forall|a: int, j: int|
                                0 <= a < ia3.len() && 0 <= j
                                    < ia3[a].son_seq().len() implies #[trigger] ia3[a].son_seq()[j]
                                != NodeIndex::Leaf(right_id) by {
                                match ia3[a].son_seq()[j] {
                                    NodeIndex::Leaf(y) => {
                                        if a < ia0.len() {
                                            assert(ia3[a].son_seq()[j] == ia0[a].son_seq()[j]);
                                            assert(y < la0.len());
                                        } else {
                                            assert(ia3[a].son_seq()[j] == NodeIndex::Leaf(id));
                                            assert(id < la0.len());
                                        }
                                    },
                                    NodeIndex::Internal(_) => {},
                                }
                            }
                            ia4[fid as int].lemma_wf_arity();
                            lemma_arena_after_attach::<K>(
                                ia3,
                                ia4,
                                la2.len() as int,
                                self.root,
                                fid,
                                (father_son_index + 1) as int,
                                NodeIndex::Leaf(right_id),
                            );
                        }
                        // Continue on the side of the split where `k`
                        // belongs.
                        let go_right = match left_max.key_cmp(k) {
                            KeyCmp::Less => true,
                            _ => false,
                        };
                        proof {
                            let fsi2 = father_son_index as int;
                            let ko = fold.key_seq();
                            let kn = fnew.key_seq();
                            lemma_strictly_sorted_implies_sorted::<K>(ko);
                            lemma_strictly_sorted_implies_sorted::<K>(kn);
                            lemma_bs_lower_sorted::<K>(ko, k@);
                            if !go_right {
                                K::le_total(k@, sep);
                                lemma_key_lt::<K>(sep, k@);
                                assert(K::le(k@, sep));
                                assert forall|e: int| 0 <= e < fsi2 implies key_lt::<K>(
                                    (#[trigger] kn[e])@,
                                    k@,
                                ) by {
                                    assert(kn[e] == ko[e]);
                                }
                                lemma_bs_lower_unique::<K>(kn, k@, fsi2);
                                lemma_route_extend::<K>(
                                    self.i@,
                                    self.root,
                                    self.height@,
                                    None,
                                    None,
                                    k@,
                                    fid,
                                    (d + 1) as nat,
                                    flo,
                                    fhi,
                                );
                                assert(fnew.son_seq()[fsi2] == NodeIndex::Leaf(id));
                                assert(son_lo::<K>(fnew, flo, fsi2) == glo);
                                assert(son_hi::<K>(fnew, fhi, fsi2) == Some(sep));
                                ghi = Some(sep);
                            } else {
                                lemma_key_lt::<K>(sep, k@);
                                assert(key_lt::<K>(sep, k@));
                                assert forall|e: int| 0 <= e < fsi2 + 1 implies key_lt::<K>(
                                    (#[trigger] kn[e])@,
                                    k@,
                                ) by {
                                    if e < fsi2 {
                                        assert(kn[e] == ko[e]);
                                    } else {
                                        assert(kn[e] == left_max);
                                    }
                                }
                                if fsi2 + 1 < kn.len() {
                                    assert(kn[fsi2 + 1] == ko[fsi2]);
                                }
                                lemma_bs_lower_unique::<K>(kn, k@, fsi2 + 1);
                                lemma_route_extend::<K>(
                                    self.i@,
                                    self.root,
                                    self.height@,
                                    None,
                                    None,
                                    k@,
                                    fid,
                                    (d + 1) as nat,
                                    flo,
                                    fhi,
                                );
                                assert(fnew.son_seq()[fsi2 + 1] == NodeIndex::Leaf(right_id));
                                assert(son_lo::<K>(fnew, flo, fsi2 + 1) == Some(sep));
                                assert(son_hi::<K>(fnew, fhi, fsi2 + 1) == ghi);
                                glo = Some(sep);
                            }
                        }
                        if go_right {
                            id = right_id;
                        }
                        proof {
                            let src = old(self).l@[id0 as int].entries();
                            assert(self.l@[id0 as int].entries() == src.subrange(
                                0,
                                (NODE_DEG as int) / 2,
                            ));
                            assert((right_id as int) == old(self).l@.len());
                            assert(self.l@[right_id as int].entries() == src.subrange(
                                (NODE_DEG as int) / 2,
                                src.len() as int,
                            ));
                            assert(self.l@.len() == old(self).l@.len() + 1);
                            assert(forall|y: int|
                                0 <= y < old(self).l@.len() && y != id0 ==> self.l@[y] == old(
                                    self,
                                ).l@[y]);
                            assert(id == id0 || id == right_id);
                            assert(src[(NODE_DEG as int) / 2 - 1].0 == sep);
                            if id == id0 {
                                assert(K::le(k@, sep));
                            } else {
                                assert(key_lt::<K>(sep, k@));
                            }
                            assert(exists|a: int, b: int|
                                0 <= a <= b <= old(self).l@[id0 as int].entries().len()
                                    && self.l@[id as int].entries() == old(self).l@[
                                id0 as int].entries().subrange(a, b));
                        }
                    } else {
                        proof {
                            let src = old(self).l@[id0 as int].entries();
                            assert(self.l@[id as int].entries() =~= src.subrange(
                                0,
                                src.len() as int,
                            ));
                            assert(exists|a: int, b: int|
                                0 <= a <= b <= old(self).l@[id0 as int].entries().len()
                                    && self.l@[id as int].entries() == old(self).l@[
                                id0 as int].entries().subrange(a, b));
                            assert(self.l@ == old(self).l@);
                            assert(id == id0);
                        }
                    }
                    // The leaf now has room: apply the upsert and finish.
                    proof {
                        self.l@[id as int].lemma_wf_props();
                    }
                    let ghost la_pre = self.l@;
                    let r = self.l[id].insert(k, v);
                    proof {
                        lemma_upsert_keys::<K, V>(la_pre[id as int].entries(), k@, *v);
                        assert forall|e: int|
                            0 <= e < self.l@[id as int].entries().len() implies in_range::<K>(
                            glo,
                            ghi,
                            (#[trigger] self.l@[id as int].entries()[e]).0,
                        ) by {
                            let key = self.l@[id as int].entries()[e].0;
                            if key != k@ {
                                let j = choose|j: int|
                                    0 <= j < la_pre[id as int].entries().len()
                                        && (#[trigger] la_pre[id as int].entries()[j]).0 == key;
                                assert(in_range::<K>(glo, ghi, la_pre[id as int].entries()[j].0));
                            }
                        }
                        lemma_wf_update_leaf_route::<K, V>(
                            self.i@,
                            la_pre,
                            self.l@,
                            self.root,
                            self.height@,
                            None,
                            None,
                            k@,
                            id,
                            glo,
                            ghi,
                        );
                        lemma_upsert_then_find::<K, V>(la_pre[id as int].entries(), k@, *v);
                        assert(self.l@[id as int].entries() == upsert_entries::<K, V>(
                            la_pre[id as int].entries(),
                            k@,
                            *v,
                        ));
                        assert(assoc_find::<K::V, V>(self.l@[id as int].entries(), k@) == Some(*v));
                        assert(self.stores(k@, *v));
                        // The descent for `k` still ends at this leaf, so a
                        // lookup now observes `v`.
                        lemma_route_find_slot::<K>(
                            self.i@,
                            self.root,
                            self.height@,
                            None,
                            None,
                            k@,
                            NodeIndex::Leaf(id),
                            0,
                            glo,
                            ghi,
                        );
                        assert(find_slot::<K>(self.i@, self.root, self.height@, k@)
                            == NodeIndex::Leaf(id));
                        assert(self.find(k@) == Some(*v));
                        // The reached leaf is where the old tree's descent
                        // ended, so `r` is the old observable binding.
                        lemma_route_find_slot::<K>(
                            old(self).i@,
                            old(self).root,
                            old(self).height@,
                            None,
                            None,
                            k@,
                            NodeIndex::Leaf(id0),
                            gs@.0,
                            gs@.1,
                            gs@.2,
                        );
                        assert(old(self).find(k@) == assoc_find::<K::V, V>(
                            old(self).l@[id0 as int].entries(),
                            k@,
                        ));
                        old(self).l@[id0 as int].lemma_wf_props();
                        let srcq = old(self).l@[id0 as int].entries();
                        let halfq = (NODE_DEG as int) / 2;
                        if leaf_split {
                            if id == id0 {
                                lemma_assoc_half_left::<K, V>(srcq, halfq, k@);
                                assert(la_pre[id as int].entries() == srcq.subrange(0, halfq));
                            } else {
                                lemma_assoc_half_right::<K, V>(srcq, halfq, k@);
                                assert(la_pre[id as int].entries() == srcq.subrange(
                                    halfq,
                                    srcq.len() as int,
                                ));
                            }
                        } else {
                            assert(la_pre[id as int].entries() =~= srcq);
                        }
                        assert(r == assoc_find::<K::V, V>(la_pre[id as int].entries(), k@));
                        assert(r == old(self).find(k@));
                        match r {
                            Some(x) => {
                                let (a, b) = choose|a: int, b: int|
                                    0 <= a <= b <= old(self).l@[id0 as int].entries().len()
                                        && la_pre[id as int].entries() == old(self).l@[
                                    id0 as int].entries().subrange(a, b);
                                old(self).l@[id0 as int].lemma_wf_props();
                                lemma_assoc_find_subrange::<K, V>(
                                    old(self).l@[id0 as int].entries(),
                                    a,
                                    b,
                                    k@,
                                    x,
                                );
                                assert(assoc_find::<K::V, V>(
                                    old(self).l@[id0 as int].entries(),
                                    k@,
                                ) == Some(x));
                                assert(old(self).stores(k@, x));
                            },
                            None => {},
                        }
                        assert forall|k2: K::V, x: V|
                            k2 != k@ && old(self).stores(k2, x) implies self.stores(k2, x) by {
                            let y = choose|y: int|
                                0 <= y < old(self).l@.len() && assoc_find::<K::V, V>(
                                    old(self).l@[y].entries(),
                                    k2,
                                ) == Some(x);
                            let src = old(self).l@[id0 as int].entries();
                            if leaf_split && y == id0 {
                                lemma_assoc_find_some_index::<K::V, V>(src, k2, x);
                                let i = choose|i: int|
                                    0 <= i < src.len() && (#[trigger] src[i]).0 == k2 && src[i].1
                                        == x;
                                old(self).l@[id0 as int].lemma_wf_props();
                                let half = (NODE_DEG as int) / 2;
                                if i < half {
                                    let sub = src.subrange(0, half);
                                    assert(entries_sorted::<K, V>(sub));
                                    lemma_assoc_find_hit::<K, V>(sub, k2, i);
                                    assert(assoc_find::<K::V, V>(la_pre[id0 as int].entries(), k2)
                                        == Some(x));
                                    if id == id0 {
                                        lemma_upsert_preserves_others::<K, V>(
                                            la_pre[id0 as int].entries(),
                                            k@,
                                            *v,
                                            k2,
                                        );
                                    }
                                    assert(assoc_find::<K::V, V>(
                                        self.l@[id0 as int].entries(),
                                        k2,
                                    ) == Some(x));
                                } else {
                                    let sub = src.subrange(half, src.len() as int);
                                    assert(entries_sorted::<K, V>(sub));
                                    assert(sub[i - half].0 == k2 && sub[i - half].1 == x);
                                    lemma_assoc_find_hit::<K, V>(sub, k2, i - half);
                                    let rid = (la_pre.len() - 1) as int;
                                    assert(assoc_find::<K::V, V>(la_pre[rid].entries(), k2) == Some(
                                        x,
                                    ));
                                    if (id as int) == rid {
                                        lemma_upsert_preserves_others::<K, V>(
                                            la_pre[rid].entries(),
                                            k@,
                                            *v,
                                            k2,
                                        );
                                    }
                                    assert(assoc_find::<K::V, V>(self.l@[rid].entries(), k2)
                                        == Some(x));
                                }
                            } else {
                                // The leaf holding `k2` is either untouched
                                // or only upserted with the unrelated key
                                // `k`.
                                if y == id as int {
                                    lemma_upsert_preserves_others::<K, V>(
                                        la_pre[y].entries(),
                                        k@,
                                        *v,
                                        k2,
                                    );
                                }
                                assert(assoc_find::<K::V, V>(self.l@[y].entries(), k2) == Some(x));
                            }
                        }
                        assert forall|k2: K::V, x: V|
                            k2 != k@ && self.stores(k2, x) implies old(self).stores(k2, x) by {
                            let z = choose|z: int|
                                0 <= z < self.l@.len() && assoc_find::<K::V, V>(
                                    self.l@[z].entries(),
                                    k2,
                                ) == Some(x);
                            let src = old(self).l@[id0 as int].entries();
                            old(self).l@[id0 as int].lemma_wf_props();
                            if z == id as int {
                                lemma_upsert_preserves_others::<K, V>(
                                    la_pre[z].entries(),
                                    k@,
                                    *v,
                                    k2,
                                );
                                assert(assoc_find::<K::V, V>(la_pre[z].entries(), k2) == Some(x));
                                let (a, b) = choose|a: int, b: int|
                                    0 <= a <= b <= src.len() && la_pre[id as int].entries()
                                        == src.subrange(a, b);
                                lemma_assoc_find_subrange::<K, V>(src, a, b, k2, x);
                                assert(old(self).stores(k2, x));
                            } else {
                                assert(self.l@[z] == la_pre[z]);
                                if leaf_split && (z == id0 || z == la_pre.len() - 1) {
                                    let half = (NODE_DEG as int) / 2;
                                    if z == id0 {
                                        lemma_assoc_find_subrange::<K, V>(src, 0, half, k2, x);
                                    } else {
                                        lemma_assoc_find_subrange::<K, V>(
                                            src,
                                            half,
                                            src.len() as int,
                                            k2,
                                            x,
                                        );
                                    }
                                    assert(old(self).stores(k2, x));
                                } else {
                                    assert(la_pre[z] == old(self).l@[z]);
                                    assert(old(self).stores(k2, x));
                                }
                            }
                        }
                    }
                    return r;
    }

    /// Upsert: walks from the root to the leaf where `k` belongs, splitting
    /// every full node on the way down before stepping past it. The split
    /// is pre-emptive: the parent of a splitting node always has room for
    /// the new sibling, so no split ever cascades back upward, and the leaf
    /// finally reached always has room for the entry.
    ///
    /// Afterwards a lookup of `k` observes `v`. Returns exactly what a
    /// lookup of `k` would have returned before the call: the previous
    /// value if the key existed, and nothing otherwise. The stored entries
    /// of every other key are exactly what they were. The tree grows by
    /// one level exactly when the root itself had to split.
    pub fn insert(&mut self, k: &K, v: &V) -> (r: Option<V>)
        requires
            old(self).wf(),
        ensures
            final(self).wf(),
            final(self).root_internal() == (old(self).root_internal() || old(self).root_full()),
            final(self).find(k@) == Some(*v),
            final(self).stores(k@, *v),
            r matches Some(x) ==> old(self).stores(k@, x),
            r == old(self).find(k@),
            forall|k2: K::V, x: V|
                k2 != k@ && old(self).stores(k2, x) ==> final(self).stores(k2, x),
            forall|k2: K::V, x: V|
                k2 != k@ && final(self).stores(k2, x) ==> old(self).stores(k2, x),
    {
        let mut cur = self.root;
        let mut father_id: Option<usize> = None;
        let mut father_son_index: usize = 0;
        let ghost mut d = self.height@;
        let ghost mut glo: Option<K::V> = None;
        let ghost mut ghi: Option<K::V> = None;
        let ghost mut flo: Option<K::V> = None;
        let ghost mut fhi: Option<K::V> = None;
        loop
            invariant
                sons_inj::<K>(self.i@),
                sons_ok::<K>(self.i@, self.l@.len() as int),
                root_not_son::<K>(self.i@, self.root),
                wf_node::<K, V>(self.i@, self.l@, self.root, self.height@, None, None),
                route_ctx::<K>(
                    self.i@,
                    self.root,
                    self.height@,
                    None,
                    None,
                    k@,
                    cur,
                    d,
                    glo,
                    ghi,
                ),
                in_range::<K>(glo, ghi, k@),
                wf_node::<K, V>(self.i@, self.l@, cur, d, glo, ghi),
                self.l@ == old(self).l@,
                self.find(k@) == old(self).find(k@),
                match father_id {
                    None => self == old(self) && cur == self.root && d == self.height@ && glo
                        is None && ghi is None,
                    Some(fid) => {
                        &&& (fid as int) < self.i@.len()
                        &&& route_ctx::<K>(
                            self.i@,
                            self.root,
                            self.height@,
                            None,
                            None,
                            k@,
                            NodeIndex::Internal(fid),
                            (d + 1) as nat,
                            flo,
                            fhi,
                        )
                        &&& wf_node::<K, V>(
                            self.i@,
                            self.l@,
                            NodeIndex::Internal(fid),
                            (d + 1) as nat,
                            flo,
                            fhi,
                        )
                        &&& self.i@[fid as int].son_seq().len() < NODE_DEG
                        &&& (father_son_index as int) < self.i@[fid as int].son_seq().len()
                        &&& self.i@[fid as int].son_seq()[father_son_index as int] == cur
                        &&& bs_lower::<K>(self.i@[fid as int].key_seq(), k@)
                            == father_son_index as int
                        &&& son_lo::<K>(self.i@[fid as int], flo, father_son_index as int) == glo
                        &&& son_hi::<K>(self.i@[fid as int], fhi, father_son_index as int) == ghi
                        &&& (self.root is Internal) == ((old(self).root is Internal) || old(
                            self,
                        ).root_full())
                    },
                },
            decreases d,
        {
            match cur {
                NodeIndex::Internal(id0) => {
                    let ghost pre = *self;
                    let res = self.insert_step_internal(
                        id0,
                        father_id,
                        father_son_index,
                        k,
                        Ghost((d, glo, ghi, flo, fhi)),
                    );
                    father_id = Some(res.0);
                    father_son_index = res.1;
                    cur = res.2;
                    proof {
                        assert(self.find(k@) == pre.find(k@));
                        glo = res.3@.1;
                        ghi = res.3@.2;
                        flo = res.3@.3;
                        fhi = res.3@.4;
                        d = (d - 1) as nat;
                    }
                },
                NodeIndex::Leaf(id0) => {
                    let ghost pre = *self;
                    let r = self.insert_step_leaf(
                        id0,
                        father_id,
                        father_son_index,
                        k,
                        v,
                        Ghost((d, glo, ghi, flo, fhi)),
                    );
                    proof {
                        assert(pre.l@ == old(self).l@);
                        assert forall|k2: K::V, x: V| pre.stores(k2, x) implies old(self).stores(
                            k2,
                            x,
                        ) by {}
                        assert forall|k2: K::V, x: V| old(self).stores(k2, x) implies pre.stores(
                            k2,
                            x,
                        ) by {}
                        assert(r == pre.find(k@));
                        assert(r == old(self).find(k@));
                    }
                    return r;
                },
            }
        }
    }
}

} // verus!
