//! The free lists and the blocks handed out, seen as the leaves of buddy
//! trees: every block split is a node with its two halves below it.
use vstd::multiset::Multiset;
use vstd::prelude::*;

use crate::buddy::{block_ok, buddy, first_nonempty, lists_ok, merge_lists, split_lists};
use crate::free_list::{lemma_nearest_index_exists, nearest_index};
use crate::lemmas::lemma_first_nonempty_found;
use crate::sizes::{block_size, lemma_block_size_next, lemma_halves};

verus! {

broadcast use vstd::multiset::group_multiset_axioms;

/// A block of the buddy system and what became of it: free, handed out, or
/// split into its two halves.
pub enum BuddyTree {
    Free,
    Used,
    Split(Box<BuddyTree>, Box<BuddyTree>),
}

/// No split goes below order 0, and no split block has both halves free.
pub open spec fn tree_ok(t: BuddyTree, j: nat) -> bool
    decreases t,
{
    match t {
        BuddyTree::Split(l, r) => j > 0 && tree_ok(*l, (j - 1) as nat) && tree_ok(*r, (j - 1) as nat) && !(
        *l is Free && *r is Free),
        _ => true,
    }
}

/// The free blocks of the tree rooted at the block at `a` of order `j`, as
/// (address, order).
pub open spec fn free_of(t: BuddyTree, a: int, j: nat) -> Multiset<(int, nat)>
    decreases t,
{
    match t {
        BuddyTree::Free => Multiset::singleton((a, j)),
        BuddyTree::Used => Multiset::empty(),
        BuddyTree::Split(l, r) => free_of(*l, a, (j - 1) as nat).add(
            free_of(*r, a + block_size((j - 1) as nat), (j - 1) as nat),
        ),
    }
}

/// The handed-out blocks of the tree rooted at the block at `a` of order
/// `j`, as (address, order).
pub open spec fn used_of(t: BuddyTree, a: int, j: nat) -> Multiset<(int, nat)>
    decreases t,
{
    match t {
        BuddyTree::Free => Multiset::empty(),
        BuddyTree::Used => Multiset::singleton((a, j)),
        BuddyTree::Split(l, r) => used_of(*l, a, (j - 1) as nat).add(
            used_of(*r, a + block_size((j - 1) as nat), (j - 1) as nat),
        ),
    }
}

/// The subtree for the block at `x` of order `o`, in the tree rooted at the
/// block at `a` of order `j`; `None` when the tree does not split down to it.
pub open spec fn node_at(t: BuddyTree, a: int, j: nat, x: int, o: nat) -> Option<BuddyTree>
    decreases t,
{
    if a == x && j == o {
        Some(t)
    } else {
        match t {
            BuddyTree::Split(l, r) => if j > 0 && o < j {
                if x < a + block_size((j - 1) as nat) {
                    node_at(*l, a, (j - 1) as nat, x, o)
                } else {
                    node_at(*r, a + block_size((j - 1) as nat), (j - 1) as nat, x, o)
                }
            } else {
                None
            },
            _ => None,
        }
    }
}

/// The tree with the subtree for the block at `x` of order `o` replaced by
/// `n`.
pub open spec fn replace(t: BuddyTree, a: int, j: nat, x: int, o: nat, n: BuddyTree) -> BuddyTree
    decreases t,
{
    if a == x && j == o {
        n
    } else {
        match t {
            BuddyTree::Split(l, r) => if j > 0 && o < j {
                if x < a + block_size((j - 1) as nat) {
                    BuddyTree::Split(Box::new(replace(*l, a, (j - 1) as nat, x, o, n)), r)
                } else {
                    BuddyTree::Split(l, Box::new(replace(*r, a + block_size((j - 1) as nat), (j - 1) as nat, x, o, n)))
                }
            } else {
                t
            },
            _ => t,
        }
    }
}

/// Every block of a tree lies inside its root block.
pub proof fn lemma_entries_inside(t: BuddyTree, a: int, j: nat, x: int, o: nat)
    requires
        tree_ok(t, j),
        free_of(t, a, j).count((x, o)) > 0 || used_of(t, a, j).count((x, o)) > 0,
    ensures
        o <= j,
        a <= x,
        x + block_size(o) <= a + block_size(j),
        o < j ==> t is Split,
    decreases t,
{
    match t {
        BuddyTree::Split(l, r) => {
            lemma_block_size_next((j - 1) as nat);
            let h = block_size((j - 1) as nat) as int;
            if free_of(*l, a, (j - 1) as nat).count((x, o)) > 0 || used_of(*l, a, (j - 1) as nat).count((x, o)) > 0 {
                lemma_entries_inside(*l, a, (j - 1) as nat, x, o);
            } else {
                lemma_entries_inside(*r, a + h, (j - 1) as nat, x, o);
            }
        },
        _ => {},
    }
}

/// A block the tree lists as free or handed out is a leaf of the tree.
pub proof fn lemma_entry_is_leaf(t: BuddyTree, a: int, j: nat, x: int, o: nat)
    requires
        tree_ok(t, j),
        free_of(t, a, j).count((x, o)) > 0 || used_of(t, a, j).count((x, o)) > 0,
    ensures
        free_of(t, a, j).count((x, o)) > 0 ==> node_at(t, a, j, x, o) == Some(BuddyTree::Free),
        used_of(t, a, j).count((x, o)) > 0 ==> node_at(t, a, j, x, o) == Some(BuddyTree::Used),
    decreases t,
{
    match t {
        BuddyTree::Split(l, r) => {
            lemma_block_size_next((j - 1) as nat);
            lemma_block_size_next(o);
            let h = block_size((j - 1) as nat) as int;
            lemma_entries_inside(t, a, j, x, o);
            let in_l = free_of(*l, a, (j - 1) as nat).count((x, o)) > 0 || used_of(*l, a, (j - 1) as nat).count((x, o))
                > 0;
            let in_r = free_of(*r, a + h, (j - 1) as nat).count((x, o)) > 0 || used_of(*r, a + h, (j - 1) as nat).count(
                (x, o),
            ) > 0;
            if in_l {
                lemma_entries_inside(*l, a, (j - 1) as nat, x, o);
                lemma_entry_is_leaf(*l, a, (j - 1) as nat, x, o);
                assert(!(a == x && j == o));
                assert(x < a + h);
                assert(node_at(t, a, j, x, o) == node_at(*l, a, (j - 1) as nat, x, o));
                if in_r {
                    lemma_entries_inside(*r, a + h, (j - 1) as nat, x, o);
                }
            } else {
                lemma_entries_inside(*r, a + h, (j - 1) as nat, x, o);
                lemma_entry_is_leaf(*r, a + h, (j - 1) as nat, x, o);
                assert(!(a == x && j == o));
                assert(node_at(t, a, j, x, o) == node_at(*r, a + h, (j - 1) as nat, x, o));
            }
        },
        _ => {},
    }
}

/// A free leaf of the tree is among its free blocks.
pub proof fn lemma_free_leaf_listed(t: BuddyTree, a: int, j: nat, x: int, o: nat)
    requires
        node_at(t, a, j, x, o) == Some(BuddyTree::Free),
    ensures
        free_of(t, a, j).count((x, o)) > 0,
    decreases t,
{
    if !(a == x && j == o) {
        match t {
            BuddyTree::Split(l, r) => {
                let h = block_size((j - 1) as nat) as int;
                if x < a + h {
                    lemma_free_leaf_listed(*l, a, (j - 1) as nat, x, o);
                } else {
                    lemma_free_leaf_listed(*r, a + h, (j - 1) as nat, x, o);
                }
            },
            _ => {},
        }
    }
}

proof fn lemma_add_frame(a: Multiset<(int, nat)>, b: Multiset<(int, nat)>, c: Multiset<(int, nat)>, d: Multiset<(int, nat)>, e: Multiset<(int, nat)>)
    requires
        a.add(c) == d.add(e),
    ensures
        a.add(b).add(c) == d.add(b).add(e),
        b.add(a).add(c) == b.add(d).add(e),
{
    assert forall|v: (int, nat)| #[trigger] a.add(b).add(c).count(v) == d.add(b).add(e).count(v) by {
        assert(a.add(c).count(v) == d.add(e).count(v));
        assert(a.add(c).count(v) == a.count(v) + c.count(v));
        assert(d.add(e).count(v) == d.count(v) + e.count(v));
        assert(a.add(b).count(v) == a.count(v) + b.count(v));
        assert(a.add(b).add(c).count(v) == a.add(b).count(v) + c.count(v));
        assert(d.add(b).count(v) == d.count(v) + b.count(v));
        assert(d.add(b).add(e).count(v) == d.add(b).count(v) + e.count(v));
    }
    assert forall|v: (int, nat)| #[trigger] b.add(a).add(c).count(v) == b.add(d).add(e).count(v) by {
        assert(a.add(c).count(v) == d.add(e).count(v));
        assert(a.add(c).count(v) == a.count(v) + c.count(v));
        assert(d.add(e).count(v) == d.count(v) + e.count(v));
        assert(b.add(a).count(v) == b.count(v) + a.count(v));
        assert(b.add(a).add(c).count(v) == b.add(a).count(v) + c.count(v));
        assert(b.add(d).count(v) == b.count(v) + d.count(v));
        assert(b.add(d).add(e).count(v) == b.add(d).count(v) + e.count(v));
    }
    assert(a.add(b).add(c) =~= d.add(b).add(e));
    assert(b.add(a).add(c) =~= b.add(d).add(e));
}

/// Replacing a subtree trades its free and handed-out blocks for those of the
/// new subtree.
pub proof fn lemma_replace_blocks(t: BuddyTree, a: int, j: nat, x: int, o: nat, old_n: BuddyTree, n: BuddyTree)
    requires
        node_at(t, a, j, x, o) == Some(old_n),
    ensures
        free_of(replace(t, a, j, x, o, n), a, j).add(free_of(old_n, x, o)) == free_of(t, a, j).add(free_of(n, x, o)),
        used_of(replace(t, a, j, x, o, n), a, j).add(used_of(old_n, x, o)) == used_of(t, a, j).add(used_of(n, x, o)),
    decreases t,
{
    if a == x && j == o {
        assert(free_of(n, x, o).add(free_of(t, a, j)) =~= free_of(t, a, j).add(free_of(n, x, o)));
        assert(used_of(n, x, o).add(used_of(t, a, j)) =~= used_of(t, a, j).add(used_of(n, x, o)));
    } else {
        match t {
            BuddyTree::Split(l, r) => {
                let h = block_size((j - 1) as nat) as int;
                assert(j > 0 && o < j);
                assert(free_of(t, a, j) == free_of(*l, a, (j - 1) as nat).add(free_of(*r, a + h, (j - 1) as nat)));
                assert(used_of(t, a, j) == used_of(*l, a, (j - 1) as nat).add(used_of(*r, a + h, (j - 1) as nat)));
                if x < a + h {
                    lemma_replace_blocks(*l, a, (j - 1) as nat, x, o, old_n, n);
                    let nl = replace(*l, a, (j - 1) as nat, x, o, n);
                    lemma_add_frame(free_of(nl, a, (j - 1) as nat), free_of(*r, a + h, (j - 1) as nat), free_of(old_n, x, o), free_of(*l, a, (j - 1) as nat), free_of(n, x, o));
                    lemma_add_frame(used_of(nl, a, (j - 1) as nat), used_of(*r, a + h, (j - 1) as nat), used_of(old_n, x, o), used_of(*l, a, (j - 1) as nat), used_of(n, x, o));
                    assert(free_of(replace(t, a, j, x, o, n), a, j) == free_of(nl, a, (j - 1) as nat).add(
                        free_of(*r, a + h, (j - 1) as nat),
                    ));
                    assert(used_of(replace(t, a, j, x, o, n), a, j) == used_of(nl, a, (j - 1) as nat).add(
                        used_of(*r, a + h, (j - 1) as nat),
                    ));
                    assert(free_of(replace(t, a, j, x, o, n), a, j).add(free_of(old_n, x, o)) =~= free_of(t, a, j).add(
                        free_of(n, x, o),
                    ));
                    assert(used_of(replace(t, a, j, x, o, n), a, j).add(used_of(old_n, x, o)) =~= used_of(t, a, j).add(
                        used_of(n, x, o),
                    ));
                } else {
                    lemma_replace_blocks(*r, a + h, (j - 1) as nat, x, o, old_n, n);
                    let nr = replace(*r, a + h, (j - 1) as nat, x, o, n);
                    lemma_add_frame(free_of(nr, a + h, (j - 1) as nat), free_of(*l, a, (j - 1) as nat), free_of(old_n, x, o), free_of(*r, a + h, (j - 1) as nat), free_of(n, x, o));
                    lemma_add_frame(used_of(nr, a + h, (j - 1) as nat), used_of(*l, a, (j - 1) as nat), used_of(old_n, x, o), used_of(*r, a + h, (j - 1) as nat), used_of(n, x, o));
                    assert(free_of(replace(t, a, j, x, o, n), a, j) == free_of(*l, a, (j - 1) as nat).add(
                        free_of(nr, a + h, (j - 1) as nat),
                    ));
                    assert(used_of(replace(t, a, j, x, o, n), a, j) == used_of(*l, a, (j - 1) as nat).add(
                        used_of(nr, a + h, (j - 1) as nat),
                    ));
                    assert(free_of(replace(t, a, j, x, o, n), a, j).add(free_of(old_n, x, o)) =~= free_of(t, a, j).add(
                        free_of(n, x, o),
                    ));
                    assert(used_of(replace(t, a, j, x, o, n), a, j).add(used_of(old_n, x, o)) =~= used_of(t, a, j).add(
                        used_of(n, x, o),
                    ));
                }
            },
            _ => {},
        }
    }
}

} // verus!

verus! {

/// A multiple of `m` at least `a` and below `e`, both multiples of `m`:
/// the block of size `m` holding `x` lies in `[a, e)`.
proof fn lemma_floor_between(a: int, e: int, x: int, m: int)
    requires
        m > 0,
        a % m == 0,
        e % m == 0,
        a <= x < e,
    ensures
        a <= x - x % m,
        x - x % m + m <= e,
        (x - x % m) % m == 0,
{
    vstd::arithmetic::div_mod::lemma_fundamental_div_mod(a, m);
    vstd::arithmetic::div_mod::lemma_fundamental_div_mod(e, m);
    vstd::arithmetic::div_mod::lemma_fundamental_div_mod(x, m);
    vstd::arithmetic::div_mod::lemma_mod_bound(x, m);
    let qa = a / m;
    let qe = e / m;
    let qx = x / m;
    assert(qa <= qx) by (nonlinear_arith)
        requires
            a == m * qa,
            x == m * qx + x % m,
            0 <= x % m < m,
            a <= x,
            m > 0,
    ;
    assert(qx + 1 <= qe) by (nonlinear_arith)
        requires
            e == m * qe,
            x == m * qx + x % m,
            0 <= x % m,
            x < e,
            m > 0,
    ;
    assert(a <= m * qx) by (nonlinear_arith)
        requires
            a == m * qa,
            qa <= qx,
            m > 0,
    ;
    assert(m * qx + m <= e) by (nonlinear_arith)
        requires
            e == m * qe,
            qx + 1 <= qe,
            m > 0,
    ;
    vstd::arithmetic::div_mod::lemma_mod_multiples_basic(qx, m);
    assert(qx * m == m * qx) by (nonlinear_arith);
}

/// Every node of a tree with an aligned root is an aligned block inside the
/// root.
pub proof fn lemma_node_aligned(t: BuddyTree, a: int, j: nat, x: int, o: nat)
    requires
        a >= 0,
        a % (block_size(j) as int) == 0,
        node_at(t, a, j, x, o) is Some,
    ensures
        x % (block_size(o) as int) == 0,
        o <= j,
        a <= x,
        x + block_size(o) <= a + block_size(j),
    decreases t,
{
    if !(a == x && j == o) {
        match t {
            BuddyTree::Split(l, r) => {
                lemma_block_size_next((j - 1) as nat);
                let h = block_size((j - 1) as nat) as int;
                crate::sizes::lemma_aligned_smaller(a, (j - 1) as nat, j);
                lemma_halves(a, h);
                if x < a + h {
                    lemma_node_aligned(*l, a, (j - 1) as nat, x, o);
                } else {
                    lemma_node_aligned(*r, a + h, (j - 1) as nat, x, o);
                }
            },
            _ => {},
        }
    }
}

/// After a replacement, the new subtree stands where the old one did.
pub proof fn lemma_replace_found(t: BuddyTree, a: int, j: nat, x: int, o: nat, n: BuddyTree)
    requires
        node_at(t, a, j, x, o) is Some,
    ensures
        node_at(replace(t, a, j, x, o, n), a, j, x, o) == Some(n),
        !(a == x && j == o) ==> replace(t, a, j, x, o, n) is Split,
    decreases t,
{
    if !(a == x && j == o) {
        match t {
            BuddyTree::Split(l, r) => {
                let h = block_size((j - 1) as nat) as int;
                if x < a + h {
                    lemma_replace_found(*l, a, (j - 1) as nat, x, o, n);
                } else {
                    lemma_replace_found(*r, a + h, (j - 1) as nat, x, o, n);
                }
            },
            _ => {},
        }
    }
}

/// The block of order `o + 1` holding the block at `x` of order `o`.
pub open spec fn parent_addr(x: int, o: nat) -> int {
    x - x % (block_size(o + 1) as int)
}

/// The buddy of a node lies in the same half of every block above their
/// parent.
proof fn lemma_same_half(a: int, j: nat, x: int, o: nat)
    requires
        j >= 1,
        o + 1 < j,
        a >= 0,
        a % (block_size(j) as int) == 0,
        x % (block_size(o) as int) == 0,
        a <= x,
        x + block_size(o) <= a + block_size(j),
    ensures
        ({
            let h = block_size((j - 1) as nat) as int;
            let p = parent_addr(x, o);
            let s = block_size(o) as int;
            &&& x < a + h ==> a <= p && p + 2 * s <= a + h
            &&& x >= a + h ==> a + h <= p && p + 2 * s <= a + 2 * h
            &&& p % (2 * s) == 0
            &&& (x == p || x == p + s)
        }),
{
    lemma_block_size_next((j - 1) as nat);
    lemma_block_size_next(o);
    let h = block_size((j - 1) as nat) as int;
    let s = block_size(o) as int;
    let m = block_size(o + 1) as int;
    crate::sizes::lemma_aligned_smaller(a, (o + 1) as nat, j);
    crate::sizes::lemma_block_size_divides((o + 1) as nat, (j - 1) as nat);
    crate::sizes::lemma_aligned_smaller(a, (j - 1) as nat, j);
    lemma_halves(a, h);
    crate::sizes::lemma_aligned_smaller(a + h, (o + 1) as nat, (j - 1) as nat);
    assert((a + 2 * h) % (block_size(j) as int) == 0) by {
        vstd::arithmetic::div_mod::lemma_mod_add_multiples_vanish(a, block_size(j) as int);
    }
    crate::sizes::lemma_aligned_smaller(a + 2 * h, (o + 1) as nat, j);
    if x < a + h {
        lemma_floor_between(a, a + h, x, m);
    } else {
        lemma_floor_between(a + h, a + 2 * h, x, m);
    }
    lemma_halves(x, s);
    if x % m != 0 {
        vstd::arithmetic::div_mod::lemma_fundamental_div_mod(x, m);
        vstd::arithmetic::div_mod::lemma_fundamental_div_mod(x - s, m);
        vstd::arithmetic::div_mod::lemma_mod_bound(x, m);
        // x - s is a multiple of m, so x % m == s
        vstd::arithmetic::div_mod::lemma_mod_add_multiples_vanish(x - s, m);
        assert(x % m == s) by {
            vstd::arithmetic::div_mod::lemma_mod_sub_multiples_vanish(x, m);
            assert((x - s) % m == 0);
            vstd::arithmetic::div_mod::lemma_add_mod_noop(x - s, s, m);
            vstd::arithmetic::div_mod::lemma_small_mod(s as nat, m as nat);
        }
    }
}

/// The upper half of an aligned block sits half a block past alignment.
proof fn lemma_upper_half(a: int, h: int)
    requires
        h > 0,
        a % (2 * h) == 0,
    ensures
        (a + h) % (2 * h) == h,
{
    vstd::arithmetic::div_mod::lemma_add_mod_noop(a, h, 2 * h);
    vstd::arithmetic::div_mod::lemma_small_mod(h as nat, (2 * h) as nat);
}

/// The buddy of a node is the other half of its parent.
proof fn lemma_buddy_is_sibling(x: int, o: nat)
    requires
        x >= 0,
        x % (block_size(o) as int) == 0,
    ensures
        ({
            let p = parent_addr(x, o);
            let s = block_size(o) as int;
            &&& (x == p && buddy(x, o) == p + s) || (x == p + s && buddy(x, o) == p)
            &&& p % (block_size(o + 1) as int) == 0
            &&& p >= 0
        }),
{
    lemma_block_size_next(o);
    let s = block_size(o) as int;
    let m = block_size(o + 1) as int;
    lemma_halves(x, s);
    vstd::arithmetic::div_mod::lemma_mod_bound(x, m);
    if x % m != 0 {
        assert((x - s) % m == 0);
        assert(x % m == s) by {
            vstd::arithmetic::div_mod::lemma_add_mod_noop(x - s, s, m);
            vstd::arithmetic::div_mod::lemma_small_mod(s as nat, m as nat);
        }
    }
}

/// Replacing a node keeps the tree well formed when the new subtree is, and,
/// if it is a free leaf, its buddy is not one.
pub proof fn lemma_replace_ok(t: BuddyTree, a: int, j: nat, x: int, o: nat, n: BuddyTree)
    requires
        a >= 0,
        a % (block_size(j) as int) == 0,
        tree_ok(t, j),
        node_at(t, a, j, x, o) is Some,
        tree_ok(n, o),
        n is Free && !(a == x && j == o) ==> node_at(t, a, j, buddy(x, o), o) != Some(BuddyTree::Free),
    ensures
        tree_ok(replace(t, a, j, x, o, n), j),
    decreases t,
{
    if !(a == x && j == o) {
        match t {
            BuddyTree::Split(l, r) => {
                lemma_block_size_next((j - 1) as nat);
                let h = block_size((j - 1) as nat) as int;
                crate::sizes::lemma_aligned_smaller(a, (j - 1) as nat, j);
                lemma_halves(a, h);
                lemma_node_aligned(t, a, j, x, o);
                if x < a + h {
                    if !(a == x && (j - 1) as nat == o) {
                        lemma_node_aligned(*l, a, (j - 1) as nat, x, o);
                        assert(o < j - 1);
                        lemma_same_half(a, j, x, o);
                        lemma_buddy_is_sibling(x, o);
                        assert(node_at(t, a, j, buddy(x, o), o) == node_at(*l, a, (j - 1) as nat, buddy(x, o), o));
                        lemma_replace_found(*l, a, (j - 1) as nat, x, o, n);
                    } else {
                        assert(buddy(x, o) == a + h);
                        assert(node_at(t, a, j, a + h, o) == node_at(*r, a + h, (j - 1) as nat, a + h, o));
                    }
                    lemma_replace_ok(*l, a, (j - 1) as nat, x, o, n);
                } else {
                    if !(a + h == x && (j - 1) as nat == o) {
                        lemma_node_aligned(*r, a + h, (j - 1) as nat, x, o);
                        assert(o < j - 1);
                        lemma_same_half(a, j, x, o);
                        lemma_buddy_is_sibling(x, o);
                        assert(node_at(t, a, j, buddy(x, o), o) == node_at(*r, a + h, (j - 1) as nat, buddy(x, o), o));
                        lemma_replace_found(*r, a + h, (j - 1) as nat, x, o, n);
                    } else {
                        lemma_upper_half(a, h);
                        assert((a + h) % (block_size(j) as int) != 0);
                        assert(buddy(x, o) == a);
                        assert(node_at(t, a, j, a, o) == node_at(*l, a, (j - 1) as nat, a, o));
                    }
                    lemma_replace_ok(*r, a + h, (j - 1) as nat, x, o, n);
                }
            },
            _ => {},
        }
    }
}

/// A node below the root has a parent: the split block of the next order
/// whose halves are the node and its buddy.
pub proof fn lemma_parent(t: BuddyTree, a: int, j: nat, x: int, o: nat)
    requires
        a >= 0,
        a % (block_size(j) as int) == 0,
        node_at(t, a, j, x, o) is Some,
        o < j,
    ensures
        ({
            let p = parent_addr(x, o);
            let s = block_size(o) as int;
            &&& node_at(t, a, j, p, o) is Some
            &&& node_at(t, a, j, p + s, o) is Some
            &&& node_at(t, a, j, p, o + 1) == Some(
                BuddyTree::Split(
                    Box::new(node_at(t, a, j, p, o).unwrap()),
                    Box::new(node_at(t, a, j, p + s, o).unwrap()),
                ),
            )
        }),
    decreases t,
{
    let p = parent_addr(x, o);
    let s = block_size(o) as int;
    match t {
        BuddyTree::Split(l, r) => {
            lemma_block_size_next((j - 1) as nat);
            let h = block_size((j - 1) as nat) as int;
            crate::sizes::lemma_aligned_smaller(a, (j - 1) as nat, j);
            lemma_halves(a, h);
            lemma_node_aligned(t, a, j, x, o);
            lemma_buddy_is_sibling(x, o);
            if j == o + 1 {
                if x < a + h {
                    assert(x == a);
                } else {
                    assert(x == a + h);
                    lemma_upper_half(a, h);
                    assert((a + h) % (block_size(j) as int) == h);
                }
                assert(p == a);
                assert(node_at(t, a, j, a, o) == node_at(*l, a, (j - 1) as nat, a, o));
                assert(node_at(t, a, j, a + h, o) == node_at(*r, a + h, (j - 1) as nat, a + h, o));
            } else {
                lemma_same_half(a, j, x, o);
                if x < a + h {
                    lemma_node_aligned(*l, a, (j - 1) as nat, x, o);
                    lemma_parent(*l, a, (j - 1) as nat, x, o);
                    assert(node_at(t, a, j, p, o + 1) == node_at(*l, a, (j - 1) as nat, p, o + 1));
                    assert(node_at(t, a, j, p, o) == node_at(*l, a, (j - 1) as nat, p, o));
                    assert(node_at(t, a, j, p + s, o) == node_at(*l, a, (j - 1) as nat, p + s, o));
                } else {
                    lemma_node_aligned(*r, a + h, (j - 1) as nat, x, o);
                    crate::sizes::lemma_aligned_smaller(a + h, (j - 1) as nat, (j - 1) as nat);
                    lemma_parent(*r, a + h, (j - 1) as nat, x, o);
                    assert(node_at(t, a, j, p, o + 1) == node_at(*r, a + h, (j - 1) as nat, p, o + 1));
                    assert(node_at(t, a, j, p, o) == node_at(*r, a + h, (j - 1) as nat, p, o));
                    assert(node_at(t, a, j, p + s, o) == node_at(*r, a + h, (j - 1) as nat, p + s, o));
                }
            }
        },
        _ => {},
    }
}

/// Counting in a sum of two multisets.
proof fn lemma_count_add(m1: Multiset<(int, nat)>, m2: Multiset<(int, nat)>, v: (int, nat))
    ensures
        m1.add(m2).count(v) == m1.count(v) + m2.count(v),
{
}

/// Counting after an insertion.
proof fn lemma_count_insert(m: Multiset<(int, nat)>, x: (int, nat), v: (int, nat))
    ensures
        m.insert(x).count(v) == m.count(v) + (if v == x { 1nat } else { 0nat }),
{
    lemma_count_add(m, Multiset::singleton(x), v);
    if v != x {
        assert(Multiset::singleton(x).count(v) == 0);
    }
}

/// The blocks of the free list `s` of order `o`.
pub open spec fn seq_blocks(s: Seq<usize>, o: nat) -> Multiset<(int, nat)>
    decreases s.len(),
{
    if s.len() == 0 {
        Multiset::empty()
    } else {
        seq_blocks(s.drop_last(), o).insert((s.last() as int, o))
    }
}

/// The blocks of the free lists of orders below `n`.
pub open spec fn lists_blocks(lists: Seq<Seq<usize>>, n: nat) -> Multiset<(int, nat)>
    decreases n,
{
    if n == 0 {
        Multiset::empty()
    } else {
        lists_blocks(lists, (n - 1) as nat).add(seq_blocks(lists[n - 1], (n - 1) as nat))
    }
}

/// The blocks handed out.
pub open spec fn handed_blocks(h: Seq<(usize, nat)>) -> Multiset<(int, nat)>
    decreases h.len(),
{
    if h.len() == 0 {
        Multiset::empty()
    } else {
        handed_blocks(h.drop_last()).insert((h.last().0 as int, h.last().1))
    }
}

/// What a free list holds, counted.
proof fn lemma_seq_blocks_count(s: Seq<usize>, o: nat, v: (int, nat))
    ensures
        seq_blocks(s, o).count(v) > 0 ==> v.1 == o && exists|i: int| 0 <= i < s.len() && s[i] as int == v.0,
        v.1 == o && (exists|i: int| 0 <= i < s.len() && s[i] as int == v.0) ==> seq_blocks(s, o).count(v) > 0,
        seq_blocks(s, o).len() == s.len(),
    decreases s.len(),
{
    if s.len() > 0 {
        let d = s.drop_last();
        lemma_seq_blocks_count(d, o, v);
        lemma_count_insert(seq_blocks(d, o), (s.last() as int, o), v);
        if seq_blocks(s, o).count(v) > 0 && v != (s.last() as int, o) {
            let i = choose|i: int| 0 <= i < d.len() && d[i] as int == v.0;
            assert(s[i] == d[i]);
        }
        if v.1 == o && (exists|i: int| 0 <= i < s.len() && s[i] as int == v.0) && v != (s.last() as int, o) {
            let i = choose|i: int| 0 <= i < s.len() && s[i] as int == v.0;
            assert(i < s.len() - 1);
            assert(d[i] == s[i]);
        }
    }
}

/// Pushing onto a free list adds its block.
proof fn lemma_seq_blocks_push(s: Seq<usize>, o: nat, x: usize)
    ensures
        seq_blocks(s.push(x), o) == seq_blocks(s, o).insert((x as int, o)),
{
    assert(s.push(x).drop_last() =~= s);
}

/// Removing from a free list takes its block out.
proof fn lemma_seq_blocks_remove(s: Seq<usize>, o: nat, i: int)
    requires
        0 <= i < s.len(),
    ensures
        seq_blocks(s.remove(i), o).insert((s[i] as int, o)) == seq_blocks(s, o),
    decreases s.len(),
{
    if i == s.len() - 1 {
        assert(s.remove(i) =~= s.drop_last());
    } else {
        let d = s.drop_last();
        lemma_seq_blocks_remove(d, o, i);
        assert(s.remove(i).drop_last() =~= d.remove(i));
        assert(s.remove(i).last() == s.last());
        let a = seq_blocks(d.remove(i), o);
        let x = (s[i] as int, o);
        let y = (s.last() as int, o);
        assert(seq_blocks(s.remove(i), o) == a.insert(y));
        assert(d[i] == s[i]);
        assert forall|v: (int, nat)| #[trigger] a.insert(y).insert(x).count(v) == a.insert(x).insert(y).count(v) by {
            lemma_count_insert(a.insert(y), x, v);
            lemma_count_insert(a, y, v);
            lemma_count_insert(a.insert(x), y, v);
            lemma_count_insert(a, x, v);
        }
        assert(a.insert(y).insert(x) =~= a.insert(x).insert(y));
    }
}

/// Replacing one free list changes the blocks of all lists by the
/// difference between the two.
proof fn lemma_lists_blocks_update(lists: Seq<Seq<usize>>, j: int, s: Seq<usize>, n: nat)
    requires
        0 <= j < lists.len(),
        n <= lists.len(),
    ensures
        j < n ==> lists_blocks(lists.update(j, s), n).add(seq_blocks(lists[j], j as nat)) == lists_blocks(lists, n).add(
            seq_blocks(s, j as nat),
        ),
        j >= n ==> lists_blocks(lists.update(j, s), n) == lists_blocks(lists, n),
    decreases n,
{
    if n > 0 {
        lemma_lists_blocks_update(lists, j, s, (n - 1) as nat);
        let u = lists.update(j, s);
        let a = lists_blocks(u, (n - 1) as nat);
        let b = lists_blocks(lists, (n - 1) as nat);
        let old_j = seq_blocks(lists[j], j as nat);
        let new_j = seq_blocks(s, j as nat);
        if j < n - 1 {
            let last = seq_blocks(lists[n - 1], (n - 1) as nat);
            assert(u[n - 1] == lists[n - 1]);
            assert forall|v: (int, nat)| #[trigger] a.add(last).add(old_j).count(v) == b.add(last).add(new_j).count(v) by {
                lemma_count_add(a.add(last), old_j, v);
                lemma_count_add(a, last, v);
                lemma_count_add(b.add(last), new_j, v);
                lemma_count_add(b, last, v);
                lemma_count_add(a, old_j, v);
                lemma_count_add(b, new_j, v);
            }
            assert(a.add(last).add(old_j) =~= b.add(last).add(new_j));
        } else if j == n - 1 {
            assert(u[j] == s);
            assert forall|v: (int, nat)| #[trigger] a.add(new_j).add(old_j).count(v) == b.add(old_j).add(new_j).count(v) by {
                lemma_count_add(a.add(new_j), old_j, v);
                lemma_count_add(a, new_j, v);
                lemma_count_add(b.add(old_j), new_j, v);
                lemma_count_add(b, old_j, v);
            }
            assert(a.add(new_j).add(old_j) =~= b.add(old_j).add(new_j));
        } else {
            assert(u[n - 1] == lists[n - 1]);
        }
    }
}

/// The blocks of all free lists, counted.
proof fn lemma_lists_blocks_count(lists: Seq<Seq<usize>>, n: nat, v: (int, nat))
    requires
        n <= lists.len(),
    ensures
        lists_blocks(lists, n).count(v) == if v.1 < n { seq_blocks(lists[v.1 as int], v.1).count(v) } else { 0 },
    decreases n,
{
    if n > 0 {
        lemma_lists_blocks_count(lists, (n - 1) as nat, v);
        lemma_count_add(lists_blocks(lists, (n - 1) as nat), seq_blocks(lists[n - 1], (n - 1) as nat), v);
        lemma_seq_blocks_count(lists[n - 1], (n - 1) as nat, v);
    }
}

/// Handing out a block records it.
proof fn lemma_handed_blocks_push(h: Seq<(usize, nat)>, e: (usize, nat))
    ensures
        handed_blocks(h.push(e)) == handed_blocks(h).insert((e.0 as int, e.1)),
{
    assert(h.push(e).drop_last() =~= h);
}

/// Taking a block back drops it from the record.
proof fn lemma_handed_blocks_remove(h: Seq<(usize, nat)>, i: int)
    requires
        0 <= i < h.len(),
    ensures
        handed_blocks(h.remove(i)).insert((h[i].0 as int, h[i].1)) == handed_blocks(h),
    decreases h.len(),
{
    if i == h.len() - 1 {
        assert(h.remove(i) =~= h.drop_last());
    } else {
        let d = h.drop_last();
        lemma_handed_blocks_remove(d, i);
        assert(h.remove(i).drop_last() =~= d.remove(i));
        assert(h.remove(i).last() == h.last());
        let a = handed_blocks(d.remove(i));
        let x = (h[i].0 as int, h[i].1);
        let y = (h.last().0 as int, h.last().1);
        assert(d[i] == h[i]);
        assert forall|v: (int, nat)| #[trigger] a.insert(y).insert(x).count(v) == a.insert(x).insert(y).count(v) by {
            lemma_count_insert(a.insert(y), x, v);
            lemma_count_insert(a, y, v);
            lemma_count_insert(a.insert(x), y, v);
            lemma_count_insert(a, x, v);
        }
        assert(a.insert(y).insert(x) =~= a.insert(x).insert(y));
    }
}

/// A recorded block is counted.
proof fn lemma_handed_blocks_contains(h: Seq<(usize, nat)>, i: int)
    requires
        0 <= i < h.len(),
    ensures
        handed_blocks(h).count((h[i].0 as int, h[i].1)) > 0,
{
    lemma_handed_blocks_remove(h, i);
    lemma_count_insert(handed_blocks(h.remove(i)), (h[i].0 as int, h[i].1), (h[i].0 as int, h[i].1));
}

/// The free lists and the blocks handed out are exactly the free and the
/// handed-out leaves of the buddy tree `t` rooted at the block at `root` of
/// the top order.
pub open spec fn tree_model(lists: Seq<Seq<usize>>, handed: Seq<(usize, nat)>, root: int, t: BuddyTree) -> bool {
    let k = (lists.len() - 1) as nat;
    &&& lists.len() >= 1
    &&& root >= 0
    &&& root % (block_size(k) as int) == 0
    &&& root + block_size(k) <= usize::MAX
    &&& tree_ok(t, k)
    &&& lists_blocks(lists, lists.len()) == free_of(t, root, k)
    &&& handed_blocks(handed) == used_of(t, root, k)
}

/// The split-down block: the lowest half handed out, every upper half free.
pub open spec fn chain(d: nat) -> BuddyTree
    decreases d,
{
    if d == 0 {
        BuddyTree::Used
    } else {
        BuddyTree::Split(Box::new(chain((d - 1) as nat)), Box::new(BuddyTree::Free))
    }
}

/// The upper halves `b + block_size(j)`, of order `j`, for `lo <= j < hi`.
pub open spec fn upper_halves(b: int, lo: nat, hi: nat) -> Multiset<(int, nat)>
    decreases hi - lo,
{
    if lo >= hi {
        Multiset::empty()
    } else {
        upper_halves(b, lo + 1, hi).insert((b + block_size(lo), lo))
    }
}

proof fn lemma_upper_halves_last(b: int, lo: nat, hi: nat)
    requires
        lo < hi,
    ensures
        upper_halves(b, lo, hi) == upper_halves(b, lo, (hi - 1) as nat).insert((b + block_size((hi - 1) as nat), (hi - 1) as nat)),
    decreases hi - lo,
{
    if lo + 1 < hi {
        lemma_upper_halves_last(b, lo + 1, hi);
        let a = upper_halves(b, lo + 1, (hi - 1) as nat);
        let x = (b + block_size(lo), lo);
        let y = (b + block_size((hi - 1) as nat), (hi - 1) as nat);
        assert forall|v: (int, nat)| #[trigger] a.insert(y).insert(x).count(v) == a.insert(x).insert(y).count(v) by {
            lemma_count_insert(a.insert(y), x, v);
            lemma_count_insert(a, y, v);
            lemma_count_insert(a.insert(x), y, v);
            lemma_count_insert(a, x, v);
        }
        assert(a.insert(y).insert(x) =~= a.insert(x).insert(y));
    } else {
        assert(upper_halves(b, lo + 1, hi) =~= Multiset::empty());
        assert(upper_halves(b, lo, lo) =~= Multiset::empty());
    }
}

proof fn lemma_chain(d: nat, b: int, k: nat)
    requires
        d <= k,
    ensures
        tree_ok(chain(d), k),
        free_of(chain(d), b, k) == upper_halves(b, (k - d) as nat, k),
        used_of(chain(d), b, k) == Multiset::singleton((b, (k - d) as nat)),
    decreases d,
{
    if d > 0 {
        lemma_chain((d - 1) as nat, b, (k - 1) as nat);
        lemma_upper_halves_last(b, (k - d) as nat, k);
        let f = free_of(chain((d - 1) as nat), b, (k - 1) as nat);
        let sp = BuddyTree::Split(Box::new(chain((d - 1) as nat)), Box::new(BuddyTree::Free));
        assert(chain(d) == sp);
        assert(chain((d - 1) as nat) is Used || chain((d - 1) as nat) is Split);
        assert(k > 0);
        assert(tree_ok(chain((d - 1) as nat), (k - 1) as nat));
        assert(tree_ok(BuddyTree::Free, (k - 1) as nat));
        assert(!(chain((d - 1) as nat) is Free));
        assert(tree_ok(sp, k));
        assert(free_of(sp, b, k) == f.add(free_of(BuddyTree::Free, b + block_size((k - 1) as nat), (k - 1) as nat)));
        assert(used_of(sp, b, k) == used_of(chain((d - 1) as nat), b, (k - 1) as nat).add(
            used_of(BuddyTree::Free, b + block_size((k - 1) as nat), (k - 1) as nat),
        ));
        assert(free_of(chain(d), b, k) == f.add(Multiset::singleton((b + block_size((k - 1) as nat), (k - 1) as nat))));
        let u = used_of(chain((d - 1) as nat), b, (k - 1) as nat);
        assert(used_of(chain(d), b, k) == u.add(Multiset::<(int, nat)>::empty()));
        assert(u.add(Multiset::<(int, nat)>::empty()) =~= u);
    } else {
        assert(upper_halves(b, k, k) =~= Multiset::empty());
    }
}

/// A multiset sum cancels a common part.
proof fn lemma_cancel(a: Multiset<(int, nat)>, b: Multiset<(int, nat)>, c: Multiset<(int, nat)>)
    requires
        a.add(c) == b.add(c),
    ensures
        a == b,
{
    assert forall|v: (int, nat)| #[trigger] a.count(v) == b.count(v) by {
        lemma_count_add(a, c, v);
        lemma_count_add(b, c, v);
    }
    assert(a =~= b);
}

proof fn lemma_split_lists_blocks(lists: Seq<Seq<usize>>, n: nat, lo: nat, k: nat)
    requires
        lists_ok(lists, n),
        lo <= k < n,
        lists[k as int].len() > 0,
    ensures
        lists_blocks(split_lists(lists, lo, k), n).insert((lists[k as int].last() as int, k)) == lists_blocks(lists, n).add(
            upper_halves(lists[k as int].last() as int, lo, k),
        ),
    decreases k - lo,
{
    let b = lists[k as int].last();
    assert(block_ok(lists[k as int][lists[k as int].len() - 1] as int, k));
    if lo == k {
        let s = split_lists(lists, k, k);
        let dl = lists[k as int].drop_last();
        assert(s =~= lists.update(k as int, dl));
        lemma_lists_blocks_update(lists, k as int, dl, n);
        assert(seq_blocks(lists[k as int], k) == seq_blocks(dl, k).insert((b as int, k)));
        let a = lists_blocks(s, n);
        let m = lists_blocks(lists, n);
        let sd = seq_blocks(dl, k);
        assert forall|v: (int, nat)| #[trigger] a.insert((b as int, k)).count(v) == m.add(upper_halves(b as int, k, k)).count(v) by {
            lemma_count_insert(a, (b as int, k), v);
            lemma_count_add(a, sd.insert((b as int, k)), v);
            lemma_count_insert(sd, (b as int, k), v);
            lemma_count_add(m, sd, v);
            lemma_count_add(m, upper_halves(b as int, k, k), v);
            assert(upper_halves(b as int, k, k).count(v) == 0);
        }
        assert(a.insert((b as int, k)) =~= m.add(upper_halves(b as int, k, k)));
    } else {
        lemma_split_lists_blocks(lists, n, lo + 1, k);
        crate::sizes::lemma_block_size_divides(lo, k);
        let up = (b + block_size(lo)) as usize;
        let s1 = split_lists(lists, lo + 1, k);
        let s0 = split_lists(lists, lo, k);
        assert(s1[lo as int] == lists[lo as int]);
        assert(s0 =~= s1.update(lo as int, lists[lo as int].push(up)));
        lemma_lists_blocks_update(s1, lo as int, lists[lo as int].push(up), n);
        lemma_seq_blocks_push(lists[lo as int], lo, up);
        let a0 = lists_blocks(s0, n);
        let a1 = lists_blocks(s1, n);
        let m = lists_blocks(lists, n);
        let sl = seq_blocks(lists[lo as int], lo);
        let x = (b as int, k);
        let y = (up as int, lo);
        assert(y == (b as int + block_size(lo), lo));
        assert forall|v: (int, nat)| #[trigger] a0.insert(x).count(v) == m.add(upper_halves(b as int, lo, k)).count(v) by {
            lemma_count_insert(a0, x, v);
            lemma_count_add(a0, sl, v);
            lemma_count_add(a1, sl.insert(y), v);
            lemma_count_insert(sl, y, v);
            lemma_count_insert(a1, x, v);
            lemma_count_add(m, upper_halves(b as int, lo + 1, k), v);
            lemma_count_add(m, upper_halves(b as int, lo, k), v);
            lemma_count_insert(upper_halves(b as int, lo + 1, k), y, v);
        }
        assert(a0.insert(x) =~= m.add(upper_halves(b as int, lo, k)));
    }
}

/// Handing out a block keeps the free lists and the record of blocks handed
/// out the leaves of a buddy tree: the one where the free block split for the
/// request became the chain of its halves.
pub proof fn lemma_split_model(lists: Seq<Seq<usize>>, handed: Seq<(usize, nat)>, root: int, t: BuddyTree, lo: nat) -> (t2: BuddyTree)
    requires
        tree_model(lists, handed, root, t),
        lo < lists.len(),
        first_nonempty(lists, lo) < lists.len(),
    ensures
        ({
            let k = first_nonempty(lists, lo);
            &&& tree_model(split_lists(lists, lo, k), handed.push((lists[k as int].last(), lo)), root, t2)
            &&& split_lists(lists, lo, k).len() == lists.len()
        }),
{
    lemma_model_lists_ok(lists, handed, root, t);
    let n = lists.len();
    let top = (n - 1) as nat;
    let k = first_nonempty(lists, lo);
    lemma_first_nonempty_found(lists, lo);
    let b = lists[k as int].last();
    let x = (b as int, k);
    lemma_lists_blocks_count(lists, n, x);
    lemma_seq_blocks_count(lists[k as int], k, x);
    assert(lists[k as int][lists[k as int].len() - 1] as int == x.0);
    lemma_entry_is_leaf(t, root, top, b as int, k);
    lemma_node_aligned(t, root, top, b as int, k);
    let c = chain((k - lo) as nat);
    lemma_chain((k - lo) as nat, b as int, k);
    let t2 = replace(t, root, top, b as int, k, c);
    lemma_replace_blocks(t, root, top, b as int, k, BuddyTree::Free, c);
    lemma_replace_ok(t, root, top, b as int, k, c);
    lemma_split_lists_blocks(lists, n, lo, k);
    let s = split_lists(lists, lo, k);
    // free blocks
    assert(free_of(BuddyTree::Free, b as int, k) == Multiset::singleton(x));
    assert(lists_blocks(s, n).insert(x) == lists_blocks(s, n).add(Multiset::singleton(x)));
    assert(free_of(t2, root, top).add(Multiset::singleton(x)) == lists_blocks(lists, n).add(upper_halves(b as int, lo, k)));
    lemma_cancel(lists_blocks(s, n), free_of(t2, root, top), Multiset::singleton(x));
    // handed-out blocks
    lemma_handed_blocks_push(handed, (b, lo));
    let u2 = used_of(t2, root, top);
    assert(u2.add(Multiset::<(int, nat)>::empty()) =~= u2);
    assert(s.len() == n);
    t2
}

proof fn lemma_merge_step(
    lists: Seq<Seq<usize>>,
    rest: Seq<(usize, nat)>,
    root: int,
    t: BuddyTree,
    a: usize,
    j: nat,
) -> (t2: BuddyTree)
    requires
        lists.len() >= 1,
        root >= 0,
        root % (block_size((lists.len() - 1) as nat) as int) == 0,
        root + block_size((lists.len() - 1) as nat) <= usize::MAX,
        tree_ok(t, (lists.len() - 1) as nat),
        lists_ok(lists, lists.len()),
        lists_blocks(lists, lists.len()) == free_of(t, root, (lists.len() - 1) as nat),
        handed_blocks(rest).insert((a as int, j)) == used_of(t, root, (lists.len() - 1) as nat),
        node_at(t, root, (lists.len() - 1) as nat, a as int, j) == Some(BuddyTree::Used),
    ensures
        tree_model(merge_lists(lists, a, j), rest, root, t2),
    decreases lists.len() - j,
{
    let n = lists.len();
    let k = (n - 1) as nat;
    lemma_node_aligned(t, root, k, a as int, j);
    lemma_block_size_next(j);
    let bi = buddy(a as int, j);
    let b = bi as usize;
    lemma_buddy_is_sibling(a as int, j);
    if j < k {
        lemma_parent(t, root, k, a as int, j);
        lemma_node_aligned(t, root, k, parent_addr(a as int, j), j + 1);
    }
    if j + 1 < n && lists[j as int].contains(b) {
        let p = parent_addr(a as int, j);
        let sz = block_size(j) as int;
        assert(b as int == bi);
        lemma_nearest_index_exists(lists[j as int], b);
        let i = nearest_index(lists[j as int], b);
        lemma_lists_blocks_count(lists, n, (bi, j));
        lemma_seq_blocks_count(lists[j as int], j, (bi, j));
        lemma_entry_is_leaf(t, root, k, bi, j);
        let parent = node_at(t, root, k, p, j + 1).unwrap();
        let m: usize = if a < b { a } else { b };
        assert(m as int == p);
        assert(((j + 1) - 1) as nat == j);
        if a as int == p {
            assert(parent == BuddyTree::Split(Box::new(BuddyTree::Used), Box::new(BuddyTree::Free)));
            assert(bi == p + sz);
            assert(free_of(parent, p, j + 1) == free_of(BuddyTree::Used, p, j).add(free_of(BuddyTree::Free, p + sz, j)));
            assert(used_of(parent, p, j + 1) == used_of(BuddyTree::Used, p, j).add(used_of(BuddyTree::Free, p + sz, j)));
            assert(free_of(parent, p, j + 1) =~= Multiset::<(int, nat)>::empty().add(Multiset::singleton((bi, j))));
            assert(used_of(parent, p, j + 1) =~= Multiset::singleton((a as int, j)).add(Multiset::<(int, nat)>::empty()));
        } else {
            assert(parent == BuddyTree::Split(Box::new(BuddyTree::Free), Box::new(BuddyTree::Used)));
            assert(bi == p && a as int == p + sz);
            assert(free_of(parent, p, j + 1) == free_of(BuddyTree::Free, p, j).add(free_of(BuddyTree::Used, p + sz, j)));
            assert(used_of(parent, p, j + 1) == used_of(BuddyTree::Free, p, j).add(used_of(BuddyTree::Used, p + sz, j)));
            assert(free_of(parent, p, j + 1) =~= Multiset::singleton((bi, j)).add(Multiset::<(int, nat)>::empty()));
            assert(used_of(parent, p, j + 1) =~= Multiset::<(int, nat)>::empty().add(Multiset::singleton((a as int, j))));
        }
        assert(free_of(parent, p, j + 1) =~= Multiset::singleton((bi, j)));
        assert(used_of(parent, p, j + 1) =~= Multiset::singleton((a as int, j)));
        let t1 = replace(t, root, k, p, j + 1, BuddyTree::Used);
        lemma_replace_blocks(t, root, k, p, j + 1, parent, BuddyTree::Used);
        lemma_replace_ok(t, root, k, p, j + 1, BuddyTree::Used);
        lemma_replace_found(t, root, k, p, j + 1, BuddyTree::Used);
        let removed = lists[j as int].remove(i);
        let lists1 = lists.update(j as int, removed);
        lemma_lists_blocks_update(lists, j as int, removed, n);
        lemma_seq_blocks_remove(lists[j as int], j, i);
        // free blocks: both sides lose the buddy
        let f1 = lists_blocks(lists1, n);
        let ft1 = free_of(t1, root, k);
        let sr = seq_blocks(removed, j);
        assert forall|v: (int, nat)| #[trigger] f1.count(v) == ft1.count(v) by {
            lemma_count_add(f1, seq_blocks(lists[j as int], j), v);
            lemma_count_add(lists_blocks(lists, n), sr, v);
            lemma_count_insert(sr, (bi, j), v);
            lemma_count_add(ft1, free_of(parent, p, j + 1), v);
            lemma_count_add(free_of(t, root, k), free_of(BuddyTree::Used, p, j + 1), v);
        }
        assert(f1 =~= ft1);
        // handed-out blocks: the returned block gives way to its parent
        let ut1 = used_of(t1, root, k);
        let hr = handed_blocks(rest);
        assert forall|v: (int, nat)| #[trigger] hr.insert((p, j + 1)).count(v) == ut1.count(v) by {
            lemma_count_add(ut1, used_of(parent, p, j + 1), v);
            lemma_count_add(used_of(t, root, k), used_of(BuddyTree::Used, p, j + 1), v);
            lemma_count_insert(hr, (a as int, j), v);
            lemma_count_insert(hr, (p, j + 1), v);
        }
        assert(hr.insert((m as int, j + 1)) =~= ut1);
        assert forall|x: int, q: int|
            #![trigger lists1[x][q]]
            0 <= x < n && 0 <= q < lists1[x].len() implies block_ok(lists1[x][q] as int, x as nat) by {
            if x == j {
                if q < i {
                    assert(lists1[x][q] == lists[x][q]);
                } else {
                    assert(lists1[x][q] == lists[x][q + 1]);
                }
            } else {
                assert(lists1[x][q] == lists[x][q]);
            }
        }
        assert(merge_lists(lists, a, j) == merge_lists(lists1, m, j + 1));
        lemma_merge_step(lists1, rest, root, t1, m, j + 1)
    } else {
        let t2 = replace(t, root, k, a as int, j, BuddyTree::Free);
        if !(root == a as int && k == j) {
            assert(j < k);
            if node_at(t, root, k, bi, j) == Some(BuddyTree::Free) {
                lemma_free_leaf_listed(t, root, k, bi, j);
                lemma_lists_blocks_count(lists, n, (bi, j));
                lemma_seq_blocks_count(lists[j as int], j, (bi, j));
                let q = choose|q: int| 0 <= q < lists[j as int].len() && lists[j as int][q] as int == bi;
                assert(lists[j as int][q] == b);
                assert(false);
            }
        }
        lemma_replace_ok(t, root, k, a as int, j, BuddyTree::Free);
        lemma_replace_blocks(t, root, k, a as int, j, BuddyTree::Used, BuddyTree::Free);
        let pushed = lists[j as int].push(a);
        let lists2 = lists.update(j as int, pushed);
        assert(merge_lists(lists, a, j) == lists2);
        lemma_lists_blocks_update(lists, j as int, pushed, n);
        lemma_seq_blocks_push(lists[j as int], j, a);
        let f2 = lists_blocks(lists2, n);
        let ft2 = free_of(t2, root, k);
        let sl = seq_blocks(lists[j as int], j);
        assert forall|v: (int, nat)| #[trigger] f2.count(v) == ft2.count(v) by {
            lemma_count_add(f2, sl, v);
            lemma_count_add(lists_blocks(lists, n), sl.insert((a as int, j)), v);
            lemma_count_insert(sl, (a as int, j), v);
            lemma_count_add(ft2, free_of(BuddyTree::Used, a as int, j), v);
            lemma_count_add(free_of(t, root, k), free_of(BuddyTree::Free, a as int, j), v);
        }
        assert(f2 =~= ft2);
        let ut2 = used_of(t2, root, k);
        let hr = handed_blocks(rest);
        assert forall|v: (int, nat)| #[trigger] hr.count(v) == ut2.count(v) by {
            lemma_count_add(ut2, used_of(BuddyTree::Used, a as int, j), v);
            lemma_count_add(used_of(t, root, k), used_of(BuddyTree::Free, a as int, j), v);
            lemma_count_insert(hr, (a as int, j), v);
        }
        assert(hr =~= ut2);
        assert(lists2.len() == n);
        t2
    }
}

/// Taking a block back keeps the free lists and the record of blocks handed
/// out the leaves of a buddy tree: the one where the block, merged as far as
/// it went, is a free leaf.
pub proof fn lemma_merge_model(
    lists: Seq<Seq<usize>>,
    handed: Seq<(usize, nat)>,
    root: int,
    t: BuddyTree,
    a: usize,
    j: nat,
) -> (t2: BuddyTree)
    requires
        tree_model(lists, handed, root, t),
        handed.contains((a, j)),
    ensures
        tree_model(merge_lists(lists, a, j), handed.remove(handed.index_of((a, j))), root, t2),
        merge_lists(lists, a, j).len() == lists.len(),
{
    lemma_model_lists_ok(lists, handed, root, t);
    lemma_merge_lists_len(lists, a, j);
    let k = (lists.len() - 1) as nat;
    let i = handed.index_of((a, j));
    assert(handed[i] == (a, j));
    lemma_handed_blocks_remove(handed, i);
    lemma_handed_blocks_contains(handed, i);
    lemma_entry_is_leaf(t, root, k, a as int, j);
    lemma_merge_step(lists, handed.remove(i), root, t, a, j)
}

/// A well-formed buddy tree with nothing handed out is one free block.
proof fn lemma_nothing_used_is_free(t: BuddyTree, a: int, j: nat)
    requires
        tree_ok(t, j),
        used_of(t, a, j) =~= Multiset::empty(),
    ensures
        t == BuddyTree::Free,
    decreases t,
{
    match t {
        BuddyTree::Split(l, r) => {
            let h = block_size((j - 1) as nat) as int;
            let ul = used_of(*l, a, (j - 1) as nat);
            let ur = used_of(*r, a + h, (j - 1) as nat);
            assert forall|v: (int, nat)| #[trigger] ul.count(v) == 0 && ur.count(v) == 0 by {
                lemma_count_add(ul, ur, v);
                assert(used_of(t, a, j).count(v) == 0);
            }
            assert(ul =~= Multiset::empty());
            assert(ur =~= Multiset::empty());
            lemma_nothing_used_is_free(*l, a, (j - 1) as nat);
            lemma_nothing_used_is_free(*r, a + h, (j - 1) as nat);
        },
        BuddyTree::Used => {
            assert(used_of(t, a, j).count((a, j)) == 1);
        },
        BuddyTree::Free => {},
    }
}

/// Coalescing: once every block handed out from a buddy tree is back, the
/// free lists hold the tree's root block alone, on the top order's list.
pub proof fn lemma_all_returned(lists: Seq<Seq<usize>>, root: int, t: BuddyTree)
    requires
        tree_model(lists, Seq::empty(), root, t),
    ensures
        lists[lists.len() - 1] == seq![root as usize],
        forall|m: int| 0 <= m < lists.len() - 1 ==> (#[trigger] lists[m]).len() == 0,
{
    let n = lists.len();
    let k = (n - 1) as nat;
    assert(handed_blocks(Seq::<(usize, nat)>::empty()) =~= Multiset::empty());
    lemma_nothing_used_is_free(t, root, k);
    let fb = lists_blocks(lists, n);
    assert(fb == Multiset::singleton((root, k)));
    assert forall|m: int| 0 <= m < n - 1 implies (#[trigger] lists[m]).len() == 0 by {
        if lists[m].len() > 0 {
            let y = lists[m][0] as int;
            lemma_lists_blocks_count(lists, n, (y, m as nat));
            lemma_seq_blocks_count(lists[m], m as nat, (y, m as nat));
        }
    }
    let s = lists[k as int];
    lemma_lists_blocks_count(lists, n, (root, k));
    assert(seq_blocks(s, k).count((root, k)) == 1);
    lemma_seq_blocks_count(s, k, (root, k));
    assert forall|q: int| 0 <= q < s.len() implies s[q] as int == root by {
        lemma_lists_blocks_count(lists, n, (s[q] as int, k));
        lemma_seq_blocks_count(s, k, (s[q] as int, k));
    }
    if s.len() >= 2 {
        let d = s.drop_last();
        lemma_seq_blocks_count(d, k, (root, k));
        assert(d[0] == s[0]);
        lemma_count_insert(seq_blocks(d, k), (s.last() as int, k), (root, k));
    }
    assert(s.len() == 1);
    assert(s =~= seq![root as usize]);
}

/// Every free block of a buddy tree is well placed.
pub proof fn lemma_model_lists_ok(lists: Seq<Seq<usize>>, handed: Seq<(usize, nat)>, root: int, t: BuddyTree)
    requires
        tree_model(lists, handed, root, t),
    ensures
        lists_ok(lists, lists.len()),
{
    let n = lists.len();
    let k = (n - 1) as nat;
    assert forall|o: int, i: int|
        #![trigger lists[o][i]]
        0 <= o < n && 0 <= i < lists[o].len() implies block_ok(lists[o][i] as int, o as nat) by {
        let v = (lists[o][i] as int, o as nat);
        lemma_lists_blocks_count(lists, n, v);
        lemma_seq_blocks_count(lists[o], o as nat, v);
        lemma_entry_is_leaf(t, root, k, v.0, v.1);
        lemma_node_aligned(t, root, k, v.0, v.1);
    }
}

/// Merging keeps the number of orders.
pub proof fn lemma_merge_lists_len(lists: Seq<Seq<usize>>, a: usize, j: nat)
    ensures
        merge_lists(lists, a, j).len() == lists.len(),
    decreases lists.len() - j,
{
    if j + 1 < lists.len() && lists[j as int].contains(buddy(a as int, j) as usize) {
        let b = buddy(a as int, j) as usize;
        let rest = lists.update(j as int, lists[j as int].remove(nearest_index(lists[j as int], b)));
        lemma_merge_lists_len(rest, if a < b { a } else { b }, j + 1);
    }
}

/// A single free block of the top order, and nothing else, is a buddy tree
/// of one free node.
pub proof fn lemma_one_block_model(lists: Seq<Seq<usize>>, root: usize)
    requires
        lists.len() >= 1,
        lists[lists.len() - 1] == seq![root],
        forall|m: int| 0 <= m < lists.len() - 1 ==> (#[trigger] lists[m]).len() == 0,
        block_ok(root as int, (lists.len() - 1) as nat),
    ensures
        tree_model(lists, Seq::empty(), root as int, BuddyTree::Free),
{
    let n = lists.len();
    let k = (n - 1) as nat;
    let fb = lists_blocks(lists, n);
    let x = (root as int, k);
    assert forall|v: (int, nat)| #[trigger] fb.count(v) == Multiset::singleton(x).count(v) by {
        lemma_lists_blocks_count(lists, n, v);
        if v.1 < n {
            lemma_seq_blocks_count(lists[v.1 as int], v.1, v);
            if v.1 == k {
                let s = lists[k as int];
                assert(s.drop_last() =~= Seq::<usize>::empty());
                assert(seq_blocks(s.drop_last(), k) =~= Multiset::empty());
                lemma_count_insert(seq_blocks(s.drop_last(), k), x, v);
            } else {
                assert(lists[v.1 as int].len() == 0);
            }
        }
        if v != x {
            assert(Multiset::singleton(x).count(v) == 0);
        }
    }
    assert(fb =~= Multiset::singleton(x));
    assert(handed_blocks(Seq::<(usize, nat)>::empty()) =~= Multiset::empty());
}

/// The block at `x` of order `o` and the block at `y` of order `p` share no
/// byte.
pub open spec fn apart(x: int, o: nat, y: int, p: nat) -> bool {
    x + block_size(o) <= y || y + block_size(p) <= x
}

/// The leaves of a well-formed tree are distinct blocks that share no byte.
proof fn lemma_leaves_apart(t: BuddyTree, a: int, j: nat, v: (int, nat), w: (int, nat))
    requires
        tree_ok(t, j),
        free_of(t, a, j).count(v) + used_of(t, a, j).count(v) > 0,
        free_of(t, a, j).count(w) + used_of(t, a, j).count(w) > 0,
    ensures
        free_of(t, a, j).count(v) + used_of(t, a, j).count(v) == 1,
        v != w ==> apart(v.0, v.1, w.0, w.1),
    decreases t,
{
    match t {
        BuddyTree::Split(l, r) => {
            let h = block_size((j - 1) as nat) as int;
            let jl = (j - 1) as nat;
            lemma_count_add(free_of(*l, a, jl), free_of(*r, a + h, jl), v);
            lemma_count_add(used_of(*l, a, jl), used_of(*r, a + h, jl), v);
            lemma_count_add(free_of(*l, a, jl), free_of(*r, a + h, jl), w);
            lemma_count_add(used_of(*l, a, jl), used_of(*r, a + h, jl), w);
            let vl = free_of(*l, a, jl).count(v) + used_of(*l, a, jl).count(v) > 0;
            let vr = free_of(*r, a + h, jl).count(v) + used_of(*r, a + h, jl).count(v) > 0;
            let wl = free_of(*l, a, jl).count(w) + used_of(*l, a, jl).count(w) > 0;
            let wr = free_of(*r, a + h, jl).count(w) + used_of(*r, a + h, jl).count(w) > 0;
            if vl {
                lemma_entries_inside(*l, a, jl, v.0, v.1);
            }
            if vr {
                lemma_entries_inside(*r, a + h, jl, v.0, v.1);
            }
            if wl {
                lemma_entries_inside(*l, a, jl, w.0, w.1);
            }
            if wr {
                lemma_entries_inside(*r, a + h, jl, w.0, w.1);
            }
            lemma_block_size_next(v.1);
            lemma_block_size_next(w.1);
            if vl && wl {
                lemma_leaves_apart(*l, a, jl, v, w);
            } else if vr && wr {
                lemma_leaves_apart(*r, a + h, jl, v, w);
            } else if vl {
                lemma_leaves_apart(*l, a, jl, v, v);
            } else {
                lemma_leaves_apart(*r, a + h, jl, v, v);
            }
        },
        BuddyTree::Free => {
            assert(used_of(t, a, j).count(v) == 0);
            if v != (a, j) {
                assert(free_of(t, a, j).count(v) == 0);
            }
            if w != (a, j) {
                assert(free_of(t, a, j).count(w) == 0);
            }
        },
        BuddyTree::Used => {
            assert(free_of(t, a, j).count(v) == 0);
            if v != (a, j) {
                assert(used_of(t, a, j).count(v) == 0);
            }
            if w != (a, j) {
                assert(used_of(t, a, j).count(w) == 0);
            }
        },
    }
}

/// No overlap: in a buddy tree, the blocks handed out are distinct and share
/// no byte with one another nor with any free block.
pub proof fn lemma_no_overlap(lists: Seq<Seq<usize>>, handed: Seq<(usize, nat)>, root: int, t: BuddyTree)
    requires
        tree_model(lists, handed, root, t),
    ensures
        forall|i: int, j: int|
            0 <= i < j < handed.len() ==> apart(
                handed[i].0 as int,
                handed[i].1,
                handed[j].0 as int,
                handed[j].1,
            ),
        forall|i: int, o: int, q: int|
            #![trigger handed[i], lists[o][q]]
            0 <= i < handed.len() && 0 <= o < lists.len() && 0 <= q < lists[o].len() ==> apart(
                handed[i].0 as int,
                handed[i].1,
                lists[o][q] as int,
                o as nat,
            ),
{
    let n = lists.len();
    let k = (n - 1) as nat;
    let hb = handed_blocks(handed);
    assert forall|i: int, j: int| 0 <= i < j < handed.len() implies apart(
        handed[i].0 as int,
        handed[i].1,
        handed[j].0 as int,
        handed[j].1,
    ) by {
        let v = (handed[i].0 as int, handed[i].1);
        let w = (handed[j].0 as int, handed[j].1);
        lemma_handed_blocks_contains(handed, i);
        lemma_handed_blocks_contains(handed, j);
        lemma_leaves_apart(t, root, k, v, w);
        if v == w {
            // the two records would count the block twice
            lemma_handed_blocks_remove(handed, i);
            let rest = handed.remove(i);
            assert(rest[j - 1] == handed[j]);
            lemma_handed_blocks_contains(rest, j - 1);
            lemma_count_insert(handed_blocks(rest), v, v);
        }
    }
    assert forall|i: int, o: int, q: int|
        #![trigger handed[i], lists[o][q]]
        0 <= i < handed.len() && 0 <= o < lists.len() && 0 <= q < lists[o].len() implies apart(
        handed[i].0 as int,
        handed[i].1,
        lists[o][q] as int,
        o as nat,
    ) by {
        let v = (handed[i].0 as int, handed[i].1);
        let w = (lists[o][q] as int, o as nat);
        lemma_handed_blocks_contains(handed, i);
        lemma_lists_blocks_count(lists, n, w);
        lemma_seq_blocks_count(lists[o], o as nat, w);
        lemma_leaves_apart(t, root, k, v, w);
        if v == w {
            lemma_entry_is_leaf(t, root, k, v.0, v.1);
        }
    }
}

/// Every subtree of a well-formed tree is well formed.
proof fn lemma_subtree_ok(t: BuddyTree, a: int, j: nat, x: int, o: nat)
    requires
        tree_ok(t, j),
        node_at(t, a, j, x, o) is Some,
    ensures
        tree_ok(node_at(t, a, j, x, o).unwrap(), o),
    decreases t,
{
    if !(a == x && j == o) {
        match t {
            BuddyTree::Split(l, r) => {
                let h = block_size((j - 1) as nat) as int;
                if x < a + h {
                    lemma_subtree_ok(*l, a, (j - 1) as nat, x, o);
                } else {
                    lemma_subtree_ok(*r, a + h, (j - 1) as nat, x, o);
                }
            },
            _ => {},
        }
    }
}

/// In a buddy tree no free block below the top order has its buddy free.
pub proof fn lemma_buddy_not_free(lists: Seq<Seq<usize>>, handed: Seq<(usize, nat)>, root: int, t: BuddyTree, k: nat)
    requires
        tree_model(lists, handed, root, t),
        k + 1 < lists.len(),
        lists[k as int].len() > 0,
    ensures
        !lists[k as int].drop_last().contains(buddy(lists[k as int].last() as int, k) as usize),
{
    let n = lists.len();
    let top = (n - 1) as nat;
    let s = lists[k as int];
    let b = s.last();
    let v = (b as int, k);
    lemma_lists_blocks_count(lists, n, v);
    lemma_seq_blocks_count(s, k, v);
    assert(s[s.len() - 1] as int == v.0);
    lemma_entry_is_leaf(t, root, top, v.0, k);
    lemma_node_aligned(t, root, top, v.0, k);
    lemma_buddy_is_sibling(v.0, k);
    lemma_parent(t, root, top, v.0, k);
    let p = parent_addr(v.0, k);
    lemma_node_aligned(t, root, top, p, k + 1);
    lemma_block_size_next(k);
    let bi = buddy(v.0, k);
    if s.drop_last().contains(bi as usize) {
        let q = choose|q: int| 0 <= q < s.drop_last().len() && s.drop_last()[q] == bi as usize;
        assert(s[q] == bi as usize);
        let w = (bi, k);
        lemma_lists_blocks_count(lists, n, w);
        lemma_seq_blocks_count(s, k, w);
        lemma_entry_is_leaf(t, root, top, bi, k);
        lemma_subtree_ok(t, root, top, p, k + 1);
        assert(false);
    }
}

} // verus!
