//! The buddy engine: one free list per order, region registration, the
//! split cascade of allocation and the merge cascade of release.
use vstd::prelude::*;

use crate::free_list::{lemma_nearest_index, lemma_nearest_index_exists, nearest_index, FreeList};
use crate::sizes::{
    block_size, lemma_aligned_smaller, lemma_block_size_divides, lemma_block_size_next, lemma_halves,
    MIN_BLOCK_SIZE,
};

verus! {

/// `n` orders can be served: there is at least one, and the largest block
/// size fits in a `usize`.
pub open spec fn valid_orders(n: nat) -> bool {
    1 <= n && block_size((n - 1) as nat) <= usize::MAX
}

/// Up to 28 orders fit any target: the largest block, 2^31 bytes, fits in a
/// `usize` of 32 bits or more.
pub proof fn lemma_valid_orders(n: nat)
    requires
        1 <= n <= 28,
    ensures
        valid_orders(n),
{
    reveal_with_fuel(crate::sizes::pow2, 28);
    assert(block_size(27) == 0x8000_0000);
    lemma_block_size_divides((n - 1) as nat, 27);
}

/// A free or handed-out block at `addr` of order `order` is aligned to its
/// own size and lies wholly inside the address space.
pub open spec fn block_ok(addr: int, order: nat) -> bool {
    &&& addr % (block_size(order) as int) == 0
    &&& addr + block_size(order) <= usize::MAX
}

/// The free lists, one per order, hold only well-placed blocks of their order.
pub open spec fn lists_ok(lists: Seq<Seq<usize>>, n: nat) -> bool {
    &&& lists.len() == n
    &&& forall|j: int, i: int|
        #![trigger lists[j][i]]
        0 <= j < n && 0 <= i < lists[j].len() ==> block_ok(lists[j][i] as int, j as nat)
}

/// The blocks handed out and not yet returned are well-placed and of an order
/// the allocator has.
pub open spec fn handed_out_ok(blocks: Seq<(usize, nat)>, n: nat) -> bool {
    forall|i: int|
        #![trigger blocks[i]]
        0 <= i < blocks.len() ==> blocks[i].1 < n && block_ok(blocks[i].0 as int, blocks[i].1)
}

/// Total size of the free blocks in the lists of orders below `n`.
pub open spec fn free_bytes_below(lists: Seq<Seq<usize>>, n: nat) -> nat
    decreases n,
{
    if n == 0 {
        0
    } else {
        free_bytes_below(lists, (n - 1) as nat) + lists[n - 1].len() * block_size((n - 1) as nat)
    }
}

/// Total size of the free blocks in all the lists.
pub open spec fn free_bytes(lists: Seq<Seq<usize>>) -> nat {
    free_bytes_below(lists, lists.len())
}

/// Total size of the blocks handed out.
pub open spec fn handed_out_bytes(blocks: Seq<(usize, nat)>) -> nat
    decreases blocks.len(),
{
    if blocks.len() == 0 {
        0
    } else {
        handed_out_bytes(blocks.drop_last()) + block_size(blocks.last().1)
    }
}

/// A request of `size` bytes aligned to `align` fits a block of order `j`.
pub open spec fn fits(size: nat, align: nat, j: nat) -> bool {
    size <= block_size(j) && align <= block_size(j)
}

/// The smallest order from `j` up, below `n`, whose blocks fit the request;
/// `n` when there is none.
pub open spec fn fitting_order(size: nat, align: nat, j: nat, n: nat) -> nat
    decreases n - j,
{
    if j >= n {
        n
    } else if fits(size, align, j) {
        j
    } else {
        fitting_order(size, align, j + 1, n)
    }
}

/// The order a request is served at (the order of `max(MIN_BLOCK_SIZE,
/// size.next_power_of_two(), align)` for a power-of-two `align`); `n` when
/// the request is larger than the largest block.
pub open spec fn request_order(size: nat, align: nat, n: nat) -> nat {
    fitting_order(size, align, 0, n)
}

/// The first order from `j` up whose free list is not empty; the number of
/// orders when all are empty.
pub open spec fn first_nonempty(lists: Seq<Seq<usize>>, j: nat) -> nat
    decreases lists.len() - j,
{
    if j >= lists.len() {
        lists.len()
    } else if lists[j as int].len() > 0 {
        j
    } else {
        first_nonempty(lists, j + 1)
    }
}

/// The free lists after taking the top block `b` of order `k` and splitting
/// it down to order `t`: `b` leaves list `k`, and each order `j` from `t` to
/// `k - 1` gains the upper half `b + block_size(j)` of the block split there.
/// The lower half at order `t`, at `b`, is the block handed out.
pub open spec fn split_lists(lists: Seq<Seq<usize>>, t: nat, k: nat) -> Seq<Seq<usize>> {
    let b = lists[k as int].last();
    Seq::new(
        lists.len(),
        |j: int|
            if j == k {
                lists[j].drop_last()
            } else if t <= j < k {
                lists[j].push((b + block_size(j as nat)) as usize)
            } else {
                lists[j]
            },
    )
}

/// The address of the buddy of the block at `a` of order `j`.
pub open spec fn buddy(a: int, j: nat) -> int {
    if a % (block_size(j + 1) as int) == 0 {
        a + block_size(j)
    } else {
        a - block_size(j)
    }
}

/// The free lists after releasing the block at `a` of order `j`: while its
/// buddy is free and the order is below the top one, the buddy leaves its
/// list and the two merge into the block of the next order at the lower of
/// the two addresses; the final block goes on top of its order's list.
pub open spec fn merge_lists(lists: Seq<Seq<usize>>, a: usize, j: nat) -> Seq<Seq<usize>>
    decreases lists.len() - j,
{
    if j + 1 < lists.len() && lists[j as int].contains(buddy(a as int, j) as usize) {
        let b = buddy(a as int, j) as usize;
        let rest = lists.update(j as int, lists[j as int].remove(nearest_index(lists[j as int], b)));
        merge_lists(rest, if a < b { a } else { b }, j + 1)
    } else if j < lists.len() {
        lists.update(j as int, lists[j as int].push(a))
    } else {
        lists
    }
}

/// `a` rounded up to a multiple of `MIN_BLOCK_SIZE`.
pub open spec fn align_up(a: int) -> int {
    if a % 16 == 0 {
        a
    } else {
        a + 16 - a % 16
    }
}

/// `a` rounded down to a multiple of `MIN_BLOCK_SIZE`.
pub open spec fn align_down(a: int) -> int {
    a - a % 16
}

/// The largest order, at most `j`, of a block at `s` that is aligned to its
/// size and ends by `e`; order 0 when none larger is.
pub open spec fn tile_order(s: int, e: int, j: nat) -> nat
    decreases j,
{
    if j == 0 || (s % (block_size(j) as int) == 0 && s + block_size(j) <= e) {
        j
    } else {
        tile_order(s, e, (j - 1) as nat)
    }
}

/// The free lists after tiling `[s, e)` greedily, from `s` up, with the
/// largest blocks that are aligned to their size and fit.
pub open spec fn tile_lists(lists: Seq<Seq<usize>>, s: int, e: int) -> Seq<Seq<usize>>
    decreases e - s
    via tile_lists_decreases

{
    if lists.len() > 0 && s + MIN_BLOCK_SIZE <= e {
        let j = tile_order(s, e, (lists.len() - 1) as nat);
        tile_lists(lists.update(j as int, lists[j as int].push(s as usize)), s + block_size(j), e)
    } else {
        lists
    }
}

#[via_fn]
proof fn tile_lists_decreases(lists: Seq<Seq<usize>>, s: int, e: int) {
    if lists.len() > 0 && s + MIN_BLOCK_SIZE <= e {
        lemma_tile_order(s, e, (lists.len() - 1) as nat);
        lemma_block_size_next(tile_order(s, e, (lists.len() - 1) as nat));
    }
}

/// The tile chosen at `s` is no larger than asked, ends by `e` and is
/// aligned to its size.
pub proof fn lemma_tile_order(s: int, e: int, j: nat)
    requires
        s + MIN_BLOCK_SIZE <= e,
    ensures
        tile_order(s, e, j) <= j,
        s + block_size(tile_order(s, e, j)) <= e,
        s % 16 == 0 ==> s % (block_size(tile_order(s, e, j)) as int) == 0,
    decreases j,
{
    lemma_block_size_next(0);
    if !(j == 0 || (s % (block_size(j) as int) == 0 && s + block_size(j) <= e)) {
        lemma_tile_order(s, e, (j - 1) as nat);
    }
}

/// Size in bytes of a block of order `order`.
pub fn order_block_size(order: usize) -> (r: usize)
    requires
        block_size(order as nat) <= usize::MAX,
    ensures
        r == block_size(order as nat),
{
    let mut j: usize = 0;
    let mut size: usize = MIN_BLOCK_SIZE;
    while j < order
        invariant
            j <= order,
            size == block_size(j as nat),
            block_size(order as nat) <= usize::MAX,
        decreases order - j,
    {
        proof {
            lemma_block_size_next(j as nat);
            lemma_block_size_divides((j + 1) as nat, order as nat);
        }
        size = size * 2;
        j = j + 1;
    }
    size
}

} // verus!

verus! {

proof fn lemma_free_bytes_below_update(lists: Seq<Seq<usize>>, j: int, l: Seq<usize>, n: nat)
    requires
        0 <= j < lists.len(),
        n <= lists.len(),
    ensures
        j < n ==> free_bytes_below(lists.update(j, l), n) + lists[j].len() * block_size(j as nat)
            == free_bytes_below(lists, n) + l.len() * block_size(j as nat),
        j >= n ==> free_bytes_below(lists.update(j, l), n) == free_bytes_below(lists, n),
    decreases n,
{
    if n > 0 {
        lemma_free_bytes_below_update(lists, j, l, (n - 1) as nat);
    }
}

/// Replacing the free list of order `j` changes the free total by the
/// difference of the two lists' block counts, at that order's size.
pub proof fn lemma_free_bytes_update(lists: Seq<Seq<usize>>, j: int, l: Seq<usize>)
    requires
        0 <= j < lists.len(),
    ensures
        free_bytes(lists.update(j, l)) + lists[j].len() * block_size(j as nat)
            == free_bytes(lists) + l.len() * block_size(j as nat),
{
    lemma_free_bytes_below_update(lists, j, l, lists.len());
}

/// Taking one block out of the handed-out record lowers its total by that
/// block's size.
pub proof fn lemma_handed_out_bytes_remove(blocks: Seq<(usize, nat)>, i: int)
    requires
        0 <= i < blocks.len(),
    ensures
        handed_out_bytes(blocks.remove(i)) + block_size(blocks[i].1) == handed_out_bytes(blocks),
    decreases blocks.len(),
{
    if i < blocks.len() - 1 {
        let r = blocks.remove(i);
        assert(r.drop_last() =~= blocks.drop_last().remove(i));
        assert(r.last() == blocks.last());
        lemma_handed_out_bytes_remove(blocks.drop_last(), i);
    } else {
        assert(blocks.remove(i) =~= blocks.drop_last());
    }
}

/// The free lists and the blocks handed out, in one place.
pub struct BuddyAllocator<const ORDERS: usize> {
    /// One free list per order, smallest blocks first.
    free_list: Vec<FreeList>,
    /// Bytes registered with `add_memory` so far.
    registered: Ghost<nat>,
    /// Blocks handed out by `get_memory` and not yet returned, with their
    /// orders.
    handed_out: Ghost<Seq<(usize, nat)>>,
}

impl<const ORDERS: usize> BuddyAllocator<ORDERS> {
    /// The free lists, by order; in each, the block nearest the head last.
    pub closed spec fn lists(&self) -> Seq<Seq<usize>> {
        Seq::new(self.free_list@.len(), |j: int| self.free_list@[j]@)
    }

    /// Total bytes registered.
    pub closed spec fn registered(&self) -> nat {
        self.registered@
    }

    /// The blocks handed out and not yet returned, as (address, order).
    pub closed spec fn handed_out(&self) -> Seq<(usize, nat)> {
        self.handed_out@
    }

    /// The allocator's invariant: well-placed blocks in each order's list and
    /// among those handed out, and every registered byte either free or
    /// handed out.
    pub open spec fn wf(&self) -> bool {
        &&& valid_orders(ORDERS as nat)
        &&& lists_ok(self.lists(), ORDERS as nat)
        &&& handed_out_ok(self.handed_out(), ORDERS as nat)
        &&& free_bytes(self.lists()) + handed_out_bytes(self.handed_out()) == self.registered()
    }

    /// An allocator with no memory yet: every list is empty.
    pub fn new() -> (r: Self)
        requires
            valid_orders(ORDERS as nat),
        ensures
            r.wf(),
            r.lists() == Seq::new(ORDERS as nat, |j: int| Seq::<usize>::empty()),
            r.registered() == 0,
            r.handed_out() == Seq::<(usize, nat)>::empty(),
    {
        let mut free_list: Vec<FreeList> = Vec::new();
        let mut j: usize = 0;
        while j < ORDERS
            invariant
                j <= ORDERS,
                free_list@.len() == j,
                forall|i: int| 0 <= i < j ==> (#[trigger] free_list@[i])@ == Seq::<usize>::empty(),
            decreases ORDERS - j,
        {
            free_list.push(FreeList::new());
            j = j + 1;
        }
        let r = BuddyAllocator { free_list, registered: Ghost(0), handed_out: Ghost(Seq::empty()) };
        proof {
            assert(r.lists() =~= Seq::new(ORDERS as nat, |j: int| Seq::<usize>::empty()));
            assert(free_bytes_below(r.lists(), ORDERS as nat) == 0) by {
                lemma_free_bytes_empty(r.lists(), ORDERS as nat);
            }
        }
        r
    }

    /// Registers the region `[pool_addr, pool_addr + pool_size)`.
    ///
    /// The region is trimmed to whole minimum-size blocks at both ends and
    /// tiled, from its start up, with the largest blocks that are aligned to
    /// their size and fit; each tile goes on top of its order's list. Returns
    /// the number of bytes registered: zero when no whole minimum-size block
    /// fits.
    pub fn add_memory(&mut self, pool_addr: usize, pool_size: usize) -> (r: usize)
        requires
            old(self).wf(),
            pool_addr + pool_size <= usize::MAX,
        ensures
            final(self).wf(),
            ({
                let s = align_up(pool_addr as int);
                let e = align_down(pool_addr + pool_size);
                &&& r == (if s + MIN_BLOCK_SIZE <= e { e - s } else { 0 })
                &&& final(self).lists() == tile_lists(old(self).lists(), s, e)
            }),
            final(self).registered() == old(self).registered() + r,
            final(self).handed_out() == old(self).handed_out(),
    {
        let end: usize = pool_addr + pool_size;
        let e: usize = end - end % MIN_BLOCK_SIZE;
        let pad: usize = if pool_addr % MIN_BLOCK_SIZE == 0 {
            0
        } else {
            MIN_BLOCK_SIZE - pool_addr % MIN_BLOCK_SIZE
        };
        if pad > pool_size || pool_addr + pad > e || e - (pool_addr + pad) < MIN_BLOCK_SIZE {
            proof {
                assert(tile_lists(self.lists(), align_up(pool_addr as int), e as int) == self.lists());
            }
            return 0;
        }
        let mut s: usize = pool_addr + pad;
        let ghost s0: int = s as int;
        let ghost l0 = self.lists();
        let mut added: usize = 0;
        while e - s >= MIN_BLOCK_SIZE
            invariant
                0 <= s0 <= s <= e,
                s % 16 == 0,
                e % 16 == 0,
                added == s - s0,
                valid_orders(ORDERS as nat),
                lists_ok(self.lists(), ORDERS as nat),
                self.handed_out() == old(self).handed_out(),
                self.registered() == old(self).registered(),
                tile_lists(self.lists(), s as int, e as int) == tile_lists(l0, s0, e as int),
                free_bytes(self.lists()) + handed_out_bytes(self.handed_out()) == self.registered() + added,
            decreases e - s,
        {
            let mut j: usize = ORDERS - 1;
            let mut size: usize = order_block_size(ORDERS - 1);
            proof {
                lemma_block_size_next((ORDERS - 1) as nat);
            }
            while j > 0 && !(s % size == 0 && size <= e - s)
                invariant
                    j < ORDERS,
                    s0 <= s <= e,
                    e - s >= MIN_BLOCK_SIZE,
                    s % 16 == 0,
                    added == s - s0,
                    size == block_size(j as nat),
                    size >= MIN_BLOCK_SIZE,
                    tile_order(s as int, e as int, (ORDERS - 1) as nat) == tile_order(s as int, e as int, j as nat),
                decreases j,
            {
                proof {
                    lemma_block_size_next((j - 1) as nat);
                }
                j = j - 1;
                size = size / 2;
            }
            proof {
                lemma_block_size_next(0);
                assert(tile_order(s as int, e as int, j as nat) == j);
            }
            let ghost before = self.lists();
            self.free_list[j].push(s);
            proof {
                let after = before.update(j as int, before[j as int].push(s));
                assert(self.lists() =~= after);
                lemma_free_bytes_update(before, j as int, before[j as int].push(s));
                let b = block_size(j as nat) as int;
                let n = before[j as int].len() as int;
                assert((n + 1) * b == n * b + b) by (nonlinear_arith);
                assert(s + size <= e);
                assert forall|x: int, i: int| 0 <= x < ORDERS && 0 <= i < after[x].len() implies
                    #[trigger] block_ok(after[x][i] as int, x as nat) by {
                    if x != j || i < before[j as int].len() {
                        assert(after[x][i] == before[x][i]);
                    }
                }
            }
            added = added + size;
            s = s + size;
        }
        self.registered = Ghost((self.registered@ + added) as nat);
        added
    }

    /// The order a request of `size` bytes aligned to `align` is served at;
    /// `ORDERS` when no block is large enough.
    fn order_of_request(size: usize, align: usize) -> (r: usize)
        requires
            valid_orders(ORDERS as nat),
        ensures
            r == request_order(size as nat, align as nat, ORDERS as nat),
    {
        let mut j: usize = 0;
        let mut bsz: usize = MIN_BLOCK_SIZE;
        proof {
            lemma_block_size_next(0);
        }
        while j < ORDERS && !(size <= bsz && align <= bsz)
            invariant
                valid_orders(ORDERS as nat),
                j <= ORDERS,
                j < ORDERS ==> bsz == block_size(j as nat),
                request_order(size as nat, align as nat, ORDERS as nat) == fitting_order(
                    size as nat,
                    align as nat,
                    j as nat,
                    ORDERS as nat,
                ),
            decreases ORDERS - j,
        {
            j = j + 1;
            if j < ORDERS {
                proof {
                    lemma_block_size_next((j - 1) as nat);
                    lemma_block_size_divides(j as nat, (ORDERS - 1) as nat);
                }
                bsz = bsz * 2;
            }
        }
        j
    }

    /// Hands out a block for `size` bytes aligned to `align`.
    ///
    /// The block is of the smallest order whose size is at least `size`,
    /// `align` and `MIN_BLOCK_SIZE`. It comes from the first non-empty list
    /// from that order up; a larger block is split in halves down to the
    /// order asked, the upper half of each split going on top of its order's
    /// list. Returns the block's address and size, or `None` when no order is
    /// large enough or every list from that order up is empty; the allocator
    /// is then unchanged.
    pub fn get_memory(&mut self, size: usize, align: usize) -> (r: Option<(usize, usize)>)
        requires
            old(self).wf(),
        ensures
            final(self).wf(),
            final(self).registered() == old(self).registered(),
            ({
                let l = old(self).lists();
                let t = request_order(size as nat, align as nat, ORDERS as nat);
                let k = first_nonempty(l, t);
                if t < ORDERS && k < ORDERS {
                    &&& r == Some((l[k as int].last(), block_size(t) as usize))
                    &&& final(self).lists() == split_lists(l, t, k)
                    &&& final(self).handed_out() == old(self).handed_out().push((l[k as int].last(), t))
                } else {
                    &&& r is None
                    &&& final(self).lists() == l
                    &&& final(self).handed_out() == old(self).handed_out()
                }
            }),
    {
        let t = Self::order_of_request(size, align);
        let ghost l = self.lists();
        if t >= ORDERS {
            proof {
                assert(first_nonempty(l, t as nat) == ORDERS);
            }
            return None;
        }
        let mut k: usize = t;
        while k < ORDERS && self.free_list[k].is_tail()
            invariant
                t <= k <= ORDERS,
                self.lists() == l,
                self.free_list@.len() == ORDERS,
                first_nonempty(l, t as nat) == first_nonempty(l, k as nat),
            decreases ORDERS - k,
        {
            k = k + 1;
        }
        if k == ORDERS {
            return None;
        }
        assert(first_nonempty(l, k as nat) == k);
        let b = match self.free_list[k].pop_next() {
            Some(b) => b,
            None => return None,
        };
        proof {
            assert(l[k as int][l[k as int].len() - 1] == b);
            assert(self.lists() =~= split_lists(l, k as nat, k as nat));
            assert(self.lists() =~= l.update(k as int, l[k as int].drop_last()));
            lemma_free_bytes_update(l, k as int, l[k as int].drop_last());
            let c = block_size(k as nat) as int;
            let n = l[k as int].len() as int;
            assert((n - 1) * c + c == n * c) by (nonlinear_arith);
            assert(block_ok(b as int, k as nat));
        }
        let mut j: usize = k;
        let mut bsz: usize = order_block_size(k);
        while j > t
            invariant
                valid_orders(ORDERS as nat),
                t <= j <= k < ORDERS,
                l.len() == ORDERS,
                l[k as int].len() > 0,
                l[k as int].last() == b,
                lists_ok(l, ORDERS as nat),
                bsz == block_size(j as nat),
                block_ok(b as int, k as nat),
                self.lists() == split_lists(l, j as nat, k as nat),
                free_bytes(self.lists()) + block_size(j as nat) == free_bytes(l),
                self.handed_out() == old(self).handed_out(),
                self.registered() == old(self).registered(),
                l == old(self).lists(),
            decreases j,
        {
            let ghost before = self.lists();
            proof {
                lemma_block_size_next((j - 1) as nat);
                lemma_aligned_smaller(b as int, (j - 1) as nat, k as nat);
                lemma_block_size_divides(j as nat, k as nat);
                lemma_halves(b as int, block_size((j - 1) as nat) as int);
            }
            j = j - 1;
            bsz = bsz / 2;
            self.free_list[j].push(b + bsz);
            proof {
                let pushed = before[j as int].push((b + bsz) as usize);
                assert(self.lists() =~= before.update(j as int, pushed));
                assert(self.lists() =~= split_lists(l, j as nat, k as nat));
                lemma_free_bytes_update(before, j as int, pushed);
                let c = block_size(j as nat) as int;
                let n = before[j as int].len() as int;
                assert((n + 1) * c == n * c + c) by (nonlinear_arith);
            }
        }
        proof {
            lemma_aligned_smaller(b as int, t as nat, k as nat);
            lemma_block_size_divides(t as nat, k as nat);
            let h = self.handed_out@.push((b, t as nat));
            assert(h.drop_last() =~= self.handed_out@);
            let nl = self.lists();
            assert forall|x: int, i: int| 0 <= x < ORDERS && 0 <= i < nl[x].len() implies
                #[trigger] block_ok(nl[x][i] as int, x as nat) by {
                if x == k {
                    assert(nl[x][i] == l[x][i]);
                } else if t <= x < k {
                    if i < l[x].len() {
                        assert(nl[x][i] == l[x][i]);
                    } else {
                        lemma_block_size_next(x as nat);
                        lemma_aligned_smaller(b as int, (x + 1) as nat, k as nat);
                        lemma_block_size_divides((x + 1) as nat, k as nat);
                        lemma_aligned_smaller(b as int, x as nat, k as nat);
                        lemma_halves(b as int, block_size(x as nat) as int);
                    }
                }
            }
        }
        self.handed_out = Ghost(self.handed_out@.push((b, t as nat)));
        Some((b, bsz))
    }

    /// Takes back the block at `addr` that `get_memory` handed out for
    /// `size` bytes aligned to `align`.
    ///
    /// While the block's buddy is free and the block is below the top order,
    /// the buddy leaves its list and the two merge into the block of the next
    /// order at the lower address; the merged block goes on top of its
    /// order's list.
    pub fn return_memory(&mut self, addr: usize, size: usize, align: usize)
        requires
            old(self).wf(),
            old(self).handed_out().contains((addr, request_order(size as nat, align as nat, ORDERS as nat))),
        ensures
            final(self).wf(),
            final(self).registered() == old(self).registered(),
            ({
                let t = request_order(size as nat, align as nat, ORDERS as nat);
                let h = old(self).handed_out();
                &&& final(self).lists() == merge_lists(old(self).lists(), addr, t)
                &&& final(self).handed_out() == h.remove(h.index_of((addr, t)))
            }),
    {
        let t = Self::order_of_request(size, align);
        let ghost l = self.lists();
        let ghost h = self.handed_out@;
        let ghost at = h.index_of((addr, t as nat));
        proof {
            assert(h[at] == (addr, t as nat));
            assert(block_ok(addr as int, t as nat));
        }
        let mut idx: usize = t;
        let mut block: usize = addr;
        let mut bsz: usize = order_block_size(t);
        let mut merging: bool = true;
        while merging && idx + 1 < ORDERS
            invariant
                valid_orders(ORDERS as nat),
                t <= idx < ORDERS,
                self.free_list@.len() == ORDERS,
                bsz == block_size(idx as nat),
                block_ok(block as int, idx as nat),
                lists_ok(self.lists(), ORDERS as nat),
                merge_lists(self.lists(), block, idx as nat) == merge_lists(l, addr, t as nat),
                free_bytes(self.lists()) + block_size(idx as nat) == free_bytes(l) + block_size(t as nat),
                !merging ==> !self.lists()[idx as int].contains(buddy(block as int, idx as nat) as usize),
                self.handed_out() == old(self).handed_out(),
                self.registered() == old(self).registered(),
            decreases ORDERS - idx, if merging { 1int } else { 0int },
        {
            proof {
                lemma_block_size_next(idx as nat);
                lemma_block_size_divides((idx + 1) as nat, (ORDERS - 1) as nat);
                lemma_halves(block as int, bsz as int);
            }
            let buddy_addr: usize = if block % (2 * bsz) == 0 {
                block + bsz
            } else {
                block - bsz
            };
            assert(buddy_addr == buddy(block as int, idx as nat));
            match self.free_list[idx].find(buddy_addr) {
                Some(i) => {
                    let ghost before = self.lists();
                    proof {
                        lemma_nearest_index(before[idx as int], buddy_addr, i as int);
                        assert(before[idx as int].contains(buddy_addr));
                        assert(block_ok(buddy_addr as int, idx as nat));
                    }
                    self.free_list[idx].pop(i);
                    proof {
                        let removed = before[idx as int].remove(i as int);
                        assert(self.lists() =~= before.update(idx as int, removed));
                        lemma_free_bytes_update(before, idx as int, removed);
                        let c = block_size(idx as nat) as int;
                        let n = before[idx as int].len() as int;
                        assert((n - 1) * c + c == n * c) by (nonlinear_arith);
                        assert forall|x: int, m: int| 0 <= x < ORDERS && 0 <= m < self.lists()[x].len() implies
                            #[trigger] block_ok(self.lists()[x][m] as int, x as nat) by {
                            if x == idx {
                                if m < i {
                                    assert(self.lists()[x][m] == before[x][m]);
                                } else {
                                    assert(self.lists()[x][m] == before[x][m + 1]);
                                }
                            } else {
                                assert(self.lists()[x][m] == before[x][m]);
                            }
                        }
                    }
                    if buddy_addr < block {
                        block = buddy_addr;
                    }
                    idx = idx + 1;
                    bsz = bsz * 2;
                },
                None => {
                    merging = false;
                },
            }
        }
        let ghost before = self.lists();
        self.free_list[idx].push(block);
        proof {
            let pushed = before[idx as int].push(block);
            assert(self.lists() =~= before.update(idx as int, pushed));
            lemma_free_bytes_update(before, idx as int, pushed);
            let c = block_size(idx as nat) as int;
            let n = before[idx as int].len() as int;
            assert((n + 1) * c == n * c + c) by (nonlinear_arith);
            assert forall|x: int, m: int| 0 <= x < ORDERS && 0 <= m < self.lists()[x].len() implies
                #[trigger] block_ok(self.lists()[x][m] as int, x as nat) by {
                if x != idx || m < before[idx as int].len() {
                    assert(self.lists()[x][m] == before[x][m]);
                }
            }
            lemma_handed_out_bytes_remove(h, at);
            let nh = h.remove(at);
            assert forall|m: int|
                #![trigger nh[m]]
                0 <= m < nh.len() implies nh[m].1 < ORDERS && block_ok(nh[m].0 as int, nh[m].1) by {
                if m < at {
                    assert(nh[m] == h[m]);
                } else {
                    assert(nh[m] == h[m + 1]);
                }
            }
        }
        self.handed_out = Ghost(h.remove(at));
    }

    /// The addresses of the free blocks of order `order`, in the order a
    /// walk from the list's head meets them.
    pub fn free_blocks(&self, order: usize) -> (r: Vec<usize>)
        requires
            self.wf(),
            order < ORDERS,
        ensures
            r@ == self.lists()[order as int].reverse(),
    {
        self.free_list[order].addresses()
    }

    /// Size in bytes of the largest block.
    pub fn get_max_block_size(&self) -> (r: usize)
        requires
            self.wf(),
        ensures
            r == block_size((ORDERS - 1) as nat),
    {
        order_block_size(ORDERS - 1)
    }
}

proof fn lemma_free_bytes_empty(lists: Seq<Seq<usize>>, n: nat)
    requires
        n <= lists.len(),
        forall|j: int| 0 <= j < n ==> (#[trigger] lists[j]).len() == 0,
    ensures
        free_bytes_below(lists, n) == 0,
    decreases n,
{
    if n > 0 {
        lemma_free_bytes_empty(lists, (n - 1) as nat);
    }
}

} // verus!
