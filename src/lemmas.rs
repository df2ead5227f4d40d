//! What holds of the allocator across calls, proved from the contracts of
//! its operations.
use vstd::prelude::*;

use crate::buddy::{
    block_ok, buddy, first_nonempty, free_bytes, free_bytes_below, handed_out_bytes, lists_ok, merge_lists,
    request_order, split_lists, valid_orders, BuddyAllocator,
};
use crate::buddy_tree::{
    apart, lemma_all_returned, lemma_buddy_not_free, lemma_merge_model, lemma_no_overlap, lemma_one_block_model,
    lemma_split_model, tree_model, BuddyTree,
};
use crate::free_list::lemma_nearest_index;
use crate::sizes::{block_size, lemma_aligned_smaller, lemma_block_size_divides, lemma_block_size_next};

verus! {

/// Conservation: after any sequence of registrations, allocations and
/// releases, the free blocks and the blocks handed out together account for
/// exactly the bytes registered.
pub proof fn lemma_conservation<const N: usize>(a: &BuddyAllocator<N>)
    requires
        a.wf(),
    ensures
        free_bytes(a.lists()) + handed_out_bytes(a.handed_out()) == a.registered(),
{
}

/// Alignment: every address in the free list of order `j` is a multiple of
/// that order's block size.
pub proof fn lemma_free_blocks_aligned<const N: usize>(a: &BuddyAllocator<N>)
    requires
        a.wf(),
    ensures
        forall|j: int, i: int|
            0 <= j < N && 0 <= i < a.lists()[j].len() ==> (#[trigger] a.lists()[j][i]) as int % (block_size(
                j as nat,
            ) as int) == 0,
{
    assert forall|j: int, i: int| 0 <= j < N && 0 <= i < a.lists()[j].len() implies (
    #[trigger] a.lists()[j][i]) as int % (block_size(j as nat) as int) == 0 by {
        assert(block_ok(a.lists()[j][i] as int, j as nat));
    }
}

pub proof fn lemma_below_first_nonempty(lists: Seq<Seq<usize>>, t: nat, j: nat)
    requires
        t <= j < first_nonempty(lists, t),
    ensures
        lists[j as int].len() == 0,
    decreases j - t,
{
    if t < j {
        assert(lists[t as int].len() == 0);
        lemma_below_first_nonempty(lists, t + 1, j);
    }
}

pub proof fn lemma_first_nonempty_found(lists: Seq<Seq<usize>>, t: nat)
    ensures
        t <= lists.len() ==> t <= first_nonempty(lists, t) <= lists.len(),
        first_nonempty(lists, t) < lists.len() ==> lists[first_nonempty(lists, t) as int].len() > 0,
    decreases lists.len() - t,
{
    if t < lists.len() && lists[t as int].len() == 0 {
        lemma_first_nonempty_found(lists, t + 1);
    }
}

proof fn lemma_merge_undoes_split(lists: Seq<Seq<usize>>, n: nat, t: nat, j: nat, k: nat)
    requires
        lists_ok(lists, n),
        t <= j <= k < n,
        lists[k as int].len() > 0,
        forall|x: nat| t <= x < k ==> (#[trigger] lists[x as int]).len() == 0,
        k + 1 == n || !lists[k as int].drop_last().contains(buddy(lists[k as int].last() as int, k) as usize),
    ensures
        merge_lists(split_lists(lists, j, k), lists[k as int].last(), j) == lists,
    decreases k - j,
{
    let b = lists[k as int].last();
    let s = split_lists(lists, j, k);
    assert(block_ok(lists[k as int][lists[k as int].len() - 1] as int, k));
    if j == k {
        assert(s[k as int] == lists[k as int].drop_last());
        assert(s[k as int].push(b) =~= lists[k as int]);
        assert(s.update(k as int, s[k as int].push(b)) =~= lists);
    } else {
        lemma_block_size_next(j);
        lemma_aligned_smaller(b as int, j + 1, k);
        lemma_block_size_divides(j + 1, k);
        let up = (b + block_size(j)) as usize;
        assert(buddy(b as int, j) == b + block_size(j));
        assert(lists[j as int].len() == 0);
        assert(s[j as int] =~= seq![up]);
        assert(s[j as int].contains(up)) by {
            assert(s[j as int][0] == up);
        }
        lemma_nearest_index(s[j as int], up, 0);
        let rest = s.update(j as int, s[j as int].remove(0));
        assert(s[j as int].remove(0) =~= lists[j as int]);
        assert(rest =~= split_lists(lists, j + 1, k));
        lemma_merge_undoes_split(lists, n, t, j + 1, k);
    }
}

/// Round trip: handing out a block and at once taking it back with the same
/// size and alignment leaves the free lists as they were, unless the block
/// split for the request has its own buddy free, in which case releasing
/// merges further than the split went.
pub proof fn lemma_round_trip(lists: Seq<Seq<usize>>, n: nat, size: nat, align: nat)
    requires
        valid_orders(n),
        lists_ok(lists, n),
        request_order(size, align, n) < n,
        first_nonempty(lists, request_order(size, align, n)) < n,
        ({
            let k = first_nonempty(lists, request_order(size, align, n));
            k + 1 == n || !lists[k as int].drop_last().contains(buddy(lists[k as int].last() as int, k) as usize)
        }),
    ensures
        ({
            let t = request_order(size, align, n);
            let k = first_nonempty(lists, t);
            merge_lists(split_lists(lists, t, k), lists[k as int].last(), t) == lists
        }),
{
    let t = request_order(size, align, n);
    let k = first_nonempty(lists, t);
    lemma_first_nonempty_found(lists, t);
    assert forall|x: nat| t <= x < k implies (#[trigger] lists[x as int]).len() == 0 by {
        lemma_below_first_nonempty(lists, t, x);
    }
    lemma_merge_undoes_split(lists, n, t, t, k);
}

proof fn lemma_no_free_bytes(lists: Seq<Seq<usize>>, n: nat)
    requires
        n <= lists.len(),
        free_bytes_below(lists, n) == 0,
    ensures
        forall|j: int| 0 <= j < n ==> (#[trigger] lists[j]).len() == 0,
    decreases n,
{
    if n > 0 {
        let c = block_size((n - 1) as nat) as int;
        let m = lists[n - 1].len() as int;
        lemma_block_size_next((n - 1) as nat);
        assert(m * c >= 0) by (nonlinear_arith)
            requires
                m >= 0,
                c > 0,
        ;
        assert(m == 0) by (nonlinear_arith)
            requires
                m * c == 0,
                m >= 0,
                c > 0,
        ;
        lemma_no_free_bytes(lists, (n - 1) as nat);
    }
}

proof fn lemma_all_empty_first_nonempty(lists: Seq<Seq<usize>>, t: nat)
    requires
        forall|j: int| 0 <= j < lists.len() ==> (#[trigger] lists[j]).len() == 0,
    ensures
        first_nonempty(lists, t) == lists.len() || t > lists.len(),
    decreases lists.len() - t,
{
    if t < lists.len() {
        lemma_all_empty_first_nonempty(lists, t + 1);
    }
}

/// Exhaustion: once blocks totalling every registered byte are handed out,
/// every list is empty, so no request of any order finds a block.
pub proof fn lemma_exhaustion<const N: usize>(a: &BuddyAllocator<N>, t: nat)
    requires
        a.wf(),
        handed_out_bytes(a.handed_out()) == a.registered(),
        t <= N,
    ensures
        forall|j: int| 0 <= j < N ==> (#[trigger] a.lists()[j]).len() == 0,
        first_nonempty(a.lists(), t) == N,
{
    lemma_no_free_bytes(a.lists(), N as nat);
    lemma_all_empty_first_nonempty(a.lists(), t);
}

/// A call on the allocator: `get_memory(size, align)` or
/// `return_memory(addr, size, align)`.
pub enum Call {
    Get(usize, usize),
    Put(usize, usize, usize),
}

/// The free lists and the blocks handed out after `call`, as the contracts
/// of `get_memory` and `return_memory` state them.
pub open spec fn after_call(lists: Seq<Seq<usize>>, handed: Seq<(usize, nat)>, call: Call) -> (Seq<Seq<usize>>, Seq<(usize, nat)>) {
    let n = lists.len();
    match call {
        Call::Get(size, align) => {
            let t = request_order(size as nat, align as nat, n);
            let k = first_nonempty(lists, t);
            if t < n && k < n {
                (split_lists(lists, t, k), handed.push((lists[k as int].last(), t)))
            } else {
                (lists, handed)
            }
        },
        Call::Put(addr, size, align) => {
            let t = request_order(size as nat, align as nat, n);
            (merge_lists(lists, addr, t), handed.remove(handed.index_of((addr, t))))
        },
    }
}

/// A call is allowed when it takes back only a block handed out and not yet
/// taken back, with the size and alignment it was asked for.
pub open spec fn call_allowed(lists: Seq<Seq<usize>>, handed: Seq<(usize, nat)>, call: Call) -> bool {
    match call {
        Call::Get(_, _) => true,
        Call::Put(addr, size, align) => handed.contains((addr, request_order(size as nat, align as nat, lists.len()))),
    }
}

/// The free lists and the blocks handed out after `calls`, in order.
pub open spec fn after_calls(lists: Seq<Seq<usize>>, handed: Seq<(usize, nat)>, calls: Seq<Call>) -> (Seq<Seq<usize>>, Seq<(usize, nat)>)
    decreases calls.len(),
{
    if calls.len() == 0 {
        (lists, handed)
    } else {
        let before = after_calls(lists, handed, calls.drop_last());
        after_call(before.0, before.1, calls.last())
    }
}

/// Every call of `calls` is allowed where it comes.
pub open spec fn calls_allowed(lists: Seq<Seq<usize>>, handed: Seq<(usize, nat)>, calls: Seq<Call>) -> bool
    decreases calls.len(),
{
    if calls.len() == 0 {
        true
    } else {
        let before = after_calls(lists, handed, calls.drop_last());
        calls_allowed(lists, handed, calls.drop_last()) && call_allowed(before.0, before.1, calls.last())
    }
}

proof fn lemma_calls_keep_tree(lists: Seq<Seq<usize>>, root: usize, calls: Seq<Call>) -> (t: BuddyTree)
    requires
        lists.len() >= 1,
        lists[lists.len() - 1] == seq![root],
        forall|m: int| 0 <= m < lists.len() - 1 ==> (#[trigger] lists[m]).len() == 0,
        block_ok(root as int, (lists.len() - 1) as nat),
        calls_allowed(lists, Seq::empty(), calls),
    ensures
        ({
            let after = after_calls(lists, Seq::empty(), calls);
            &&& tree_model(after.0, after.1, root as int, t)
            &&& after.0.len() == lists.len()
        }),
    decreases calls.len(),
{
    if calls.len() == 0 {
        lemma_one_block_model(lists, root);
        BuddyTree::Free
    } else {
        let t0 = lemma_calls_keep_tree(lists, root, calls.drop_last());
        let before = after_calls(lists, Seq::empty(), calls.drop_last());
        let n = lists.len();
        match calls.last() {
            Call::Get(size, align) => {
                let t = request_order(size as nat, align as nat, n);
                let k = first_nonempty(before.0, t);
                if t < n && k < n {
                    lemma_split_model(before.0, before.1, root as int, t0, t)
                } else {
                    t0
                }
            },
            Call::Put(addr, size, align) => {
                let t = request_order(size as nat, align as nat, n);
                lemma_merge_model(before.0, before.1, root as int, t0, addr, t)
            },
        }
    }
}

/// Coalescing: start from one free block of the largest size and nothing
/// else; after any calls that hand out blocks and take them back (each
/// block taken back was handed out, with the same size and alignment, and
/// not yet taken back), once nothing is handed out the free lists hold that
/// one block again, whatever the order of the releases.
pub proof fn lemma_coalescing(lists: Seq<Seq<usize>>, root: usize, calls: Seq<Call>)
    requires
        lists.len() >= 1,
        lists[lists.len() - 1] == seq![root],
        forall|m: int| 0 <= m < lists.len() - 1 ==> (#[trigger] lists[m]).len() == 0,
        block_ok(root as int, (lists.len() - 1) as nat),
        calls_allowed(lists, Seq::empty(), calls),
        after_calls(lists, Seq::empty(), calls).1.len() == 0,
    ensures
        after_calls(lists, Seq::empty(), calls).0 == lists,
{
    let t = lemma_calls_keep_tree(lists, root, calls);
    let after = after_calls(lists, Seq::empty(), calls);
    assert(after.1 =~= Seq::<(usize, nat)>::empty());
    lemma_all_returned(after.0, root as int, t);
    assert forall|m: int| 0 <= m < lists.len() implies #[trigger] after.0[m] == lists[m] by {
        if m < lists.len() - 1 {
            assert(after.0[m] =~= lists[m]);
        }
    }
    assert(after.0 =~= lists);
}

/// No overlap: start from one free block of the largest size; after any
/// allowed calls, the blocks handed out share no byte with one another nor
/// with any free block.
pub proof fn lemma_no_overlap_after_calls(lists: Seq<Seq<usize>>, root: usize, calls: Seq<Call>)
    requires
        lists.len() >= 1,
        lists[lists.len() - 1] == seq![root],
        forall|m: int| 0 <= m < lists.len() - 1 ==> (#[trigger] lists[m]).len() == 0,
        block_ok(root as int, (lists.len() - 1) as nat),
        calls_allowed(lists, Seq::empty(), calls),
    ensures
        ({
            let (free, handed) = after_calls(lists, Seq::empty(), calls);
            &&& forall|i: int, j: int|
                0 <= i < j < handed.len() ==> apart(
                    handed[i].0 as int,
                    handed[i].1,
                    handed[j].0 as int,
                    handed[j].1,
                )
            &&& forall|i: int, o: int, q: int|
                #![trigger handed[i], free[o][q]]
                0 <= i < handed.len() && 0 <= o < free.len() && 0 <= q < free[o].len() ==> apart(
                    handed[i].0 as int,
                    handed[i].1,
                    free[o][q] as int,
                    o as nat,
                )
        }),
{
    let t = lemma_calls_keep_tree(lists, root, calls);
    let after = after_calls(lists, Seq::empty(), calls);
    lemma_no_overlap(after.0, after.1, root as int, t);
}

/// Round trip, without exception once the allocator grew from one block of
/// the largest size: after any allowed calls, handing out a block and at once
/// taking it back leaves the free lists as they were.
pub proof fn lemma_round_trip_after_calls(lists: Seq<Seq<usize>>, root: usize, calls: Seq<Call>, size: nat, align: nat)
    requires
        lists.len() >= 1,
        lists[lists.len() - 1] == seq![root],
        forall|m: int| 0 <= m < lists.len() - 1 ==> (#[trigger] lists[m]).len() == 0,
        block_ok(root as int, (lists.len() - 1) as nat),
        calls_allowed(lists, Seq::empty(), calls),
        request_order(size, align, lists.len()) < lists.len(),
        first_nonempty(after_calls(lists, Seq::empty(), calls).0, request_order(size, align, lists.len()))
            < lists.len(),
    ensures
        ({
            let free = after_calls(lists, Seq::empty(), calls).0;
            let t = request_order(size, align, lists.len());
            let k = first_nonempty(free, t);
            merge_lists(split_lists(free, t, k), free[k as int].last(), t) == free
        }),
{
    let tr = lemma_calls_keep_tree(lists, root, calls);
    let after = after_calls(lists, Seq::empty(), calls);
    let n = lists.len();
    let t = request_order(size, align, n);
    let k = first_nonempty(after.0, t);
    lemma_first_nonempty_found(after.0, t);
    crate::buddy_tree::lemma_model_lists_ok(after.0, after.1, root as int, tr);
    if k + 1 < n {
        lemma_buddy_not_free(after.0, after.1, root as int, tr, k);
    }
    lemma_round_trip(after.0, n, size, align);
}

} // verus!
