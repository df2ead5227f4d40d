//! The free list of one order: the addresses of the free blocks of that size.
use vstd::prelude::*;

verus! {

/// A free list, rooted at an implicit head.
///
/// Its view lists the free block addresses in the order they were pushed:
/// the last element is the one right after the head, and the next to come
/// off with `pop_next`.
pub struct FreeList {
    blocks: Vec<usize>,
}

impl View for FreeList {
    type V = Seq<usize>;

    closed spec fn view(&self) -> Seq<usize> {
        self.blocks@
    }
}

/// Whether `i` is the position of `addr` nearest the head of the list `s`.
pub open spec fn is_nearest_index(s: Seq<usize>, addr: usize, i: int) -> bool {
    &&& 0 <= i < s.len()
    &&& s[i] == addr
    &&& forall|k: int| i < k < s.len() ==> s[k] != addr
}

/// The position of `addr` nearest the head of the list `s`.
pub open spec fn nearest_index(s: Seq<usize>, addr: usize) -> int {
    choose|i: int| is_nearest_index(s, addr, i)
}

/// There is exactly one nearest position of an address that the list holds.
pub proof fn lemma_nearest_index(s: Seq<usize>, addr: usize, i: int)
    requires
        is_nearest_index(s, addr, i),
    ensures
        nearest_index(s, addr) == i,
{
    let j = nearest_index(s, addr);
    assert(is_nearest_index(s, addr, j));
    if j < i {
        assert(s[i] != addr);
    } else if i < j {
        assert(s[j] != addr);
    }
}

/// When a list holds `addr`, it has a nearest position of it.
pub proof fn lemma_nearest_index_exists(s: Seq<usize>, addr: usize)
    requires
        s.contains(addr),
    ensures
        is_nearest_index(s, addr, nearest_index(s, addr)),
    decreases s.len(),
{
    if s.last() == addr {
        assert(is_nearest_index(s, addr, s.len() - 1));
    } else {
        let t = s.drop_last();
        let w = choose|w: int| 0 <= w < s.len() && s[w] == addr;
        assert(t[w] == addr);
        lemma_nearest_index_exists(t, addr);
        let i = nearest_index(t, addr);
        assert forall|k: int| i < k < s.len() implies s[k] != addr by {
            if k < t.len() {
                assert(t[k] == s[k]);
            }
        }
        assert(is_nearest_index(s, addr, i));
    }
}

impl FreeList {
    /// An empty list: a head with nothing after it.
    pub fn new() -> (l: Self)
        ensures
            l@ == Seq::<usize>::empty(),
    {
        FreeList { blocks: Vec::new() }
    }

    /// Inserts `addr` right after the head.
    pub fn push(&mut self, addr: usize)
        ensures
            final(self)@ == old(self)@.push(addr),
    {
        self.blocks.push(addr);
    }

    /// Removes and returns the block right after the head, if any.
    pub fn pop_next(&mut self) -> (r: Option<usize>)
        ensures
            old(self)@.len() == 0 ==> r is None && final(self)@ == old(self)@,
            old(self)@.len() > 0 ==> r == Some(old(self)@.last()) && final(self)@ == old(self)@.drop_last(),
    {
        self.blocks.pop()
    }

    /// Removes the block at position `index` wherever it stands in the list.
    pub fn pop(&mut self, index: usize) -> (r: usize)
        requires
            index < old(self)@.len(),
        ensures
            r == old(self)@[index as int],
            final(self)@ == old(self)@.remove(index as int),
    {
        self.blocks.remove(index)
    }

    /// Whether nothing follows the head.
    pub fn is_tail(&self) -> (r: bool)
        ensures
            r == (self@.len() == 0),
    {
        self.blocks.len() == 0
    }

    /// Number of blocks in the list.
    pub fn len(&self) -> (r: usize)
        ensures
            r == self@.len(),
    {
        self.blocks.len()
    }

    /// The address at position `index`.
    pub fn get(&self, index: usize) -> (r: usize)
        requires
            index < self@.len(),
        ensures
            r == self@[index as int],
    {
        self.blocks[index]
    }

    /// Walks the list from the head and returns the position of the first
    /// block at `addr`.
    pub fn find(&self, addr: usize) -> (r: Option<usize>)
        ensures
            match r {
                Some(i) => is_nearest_index(self@, addr, i as int),
                None => !self@.contains(addr),
            },
    {
        let mut i: usize = self.blocks.len();
        while i > 0
            invariant
                i <= self@.len(),
                forall|k: int| i <= k < self@.len() ==> self@[k] != addr,
            decreases i,
        {
            i = i - 1;
            if self.blocks[i] == addr {
                return Some(i);
            }
        }
        None
    }

    /// The addresses in the list, nearest to the head first.
    pub fn addresses(&self) -> (r: Vec<usize>)
        ensures
            r@ == self@.reverse(),
    {
        let mut r: Vec<usize> = Vec::new();
        let mut i: usize = self.blocks.len();
        while i > 0
            invariant
                i <= self@.len(),
                r@ == self@.subrange(i as int, self@.len() as int).reverse(),
            decreases i,
        {
            i = i - 1;
            r.push(self.blocks[i]);
            assert(r@ =~= self@.subrange(i as int, self@.len() as int).reverse());
        }
        assert(self@.subrange(0, self@.len() as int) =~= self@);
        r
    }
}

} // verus!
