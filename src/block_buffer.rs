//! A buffer that cuts a byte stream, fed in pieces of any size, into blocks
//! of a fixed size.
use vstd::prelude::*;

verus! {

/// The blocks of `size` bytes that `data` starts with, as many as fit.
pub open spec fn whole_blocks(data: Seq<u8>, size: nat) -> Seq<Seq<u8>> {
    Seq::new(data.len() / size, |i: int| data.subrange(i * size, i * size + size))
}

/// What follows the whole blocks of `size` bytes in `data`.
pub open spec fn block_tail(data: Seq<u8>, size: nat) -> Seq<u8> {
    data.subrange(((data.len() / size) * size) as int, data.len() as int)
}

/// The view of a list of byte vectors.
pub open spec fn views(v: Seq<Vec<u8>>) -> Seq<Seq<u8>> {
    Seq::new(v.len(), |i: int| v[i]@)
}

pub proof fn lemma_blocks_after_prefix(stream: Seq<u8>, size: nat, h: int, rest: Seq<u8>)
    requires
        size > 0,
        0 <= h,
        h * size <= stream.len(),
        rest == stream.subrange(h * size, stream.len() as int),
    ensures
        whole_blocks(stream, size) == whole_blocks(stream, size).subrange(0, h) + whole_blocks(rest, size),
        block_tail(stream, size) == block_tail(rest, size),
        block_tail(rest, size).len() < size,
{
    let n = stream.len() as int;
    let s = size as int;
    let q = rest.len() as int / s;
    vstd::arithmetic::div_mod::lemma_fundamental_div_mod(rest.len() as int, s);
    vstd::arithmetic::div_mod::lemma_mod_bound(rest.len() as int, s);
    assert(n == (h + q) * s + rest.len() as int % s) by (nonlinear_arith)
        requires
            rest.len() == n - h * s,
            rest.len() as int == s * q + rest.len() as int % s,
    ;
    vstd::arithmetic::div_mod::lemma_fundamental_div_mod_converse(n, s, h + q, rest.len() as int % s);
    assert(q * s >= 0) by (nonlinear_arith)
        requires
            q >= 0,
            s > 0,
    ;
    let w = whole_blocks(stream, size);
    let wr = whole_blocks(rest, size);
    assert forall|i: int| 0 <= i < q implies #[trigger] wr[i] == w[h + i] by {
        assert((h + i) * s == h * s + i * s) by (nonlinear_arith);
        assert(0 <= i * s) by (nonlinear_arith)
            requires
                i >= 0,
                s > 0,
        ;
        assert(i * s + s <= q * s) by (nonlinear_arith)
            requires
                i < q,
                s > 0,
        ;
        assert(wr[i] =~= w[h + i]);
    }
    assert(w =~= w.subrange(0, h) + wr);
    assert((h + q) * s == h * s + q * s) by (nonlinear_arith);
    assert(block_tail(stream, size) =~= block_tail(rest, size));
}

/// The bytes `data[from..to]`, copied.
fn copy_range(data: &[u8], from: usize, to: usize) -> (r: Vec<u8>)
    requires
        from <= to <= data@.len(),
    ensures
        r@ == data@.subrange(from as int, to as int),
{
    let mut r: Vec<u8> = Vec::new();
    let mut i: usize = from;
    while i < to
        invariant
            from <= i <= to <= data@.len(),
            r@ == data@.subrange(from as int, i as int),
        decreases to - i,
    {
        r.push(data[i]);
        i = i + 1;
        assert(r@ =~= data@.subrange(from as int, i as int));
    }
    r
}

/// Types that work on blocks of a fixed size.
pub trait BlockUser {
    /// Block size in bytes.
    const BLOCK_SIZE: usize;

    /// Splits `data` into the whole blocks it starts with and what is left.
    fn split_blocks(data: &[u8]) -> (r: (Vec<Vec<u8>>, Vec<u8>))
        requires
            Self::BLOCK_SIZE > 0,
        ensures
            views(r.0@) == whole_blocks(data@, Self::BLOCK_SIZE as nat),
            r.1@ == block_tail(data@, Self::BLOCK_SIZE as nat),
    {
        let size = Self::BLOCK_SIZE;
        let mut blocks: Vec<Vec<u8>> = Vec::new();
        let mut off: usize = 0;
        assert(0 * size == 0) by (nonlinear_arith);
        while data.len() - off >= size
            invariant
                size == Self::BLOCK_SIZE,
                size > 0,
                off <= data@.len(),
                off == blocks@.len() * size,
                forall|i: int|
                    0 <= i < blocks@.len() ==> (#[trigger] blocks@[i])@ == data@.subrange(i * size, i * size + size),
            decreases data@.len() - off,
        {
            let block = copy_range(data, off, off + size);
            blocks.push(block);
            proof {
                let n = blocks@.len() - 1;
                assert((n + 1) * size == n * size + size) by (nonlinear_arith);
            }
            off = off + size;
        }
        let tail = copy_range(data, off, data.len());
        proof {
            let n = blocks@.len() as int;
            let len = data@.len() as int;
            let s = size as int;
            assert(n * s <= len < n * s + s);
            vstd::arithmetic::div_mod::lemma_fundamental_div_mod_converse(len, s, n, len - n * s);
            assert(views(blocks@) =~= whole_blocks(data@, size as nat));
        }
        (blocks, tail)
    }
}

/// A buffer for a stream of bytes cut into blocks of `BLOCK_SIZE` bytes: it
/// holds the start of the next block until the block is whole.
pub struct BlockBuffer<const BLOCK_SIZE: usize> {
    /// The bytes of the incomplete block, followed by zeros.
    buf: Vec<u8>,
    /// Number of bytes of the incomplete block.
    pos: usize,
}

impl<const BLOCK_SIZE: usize> BlockUser for BlockBuffer<BLOCK_SIZE> {
    const BLOCK_SIZE: usize = BLOCK_SIZE;
}

impl<const BLOCK_SIZE: usize> Default for BlockBuffer<BLOCK_SIZE> {
    /// An empty buffer (of no use when `BLOCK_SIZE` is zero).
    fn default() -> (r: Self)
        ensures
            BLOCK_SIZE > 0 ==> r.wf() && r.pending() == Seq::<u8>::empty(),
    {
        if BLOCK_SIZE > 0 {
            Self::new()
        } else {
            BlockBuffer { buf: Vec::new(), pos: 0 }
        }
    }
}

impl<const BLOCK_SIZE: usize> BlockBuffer<BLOCK_SIZE> {
    /// The bytes held: the start of the next block.
    pub closed spec fn pending(&self) -> Seq<u8> {
        self.buf@.subrange(0, self.pos as int)
    }

    /// The whole buffer, the held bytes followed by zeros.
    pub closed spec fn contents(&self) -> Seq<u8> {
        self.buf@
    }

    /// The buffer is one block long, holds less than a block, and is zero
    /// past the bytes it holds.
    pub closed spec fn wf(&self) -> bool {
        &&& BLOCK_SIZE > 0
        &&& self.buf@.len() == BLOCK_SIZE
        &&& self.pos < BLOCK_SIZE
        &&& forall|i: int| self.pos <= i < BLOCK_SIZE ==> self.buf@[i] == 0
    }

    /// An empty buffer.
    pub fn new() -> (r: Self)
        requires
            BLOCK_SIZE > 0,
        ensures
            r.wf(),
            r.pending() == Seq::<u8>::empty(),
            r.contents() == Seq::new(BLOCK_SIZE as nat, |i: int| 0u8),
    {
        let mut buf: Vec<u8> = Vec::new();
        let mut i: usize = 0;
        while i < BLOCK_SIZE
            invariant
                i <= BLOCK_SIZE,
                buf@ == Seq::new(i as nat, |k: int| 0u8),
            decreases BLOCK_SIZE - i,
        {
            buf.push(0);
            i = i + 1;
            assert(buf@ =~= Seq::new(i as nat, |k: int| 0u8));
        }
        let r = BlockBuffer { buf, pos: 0 };
        assert(r.pending() =~= Seq::<u8>::empty());
        r
    }

    /// Number of bytes still free in the buffer.
    pub fn get_remain(&self) -> (r: usize)
        requires
            self.wf(),
        ensures
            r == BLOCK_SIZE - self.pending().len(),
    {
        BLOCK_SIZE - self.get_pos()
    }

    /// Number of bytes held.
    pub fn get_pos(&self) -> (r: usize)
        requires
            self.wf(),
        ensures
            r == self.pending().len(),
    {
        self.pos
    }

    /// A copy of the whole buffer: the held bytes followed by zeros.
    pub fn get_buf(&self) -> (r: Vec<u8>)
        requires
            self.wf(),
        ensures
            r@ == self.contents(),
            r@ == self.pending() + Seq::new((BLOCK_SIZE - self.pending().len()) as nat, |i: int| 0u8),
    {
        assert(self.buf@ =~= self.pending() + Seq::new((BLOCK_SIZE - self.pending().len()) as nat, |i: int| 0u8));
        assert(self.buf@.subrange(0, self.buf@.len() as int) =~= self.buf@);
        copy_range(self.buf.as_slice(), 0, self.buf.len())
    }

    fn set_pos_unchecked(&mut self, pos: usize)
        ensures
            final(self).pos == pos,
            final(self).buf == old(self).buf,
    {
        self.pos = pos;
    }

    /// Appends `data` to the stream and returns the blocks that became
    /// whole, in order; the rest of the stream stays held.
    pub fn process_data(&mut self, data: &[u8]) -> (r: Vec<Vec<u8>>)
        requires
            old(self).wf(),
        ensures
            final(self).wf(),
            views(r@) == whole_blocks(old(self).pending() + data@, BLOCK_SIZE as nat),
            final(self).pending() == block_tail(old(self).pending() + data@, BLOCK_SIZE as nat),
    {
        let len = data.len();
        let pos = self.get_pos();
        let rem = self.get_remain();
        let ghost stream = self.pending() + data@;
        assert(self.buf@.subrange(0, pos as int) =~= stream.subrange(0, pos as int));
        if len < rem {
            let mut i: usize = 0;
            while i < len
                invariant
                    i <= len == data@.len(),
                    pos + len < BLOCK_SIZE,
                    pos == old(self).pos,
                    self.pos == pos,
                    self.buf@.len() == BLOCK_SIZE,
                    self.buf@.subrange(0, (pos + i) as int) == stream.subrange(0, (pos + i) as int),
                    forall|k: int| pos + i <= k < BLOCK_SIZE ==> self.buf@[k] == 0,
                    stream == old(self).pending() + data@,
                    old(self).pending().len() == pos,
                decreases len - i,
            {
                let ghost prev = self.buf@;
                self.buf.set(pos + i, data[i]);
                assert(self.buf@[pos + i] == stream[pos + i]);
                assert forall|x: int| 0 <= x < pos + i implies self.buf@[x] == stream[x] by {
                    assert(prev.subrange(0, (pos + i) as int)[x] == prev[x]);
                }
                i = i + 1;
                assert(self.buf@.subrange(0, (pos + i) as int) =~= stream.subrange(0, (pos + i) as int));
            }
            self.set_pos_unchecked(pos + len);
            proof {
                let s = BLOCK_SIZE as int;
                vstd::arithmetic::div_mod::lemma_fundamental_div_mod_converse(stream.len() as int, s, 0, stream.len() as int);
                assert(stream.subrange(0, stream.len() as int) =~= stream);
                assert(whole_blocks(stream, BLOCK_SIZE as nat) =~= Seq::<Seq<u8>>::empty());
            }
            return Vec::new();
        }
        let mut blocks: Vec<Vec<u8>> = Vec::new();
        let mut rest: &[u8] = data;
        let ghost h: int = 0;
        if pos != 0 {
            let (left, right) = data.split_at(rem);
            let mut i: usize = 0;
            while i < rem
                invariant
                    i <= rem == left@.len(),
                    rem <= data@.len(),
                    pos + rem == BLOCK_SIZE,
                    self.buf@.len() == BLOCK_SIZE,
                    self.buf@.subrange(0, (pos + i) as int) == stream.subrange(0, (pos + i) as int),
                    left@ == data@.subrange(0, rem as int),
                    stream == old(self).pending() + data@,
                    old(self).pending().len() == pos,
                decreases rem - i,
            {
                let ghost prev = self.buf@;
                self.buf.set(pos + i, left[i]);
                assert(self.buf@[pos + i] == stream[pos + i]);
                assert forall|x: int| 0 <= x < pos + i implies self.buf@[x] == stream[x] by {
                    assert(prev.subrange(0, (pos + i) as int)[x] == prev[x]);
                }
                i = i + 1;
                assert(self.buf@.subrange(0, (pos + i) as int) =~= stream.subrange(0, (pos + i) as int));
            }
            let first = copy_range(self.buf.as_slice(), 0, BLOCK_SIZE);
            blocks.push(first);
            rest = right;
            proof {
                h = 1;
                assert(rest@ =~= stream.subrange(BLOCK_SIZE as int, stream.len() as int));
                assert(self.buf@ =~= stream.subrange(0, BLOCK_SIZE as int));
                let sz = BLOCK_SIZE as int;
                vstd::arithmetic::div_mod::lemma_fundamental_div_mod(stream.len() as int, sz);
                vstd::arithmetic::div_mod::lemma_mod_bound(stream.len() as int, sz);
                assert(stream.len() as int / sz >= 1) by (nonlinear_arith)
                    requires
                        stream.len() >= sz,
                        stream.len() as int == sz * (stream.len() as int / sz) + stream.len() as int % sz,
                        stream.len() as int % sz < sz,
                        sz > 0,
                ;
                assert(whole_blocks(stream, BLOCK_SIZE as nat)[0] =~= stream.subrange(0, sz));
            }
        } else {
            assert(rest@ =~= stream.subrange(0, stream.len() as int));
        }
        let (mut more, tail) = Self::split_blocks(rest);
        let ghost first_blocks = views(blocks@);
        let ghost more_blocks = views(more@);
        blocks.append(&mut more);
        proof {
            lemma_blocks_after_prefix(stream, BLOCK_SIZE as nat, h, rest@);
            assert(first_blocks =~= whole_blocks(stream, BLOCK_SIZE as nat).subrange(0, h));
            assert(views(blocks@) =~= first_blocks + more_blocks);
        }
        let mut k: usize = 0;
        while k < BLOCK_SIZE
            invariant
                k <= BLOCK_SIZE,
                self.buf@.len() == BLOCK_SIZE,
                tail@.len() < BLOCK_SIZE,
                forall|x: int| 0 <= x < k ==> self.buf@[x] == if x < tail@.len() { tail@[x] } else { 0u8 },
            decreases BLOCK_SIZE - k,
        {
            if k < tail.len() {
                self.buf.set(k, tail[k]);
            } else {
                self.buf.set(k, 0);
            }
            k = k + 1;
        }
        self.set_pos_unchecked(tail.len());
        assert(self.pending() =~= tail@);
        blocks
    }
}

} // verus!
