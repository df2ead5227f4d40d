//! Cryptographic hash functions.
use vstd::prelude::*;

use crate::block_buffer::{block_tail, lemma_blocks_after_prefix, whole_blocks};

pub mod hasher;
pub mod sha1;
pub mod sha256;

verus! {

/// Big-endian 32-bit word `i` of `bytes`.
pub open spec fn be_word(bytes: Seq<u8>, i: int) -> u32 {
    ((bytes[4 * i] as u32) << 24u32) | ((bytes[4 * i + 1] as u32) << 16u32) | ((bytes[4 * i + 2] as u32)
        << 8u32) | (bytes[4 * i + 3] as u32)
}

/// Reads big-endian 32-bit word `i` of `bytes`.
pub fn read_be_word(bytes: &[u8], i: usize) -> (r: u32)
    requires
        4 * i + 4 <= bytes@.len(),
    ensures
        r == be_word(bytes@, i as int),
{
    let n = bytes.len();
    let j: usize = 4 * i;
    let b0 = bytes[j] as u32;
    let b1 = bytes[j + 1] as u32;
    let b2 = bytes[j + 2] as u32;
    let b3 = bytes[j + 3] as u32;
    (b0 << 24u32) | (b1 << 16u32) | (b2 << 8u32) | b3
}

/// `x` rotated right by `n` bits.
pub open spec fn rotr(x: u32, n: u32) -> u32 {
    (x >> n) | (x << ((32 - n) as u32))
}

/// Rotates `x` right by `n` bits.
pub fn rotate_right(x: u32, n: u32) -> (r: u32)
    requires
        0 < n < 32,
    ensures
        r == rotr(x, n),
{
    (x >> n) | (x << (32 - n))
}

/// Choose: the bits of `y` where `x` is set, of `z` elsewhere.
pub open spec fn choose_bits(x: u32, y: u32, z: u32) -> u32 {
    (x & y) ^ (!x & z)
}

/// Majority: each bit set in at least two of `x`, `y`, `z`.
pub open spec fn majority_bits(x: u32, y: u32, z: u32) -> u32 {
    (x & y) ^ (x & z) ^ (y & z)
}

/// SHA-1.
pub type Sha1 = hasher::Hasher<sha1::Sha1Core, 160>;

/// SHA-224: SHA-256 from its own initial value, truncated to 224 bits.
pub type Sha224 = hasher::Hasher<sha256::Sha256Core, 224>;

/// SHA-256.
pub type Sha256 = hasher::Hasher<sha256::Sha256Core, 256>;

/// Types that use a key of a fixed size.
pub trait KeyUser: Sized {
    /// Key size in bytes.
    const KEY_SIZE: usize;

    /// An instance initialised with `key`.
    fn init(key: &[u8]) -> Self
        requires
            key@.len() == Self::KEY_SIZE,
    ;
}

/// Types that compute digests of a fixed size.
pub trait DigestUser {
    /// Digest size in bytes.
    const DIGEST_SIZE: usize;
}

/// A hash function: it absorbs a message piece by piece and gives its
/// digest.
pub trait Digest: DigestUser + Sized {
    /// The type's parameters make a usable hash function.
    spec fn valid() -> bool;

    /// The digest of `message`.
    spec fn digest_of(message: Seq<u8>) -> Seq<u8>;

    /// The invariant of an instance.
    spec fn wf(&self) -> bool;

    /// The bytes absorbed so far.
    spec fn message(&self) -> Seq<u8>;

    /// An instance that has absorbed nothing.
    fn new() -> (r: Self)
        requires
            Self::valid(),
        ensures
            r.wf(),
            r.message() == Seq::<u8>::empty(),
    ;

    /// Forgets everything absorbed.
    fn reset(&mut self)
        requires
            old(self).wf(),
        ensures
            final(self).wf(),
            final(self).message() == Seq::<u8>::empty(),
    ;

    /// Absorbs `data`, returning the instance for chained calls.
    fn update(self, data: &[u8]) -> (r: Self)
        requires
            self.wf(),
            self.message().len() + data@.len() <= u64::MAX,
        ensures
            r.wf(),
            r.message() == self.message() + data@,
    ;

    /// Absorbs `data`.
    fn update_in_place(&mut self, data: &[u8])
        requires
            old(self).wf(),
            old(self).message().len() + data@.len() <= u64::MAX,
        ensures
            final(self).wf(),
            final(self).message() == old(self).message() + data@,
    ;

    /// The digest of the bytes absorbed.
    fn digest(self) -> (r: Vec<u8>)
        requires
            self.wf(),
        ensures
            r@ == Self::digest_of(self.message()),
            r@.len() == Self::DIGEST_SIZE,
    ;

    /// Writes the digest of the bytes absorbed over the start of `out`;
    /// `InsufficientMemoryError`, and `out` untouched, when `out` is shorter
    /// than the digest.
    fn digest_into(self, out: &mut [u8]) -> (r: Result<(), InsufficientMemoryError>)
        requires
            self.wf(),
        ensures
            old(out)@.len() < Self::DIGEST_SIZE ==> r is Err && final(out)@ == old(out)@,
            old(out)@.len() >= Self::DIGEST_SIZE ==> r is Ok && final(out)@ == Self::digest_of(self.message())
                + old(out)@.subrange(Self::DIGEST_SIZE as int, old(out)@.len() as int),
    ;

    /// The digest of the bytes absorbed; then forgets them.
    fn digest_reset(&mut self) -> (r: Vec<u8>)
        requires
            old(self).wf(),
        ensures
            r@ == Self::digest_of(old(self).message()),
            r@.len() == Self::DIGEST_SIZE,
            final(self).wf(),
            final(self).message() == Seq::<u8>::empty(),
    ;

    /// Writes the digest of the bytes absorbed over the start of `out`, then
    /// forgets them; `InsufficientMemoryError`, with `out` and the instance
    /// untouched, when `out` is shorter than the digest.
    fn digest_into_reset(&mut self, out: &mut [u8]) -> (r: Result<(), InsufficientMemoryError>)
        requires
            old(self).wf(),
        ensures
            old(out)@.len() < Self::DIGEST_SIZE ==> r is Err && final(out)@ == old(out)@ && *final(self)
                == *old(self),
            old(out)@.len() >= Self::DIGEST_SIZE ==> r is Ok && final(out)@ == Self::digest_of(old(self).message())
                + old(out)@.subrange(Self::DIGEST_SIZE as int, old(out)@.len() as int) && final(self).wf()
                && final(self).message() == Seq::<u8>::empty(),
    ;
}

/// The output buffer is too small for the digest.
#[derive(Debug, Default, PartialEq, Eq, PartialOrd, Ord, Clone, Copy)]
pub struct InsufficientMemoryError;

/// The hash state after compressing each of `blocks` in turn into `state`
/// with `compress`.
pub open spec fn fold_blocks(
    compress: spec_fn(Seq<u32>, Seq<u8>) -> Seq<u32>,
    state: Seq<u32>,
    blocks: Seq<Seq<u8>>,
) -> Seq<u32>
    decreases blocks.len(),
{
    if blocks.len() == 0 {
        state
    } else {
        compress(fold_blocks(compress, state, blocks.drop_last()), blocks.last())
    }
}

/// Compressing two runs of blocks is compressing the first, then the second.
pub proof fn lemma_fold_blocks_append(
    compress: spec_fn(Seq<u32>, Seq<u8>) -> Seq<u32>,
    state: Seq<u32>,
    a: Seq<Seq<u8>>,
    b: Seq<Seq<u8>>,
)
    ensures
        fold_blocks(compress, state, a + b) == fold_blocks(compress, fold_blocks(compress, state, a), b),
    decreases b.len(),
{
    if b.len() == 0 {
        assert(a + b =~= a);
    } else {
        assert((a + b).drop_last() =~= a + b.drop_last());
        assert((a + b).last() == b.last());
        lemma_fold_blocks_append(compress, state, a, b.drop_last());
    }
}

/// The four bytes of `x`, most significant first.
pub open spec fn be32_bytes(x: u32) -> Seq<u8> {
    seq![(x >> 24u32) as u8, (x >> 16u32) as u8, (x >> 8u32) as u8, x as u8]
}

/// The eight bytes of `x`, most significant first.
pub open spec fn be64_bytes(x: u64) -> Seq<u8> {
    seq![
        (x >> 56u64) as u8,
        (x >> 48u64) as u8,
        (x >> 40u64) as u8,
        (x >> 32u64) as u8,
        (x >> 24u64) as u8,
        (x >> 16u64) as u8,
        (x >> 8u64) as u8,
        x as u8,
    ]
}

/// The words of `ws`, each as four bytes, most significant first.
pub open spec fn words_be_bytes(ws: Seq<u32>) -> Seq<u8>
    decreases ws.len(),
{
    if ws.len() == 0 {
        Seq::empty()
    } else {
        words_be_bytes(ws.drop_last()) + be32_bytes(ws.last())
    }
}

/// The padding after a message of `len` bytes: one `0x80` byte, zeros up
/// to 8 bytes short of a multiple of 64, then the message length in bits as
/// a big-endian 64-bit number.
pub open spec fn padding(len: nat) -> Seq<u8> {
    let zeros: nat = if len % 64 <= 55 {
        (55 - len % 64) as nat
    } else {
        (119 - len % 64) as nat
    };
    seq![0x80u8] + Seq::new(zeros, |i: int| 0u8) + be64_bytes((len as u64).wrapping_mul(8))
}

/// A message followed by its padding.
pub open spec fn padded(message: Seq<u8>) -> Seq<u8> {
    message + padding(message.len())
}

/// Appending `more` to a message adds the blocks of the message's tail
/// followed by `more`, and leaves the tail of that as the new tail.
pub proof fn lemma_blocks_extend(message: Seq<u8>, more: Seq<u8>)
    ensures
        whole_blocks(message + more, 64) == whole_blocks(message, 64) + whole_blocks(
            block_tail(message, 64) + more,
            64,
        ),
        block_tail(message + more, 64) == block_tail(block_tail(message, 64) + more, 64),
        block_tail(message, 64).len() == message.len() % 64,
{
    let stream = message + more;
    let len = message.len() as int;
    let h = len / 64;
    vstd::arithmetic::div_mod::lemma_fundamental_div_mod(len, 64);
    assert(h * 64 <= len);
    let rest = stream.subrange(h * 64, stream.len() as int);
    assert(rest =~= block_tail(message, 64) + more);
    lemma_blocks_after_prefix(stream, 64, h, rest);
    let w = whole_blocks(stream, 64);
    let wm = whole_blocks(message, 64);
    assert forall|i: int| 0 <= i < h implies #[trigger] w[i] == wm[i] by {
        assert(i * 64 + 64 <= h * 64) by (nonlinear_arith)
            requires
                i < h,
        ;
        assert(0 <= i * 64) by (nonlinear_arith)
            requires
                0 <= i,
        ;
        assert(w[i] =~= wm[i]);
    }
    assert(w.subrange(0, h) =~= wm);
}

/// The blocks of a message tail of `len % 64` bytes followed by the padding
/// of a `len`-byte message: one block when the tail leaves room for the
/// `0x80` byte and the length, two otherwise.
pub proof fn lemma_padded_blocks_of_tail(p: Seq<u8>, len: nat)
    requires
        p.len() == len % 64,
    ensures
        ({
            let t = p + padding(len);
            let w = whole_blocks(t, 64);
            &&& p.len() + 1 <= 56 ==> t.len() == 64 && w == seq![t]
            &&& p.len() + 1 > 56 ==> t.len() == 128 && w == seq![t.subrange(0, 64), t.subrange(64, 128)]
            &&& p.len() + 1 <= 56 ==> t == p + seq![0x80u8] + Seq::new((55 - p.len()) as nat, |i: int| 0u8)
                + be64_bytes((len as u64).wrapping_mul(8))
            &&& p.len() + 1 > 56 ==> t.subrange(0, 64) == p + seq![0x80u8] + Seq::new((63 - p.len()) as nat, |i: int| 0u8)
            &&& p.len() + 1 > 56 ==> t.subrange(64, 128) == Seq::new(56, |i: int| 0u8) + be64_bytes((len as u64).wrapping_mul(8))
        }),
{
    let t = p + padding(len);
    let w = whole_blocks(t, 64);
    if p.len() + 1 <= 56 {
        assert(t.len() == 64);
        assert(w.len() == 1);
        assert(w[0] =~= t);
        assert(w =~= seq![t]);
    } else {
        assert(t.len() == 128);
        assert(w.len() == 2);
        assert(w =~= seq![t.subrange(0, 64), t.subrange(64, 128)]);
        assert(t.subrange(0, 64) =~= p + seq![0x80u8] + Seq::new((63 - p.len()) as nat, |i: int| 0u8));
        assert(t.subrange(64, 128) =~= Seq::new(56, |i: int| 0u8) + be64_bytes((len as u64).wrapping_mul(8)));
    }
}

/// Four bytes per word.
pub proof fn lemma_words_be_bytes_len(ws: Seq<u32>)
    ensures
        words_be_bytes(ws).len() == 4 * ws.len(),
    decreases ws.len(),
{
    if ws.len() > 0 {
        lemma_words_be_bytes_len(ws.drop_last());
    }
}

/// The message's length in bits as eight big-endian bytes, written at
/// `buf[56..64]`.
pub fn write_length(buf: &mut Vec<u8>, x: u64)
    requires
        old(buf)@.len() == 64,
    ensures
        final(buf)@ == old(buf)@.subrange(0, 56) + be64_bytes(x),
{
    buf.set(56, (x >> 56u64) as u8);
    buf.set(57, (x >> 48u64) as u8);
    buf.set(58, (x >> 40u64) as u8);
    buf.set(59, (x >> 32u64) as u8);
    buf.set(60, (x >> 24u64) as u8);
    buf.set(61, (x >> 16u64) as u8);
    buf.set(62, (x >> 8u64) as u8);
    buf.set(63, x as u8);
    assert(buf@ =~= old(buf)@.subrange(0, 56) + be64_bytes(x));
}

/// The words of `ws`, each as four bytes, most significant first.
pub fn words_to_be_bytes(ws: &Vec<u32>) -> (r: Vec<u8>)
    ensures
        r@ == words_be_bytes(ws@),
{
    let mut r: Vec<u8> = Vec::new();
    let mut i: usize = 0;
    while i < ws.len()
        invariant
            i <= ws@.len(),
            r@ == words_be_bytes(ws@.subrange(0, i as int)),
        decreases ws@.len() - i,
    {
        let x = ws[i];
        r.push((x >> 24u32) as u8);
        r.push((x >> 16u32) as u8);
        r.push((x >> 8u32) as u8);
        r.push(x as u8);
        proof {
            let s = ws@.subrange(0, i + 1);
            assert(s.drop_last() =~= ws@.subrange(0, i as int));
            assert(r@ =~= words_be_bytes(s));
        }
        i = i + 1;
    }
    assert(ws@.subrange(0, ws@.len() as int) =~= ws@);
    r
}

/// A copy of the words of `ws`.
pub fn copy_words(ws: &Vec<u32>) -> (r: Vec<u32>)
    ensures
        r@ == ws@,
{
    let mut r: Vec<u32> = Vec::new();
    let mut i: usize = 0;
    while i < ws.len()
        invariant
            i <= ws@.len(),
            r@ == ws@.subrange(0, i as int),
        decreases ws@.len() - i,
    {
        r.push(ws[i]);
        i = i + 1;
        assert(r@ =~= ws@.subrange(0, i as int));
    }
    assert(ws@.subrange(0, ws@.len() as int) =~= ws@);
    r
}

} // verus!
