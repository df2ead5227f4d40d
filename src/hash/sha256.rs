//! SHA-256 and SHA-224 (FIPS 180-4): the compression of one block.
use vstd::prelude::*;

use crate::block_buffer::{block_tail, views, whole_blocks, BlockBuffer, BlockUser};
use crate::hash::hasher::HasherCore;
use crate::hash::{
    be_word, choose_bits, copy_words, fold_blocks, lemma_blocks_extend, lemma_fold_blocks_append,
    lemma_padded_blocks_of_tail, lemma_words_be_bytes_len, majority_bits, padded, padding, read_be_word,
    rotate_right, rotr, words_be_bytes, words_to_be_bytes, write_length, DigestUser,
};

verus! {

/// Round constants.
pub const K_CONSTANTS: [u32; 64] = [
    0x428a2f98, 0x71374491, 0xb5c0fbcf, 0xe9b5dba5, 0x3956c25b, 0x59f111f1, 0x923f82a4, 0xab1c5ed5,
    0xd807aa98, 0x12835b01, 0x243185be, 0x550c7dc3, 0x72be5d74, 0x80deb1fe, 0x9bdc06a7, 0xc19bf174,
    0xe49b69c1, 0xefbe4786, 0x0fc19dc6, 0x240ca1cc, 0x2de92c6f, 0x4a7484aa, 0x5cb0a9dc, 0x76f988da,
    0x983e5152, 0xa831c66d, 0xb00327c8, 0xbf597fc7, 0xc6e00bf3, 0xd5a79147, 0x06ca6351, 0x14292967,
    0x27b70a85, 0x2e1b2138, 0x4d2c6dfc, 0x53380d13, 0x650a7354, 0x766a0abb, 0x81c2c92e, 0x92722c85,
    0xa2bfe8a1, 0xa81a664b, 0xc24b8b70, 0xc76c51a3, 0xd192e819, 0xd6990624, 0xf40e3585, 0x106aa070,
    0x19a4c116, 0x1e376c08, 0x2748774c, 0x34b0bcb5, 0x391c0cb3, 0x4ed8aa4a, 0x5b9cca4f, 0x682e6ff3,
    0x748f82ee, 0x78a5636f, 0x84c87814, 0x8cc70208, 0x90befffa, 0xa4506ceb, 0xbef9a3f7, 0xc67178f2,
];

pub open spec fn spec_big_sig_0(x: u32) -> u32 {
    rotr(x, 2) ^ rotr(x, 13) ^ rotr(x, 22)
}

pub open spec fn spec_big_sig_1(x: u32) -> u32 {
    rotr(x, 6) ^ rotr(x, 11) ^ rotr(x, 25)
}

pub open spec fn spec_small_sig_0(x: u32) -> u32 {
    rotr(x, 7) ^ rotr(x, 18) ^ (x >> 3u32)
}

pub open spec fn spec_small_sig_1(x: u32) -> u32 {
    rotr(x, 17) ^ rotr(x, 19) ^ (x >> 10u32)
}

fn big_sig_0(x: u32) -> (r: u32)
    ensures
        r == spec_big_sig_0(x),
{
    rotate_right(x, 2) ^ rotate_right(x, 13) ^ rotate_right(x, 22)
}

fn big_sig_1(x: u32) -> (r: u32)
    ensures
        r == spec_big_sig_1(x),
{
    rotate_right(x, 6) ^ rotate_right(x, 11) ^ rotate_right(x, 25)
}

fn small_sig_0(x: u32) -> (r: u32)
    ensures
        r == spec_small_sig_0(x),
{
    rotate_right(x, 7) ^ rotate_right(x, 18) ^ (x >> 3)
}

fn small_sig_1(x: u32) -> (r: u32)
    ensures
        r == spec_small_sig_1(x),
{
    rotate_right(x, 17) ^ rotate_right(x, 19) ^ (x >> 10)
}

/// Word `t` of the message schedule of `block`.
pub open spec fn schedule(block: Seq<u8>, t: nat) -> u32
    decreases t,
{
    if t < 16 {
        be_word(block, t as int)
    } else {
        schedule(block, (t - 7) as nat).wrapping_add(schedule(block, (t - 16) as nat)).wrapping_add(
            spec_small_sig_1(schedule(block, (t - 2) as nat)),
        ).wrapping_add(spec_small_sig_0(schedule(block, (t - 15) as nat)))
    }
}

/// One round: the working variables `v` (a to h) after round `t`.
pub open spec fn round(v: Seq<u32>, block: Seq<u8>, t: nat) -> Seq<u32> {
    let tmp1 = v[7].wrapping_add(spec_big_sig_1(v[4])).wrapping_add(choose_bits(v[4], v[5], v[6])).wrapping_add(
        K_CONSTANTS[t as int],
    ).wrapping_add(schedule(block, t));
    let tmp2 = spec_big_sig_0(v[0]).wrapping_add(majority_bits(v[0], v[1], v[2]));
    seq![tmp1.wrapping_add(tmp2), v[0], v[1], v[2], v[3].wrapping_add(tmp1), v[4], v[5], v[6]]
}

/// The working variables after the first `t` rounds, from `v`.
pub open spec fn rounds(v: Seq<u32>, block: Seq<u8>, t: nat) -> Seq<u32>
    decreases t,
{
    if t == 0 {
        v
    } else {
        round(rounds(v, block, (t - 1) as nat), block, (t - 1) as nat)
    }
}

/// The hash state after compressing `block` into `state`.
pub open spec fn compress_block(state: Seq<u32>, block: Seq<u8>) -> Seq<u32> {
    let v = rounds(state, block, 64);
    Seq::new(8, |i: int| state[i].wrapping_add(v[i]))
}

/// Compresses one 64-byte block into the hash state.
pub fn sha256_core_digest_block(state: &mut Vec<u32>, block: &[u8])
    requires
        old(state)@.len() == 8,
        block@.len() == 64,
    ensures
        final(state)@ == compress_block(old(state)@, block@),
{
    let mut words: Vec<u32> = Vec::new();
    let mut i: usize = 0;
    while i < 16
        invariant
            i <= 16,
            block@.len() == 64,
            words@.len() == i,
            forall|k: int| 0 <= k < i ==> words@[k] == schedule(block@, k as nat),
        decreases 16 - i,
    {
        words.push(read_be_word(block, i));
        i = i + 1;
    }
    let mut a = state[0];
    let mut b = state[1];
    let mut c = state[2];
    let mut d = state[3];
    let mut e = state[4];
    let mut f = state[5];
    let mut g = state[6];
    let mut h = state[7];
    proof {
        assert(seq![a, b, c, d, e, f, g, h] =~= rounds(state@, block@, 0));
    }
    let mut t: usize = 0;
    while t < 64
        invariant
            t <= 64,
            16 <= words@.len(),
            t <= words@.len(),
            words@.len() <= 64,
            t < 16 ==> words@.len() == 16,
            t >= 16 ==> words@.len() == t,
            forall|k: int| 0 <= k < words@.len() ==> words@[k] == schedule(block@, k as nat),
            seq![a, b, c, d, e, f, g, h] == rounds(state@, block@, t as nat),
        decreases 64 - t,
    {
        if t >= 16 {
            let w = words[t - 7].wrapping_add(words[t - 16]).wrapping_add(small_sig_1(words[t - 2])).wrapping_add(
                small_sig_0(words[t - 15]),
            );
            words.push(w);
        }
        let ghost v = seq![a, b, c, d, e, f, g, h];
        let tmp1 = h.wrapping_add(big_sig_1(e)).wrapping_add((e & f) ^ (!e & g)).wrapping_add(
            K_CONSTANTS[t],
        ).wrapping_add(words[t]);
        let tmp2 = big_sig_0(a).wrapping_add((a & b) ^ (a & c) ^ (b & c));
        h = g;
        g = f;
        f = e;
        e = d.wrapping_add(tmp1);
        d = c;
        c = b;
        b = a;
        a = tmp1.wrapping_add(tmp2);
        proof {
            assert(seq![a, b, c, d, e, f, g, h] =~= round(v, block@, t as nat));
        }
        t = t + 1;
    }
    let ghost v = seq![a, b, c, d, e, f, g, h];
    let ghost s0 = state@;
    let s0v = state[0];
    state.set(0, s0v.wrapping_add(a));
    let s1v = state[1];
    state.set(1, s1v.wrapping_add(b));
    let s2v = state[2];
    state.set(2, s2v.wrapping_add(c));
    let s3v = state[3];
    state.set(3, s3v.wrapping_add(d));
    let s4v = state[4];
    state.set(4, s4v.wrapping_add(e));
    let s5v = state[5];
    state.set(5, s5v.wrapping_add(f));
    let s6v = state[6];
    state.set(6, s6v.wrapping_add(g));
    let s7v = state[7];
    state.set(7, s7v.wrapping_add(h));
    proof {
        assert(state@ =~= compress_block(s0, block@));
    }
}

} // verus!

verus! {

/// The block compression of SHA-256, as a function value.
pub open spec fn compress_fn() -> spec_fn(Seq<u32>, Seq<u8>) -> Seq<u32> {
    |state: Seq<u32>, block: Seq<u8>| compress_block(state, block)
}

/// The initial hash value: SHA-224's for a 224-bit digest, SHA-256's for a
/// 256-bit one, zeros otherwise.
pub open spec fn initial_state(truncated_bits: nat) -> Seq<u32> {
    if truncated_bits == 224 {
        seq![0xc1059ed8u32, 0x367cd507, 0x3070dd17, 0xf70e5939, 0xffc00b31, 0x68581511, 0x64f98fa7, 0xbefa4fa4]
    } else if truncated_bits == 256 {
        seq![0x6a09e667u32, 0xbb67ae85, 0x3c6ef372, 0xa54ff53a, 0x510e527f, 0x9b05688c, 0x1f83d9ab, 0x5be0cd19]
    } else {
        Seq::new(8, |i: int| 0u32)
    }
}

/// The 32-byte digest of `message`, from the initial hash value chosen by
/// `truncated_bits`.
pub open spec fn sha256_digest(truncated_bits: nat, message: Seq<u8>) -> Seq<u8> {
    words_be_bytes(fold_blocks(compress_fn(), initial_state(truncated_bits), whole_blocks(padded(message), 64)))
}

/// The SHA-256 engine, also used for SHA-224.
pub struct Sha256Core {
    /// Hash value over the whole blocks absorbed.
    state: Vec<u32>,
    /// The start of the next block.
    buffer: BlockBuffer<64>,
    /// Number of bytes absorbed.
    msg_len: u64,
    /// The bytes absorbed.
    message: Ghost<Seq<u8>>,
    /// The digest length the engine was made for.
    truncated_bits: Ghost<nat>,
}

impl DigestUser for Sha256Core {
    const DIGEST_SIZE: usize = 32;
}

impl BlockUser for Sha256Core {
    const BLOCK_SIZE: usize = 64;
}

impl HasherCore for Sha256Core {
    open spec fn full_digest(truncated_bits: nat, message: Seq<u8>) -> Seq<u8> {
        sha256_digest(truncated_bits, message)
    }

    closed spec fn wf(&self) -> bool {
        &&& self.state@ == fold_blocks(
            compress_fn(),
            initial_state(self.truncated_bits@),
            whole_blocks(self.message@, 64),
        )
        &&& self.state@.len() == 8
        &&& self.buffer.wf()
        &&& self.buffer.pending() == block_tail(self.message@, 64)
        &&& self.msg_len == self.message@.len()
    }

    closed spec fn message(&self) -> Seq<u8> {
        self.message@
    }

    closed spec fn truncated_bits(&self) -> nat {
        self.truncated_bits@
    }

    fn new(truncated_digest_len_bit: usize) -> (r: Self) {
        let state: Vec<u32> = if truncated_digest_len_bit == 224 {
            vec![0xc1059ed8u32, 0x367cd507, 0x3070dd17, 0xf70e5939, 0xffc00b31, 0x68581511, 0x64f98fa7, 0xbefa4fa4]
        } else if truncated_digest_len_bit == 256 {
            vec![0x6a09e667u32, 0xbb67ae85, 0x3c6ef372, 0xa54ff53a, 0x510e527f, 0x9b05688c, 0x1f83d9ab, 0x5be0cd19]
        } else {
            vec![0u32, 0, 0, 0, 0, 0, 0, 0]
        };
        let r = Sha256Core {
            state,
            buffer: BlockBuffer::new(),
            msg_len: 0,
            message: Ghost(Seq::empty()),
            truncated_bits: Ghost(truncated_digest_len_bit as nat),
        };
        proof {
            assert(whole_blocks(Seq::<u8>::empty(), 64) =~= Seq::<Seq<u8>>::empty());
            assert(block_tail(Seq::<u8>::empty(), 64) =~= Seq::<u8>::empty());
            assert(r.state@ =~= initial_state(truncated_digest_len_bit as nat));
        }
        r
    }

    fn compress(&mut self, data: &[u8]) {
        let ghost start = self.state@;
        let ghost message = self.message@;
        let ghost pending = self.buffer.pending();
        self.msg_len = self.msg_len + data.len() as u64;
        let blocks = self.buffer.process_data(data);
        let mut i: usize = 0;
        while i < blocks.len()
            invariant
                i <= blocks@.len(),
                views(blocks@) == whole_blocks(pending + data@, 64),
                self.state@.len() == 8,
                self.state@ == fold_blocks(compress_fn(), start, views(blocks@).subrange(0, i as int)),
                self.truncated_bits@ == old(self).truncated_bits@,
                self.message@ == message,
                self.buffer.wf(),
                self.buffer.pending() == block_tail(pending + data@, 64),
                self.msg_len == message.len() + data@.len(),
            decreases blocks@.len() - i,
        {
            proof {
                let n = (pending + data@).len() as int;
                assert(views(blocks@)[i as int] == blocks@[i as int]@);
                assert(views(blocks@).len() == blocks@.len());
                vstd::arithmetic::div_mod::lemma_fundamental_div_mod(n, 64);
                assert(i * 64 + 64 <= (n / 64) * 64) by (nonlinear_arith)
                    requires
                        0 <= i < n / 64,
                ;
                assert(0 <= i * 64) by (nonlinear_arith)
                    requires
                        0 <= i,
                ;
            }
            sha256_core_digest_block(&mut self.state, blocks[i].as_slice());
            proof {
                let s = views(blocks@).subrange(0, i + 1);
                assert(s.drop_last() =~= views(blocks@).subrange(0, i as int));
            }
            i = i + 1;
        }
        proof {
            assert(views(blocks@).subrange(0, blocks@.len() as int) =~= views(blocks@));
            lemma_blocks_extend(message, data@);
            lemma_fold_blocks_append(
                compress_fn(),
                initial_state(self.truncated_bits@),
                whole_blocks(message, 64),
                whole_blocks(pending + data@, 64),
            );
        }
        self.message = Ghost(message + data@);
    }

    fn finalize(&mut self) -> (r: Vec<u8>) {
        let ghost message = self.message@;
        let mut state = copy_words(&self.state);
        let ghost s0 = state@;
        let pos = self.buffer.get_pos();
        let mut buf = self.buffer.get_buf();
        let ghost p = self.buffer.pending();
        let ghost tail = p + padding(message.len());
        proof {
            lemma_blocks_extend(message, padding(message.len()));
            lemma_padded_blocks_of_tail(p, message.len());
        }
        buf.set(pos, 0x80);
        if pos + 1 > 56 {
            proof {
                assert(buf@ =~= tail.subrange(0, 64));
            }
            sha256_core_digest_block(&mut state, buf.as_slice());
            buf = vec![0u8; 64];
            assert(buf@ =~= Seq::new(64, |i: int| 0u8));
        }
        write_length(&mut buf, self.msg_len.wrapping_mul(8));
        proof {
            if pos + 1 > 56 {
                assert(buf@ =~= tail.subrange(64, 128));
            } else {
                assert(buf@ =~= tail);
            }
        }
        sha256_core_digest_block(&mut state, buf.as_slice());
        proof {
            let blocks = whole_blocks(tail, 64);
            lemma_fold_blocks_append(
                compress_fn(),
                initial_state(self.truncated_bits@),
                whole_blocks(message, 64),
                blocks,
            );
            let cf = compress_fn();
            if pos + 1 > 56 {
                let one = blocks.drop_last();
                let none = one.drop_last();
                assert(none =~= Seq::<Seq<u8>>::empty());
                assert(fold_blocks(cf, s0, none) == s0);
                assert(one.last() == tail.subrange(0, 64));
                assert(fold_blocks(cf, s0, one) == cf(fold_blocks(cf, s0, none), one.last()));
                assert(cf(s0, tail.subrange(0, 64)) == compress_block(s0, tail.subrange(0, 64)));
                let s1 = compress_block(s0, tail.subrange(0, 64));
                assert(fold_blocks(cf, s0, blocks) == cf(fold_blocks(cf, s0, one), blocks.last()));
                assert(cf(s1, tail.subrange(64, 128)) == compress_block(s1, tail.subrange(64, 128)));
            } else {
                let none = blocks.drop_last();
                assert(none =~= Seq::<Seq<u8>>::empty());
                assert(fold_blocks(cf, s0, none) == s0);
                assert(fold_blocks(cf, s0, blocks) == cf(fold_blocks(cf, s0, none), blocks.last()));
                assert(cf(s0, tail) == compress_block(s0, tail));
            }
            assert(state@ == fold_blocks(compress_fn(), s0, blocks));
            assert(whole_blocks(padded(message), 64) == whole_blocks(message, 64) + blocks);
        }
        let r = words_to_be_bytes(&state);
        proof {
            lemma_words_be_bytes_len(state@);
        }
        r
    }
}

} // verus!
