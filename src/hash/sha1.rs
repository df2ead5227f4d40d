//! SHA-1 (FIPS 180-4).
use vstd::prelude::*;

use crate::block_buffer::{block_tail, views, whole_blocks, BlockBuffer, BlockUser};
use crate::hash::hasher::HasherCore;
use crate::hash::{
    be_word, choose_bits, copy_words, fold_blocks, lemma_blocks_extend, lemma_fold_blocks_append,
    lemma_padded_blocks_of_tail, lemma_words_be_bytes_len, majority_bits, padded, padding, read_be_word,
    words_be_bytes, words_to_be_bytes, write_length, DigestUser,
};

verus! {

/// Round constants, one per run of 20 rounds.
pub const K_CONSTANTS: [u32; 4] = [0x5a827999, 0x6ed9eba1, 0x8f1bbcdc, 0xca62c1d6];

/// `x` rotated left by `n` bits.
pub open spec fn rotl(x: u32, n: u32) -> u32 {
    (x << n) | (x >> ((32 - n) as u32))
}

/// Rotates `x` left by `n` bits.
fn rotate_left(x: u32, n: u32) -> (r: u32)
    requires
        0 < n < 32,
    ensures
        r == rotl(x, n),
{
    (x << n) | (x >> (32 - n))
}

/// The logical function of round `t`.
pub open spec fn round_function(x: u32, y: u32, z: u32, t: nat) -> u32 {
    if t < 20 {
        choose_bits(x, y, z)
    } else if t < 40 {
        x ^ y ^ z
    } else if t < 60 {
        majority_bits(x, y, z)
    } else {
        x ^ y ^ z
    }
}

fn sha1_function(x: u32, y: u32, z: u32, t: usize) -> (r: u32)
    ensures
        r == round_function(x, y, z, t as nat),
{
    if t < 20 {
        (x & y) ^ (!x & z)
    } else if t < 40 {
        x ^ y ^ z
    } else if t < 60 {
        (x & y) ^ (x & z) ^ (y & z)
    } else {
        x ^ y ^ z
    }
}

/// Word `t` of the message schedule of `block`.
pub open spec fn schedule(block: Seq<u8>, t: nat) -> u32
    decreases t,
{
    if t < 16 {
        be_word(block, t as int)
    } else {
        rotl(
            schedule(block, (t - 3) as nat) ^ schedule(block, (t - 8) as nat) ^ schedule(block, (t - 14) as nat)
                ^ schedule(block, (t - 16) as nat),
            1,
        )
    }
}

/// One round: the working variables `v` (a to e) after round `t`.
pub open spec fn round(v: Seq<u32>, block: Seq<u8>, t: nat) -> Seq<u32> {
    let tmp = rotl(v[0], 5).wrapping_add(round_function(v[1], v[2], v[3], t)).wrapping_add(v[4]).wrapping_add(
        K_CONSTANTS[(t / 20) as int],
    ).wrapping_add(schedule(block, t));
    seq![tmp, v[0], rotl(v[1], 30), v[2], v[3]]
}

/// The working variables after the first `t` rounds, from `v`.
pub open spec fn rounds(v: Seq<u32>, block: Seq<u8>, t: nat) -> Seq<u32>
    decreases t,
{
    if t == 0 {
        v
    } else {
        round(rounds(v, block, (t - 1) as nat), block, (t - 1) as nat)
    }
}

/// The hash state after compressing `block` into `state`.
pub open spec fn compress_block(state: Seq<u32>, block: Seq<u8>) -> Seq<u32> {
    let v = rounds(state, block, 80);
    Seq::new(5, |i: int| state[i].wrapping_add(v[i]))
}

/// Compresses one 64-byte block into the hash state.
pub fn sha1_core_digest_block(state: &mut Vec<u32>, block: &[u8])
    requires
        old(state)@.len() == 5,
        block@.len() == 64,
    ensures
        final(state)@ == compress_block(old(state)@, block@),
{
    let mut words: Vec<u32> = Vec::new();
    let mut i: usize = 0;
    while i < 16
        invariant
            i <= 16,
            block@.len() == 64,
            words@.len() == i,
            forall|k: int| 0 <= k < i ==> words@[k] == schedule(block@, k as nat),
        decreases 16 - i,
    {
        words.push(read_be_word(block, i));
        i = i + 1;
    }
    let mut a = state[0];
    let mut b = state[1];
    let mut c = state[2];
    let mut d = state[3];
    let mut e = state[4];
    proof {
        assert(seq![a, b, c, d, e] =~= rounds(state@, block@, 0));
    }
    let mut t: usize = 0;
    while t < 80
        invariant
            t <= 80,
            16 <= words@.len(),
            t <= words@.len(),
            words@.len() <= 80,
            t < 16 ==> words@.len() == 16,
            t >= 16 ==> words@.len() == t,
            forall|k: int| 0 <= k < words@.len() ==> words@[k] == schedule(block@, k as nat),
            seq![a, b, c, d, e] == rounds(state@, block@, t as nat),
        decreases 80 - t,
    {
        if t >= 16 {
            let w = rotate_left(words[t - 3] ^ words[t - 8] ^ words[t - 14] ^ words[t - 16], 1);
            words.push(w);
        }
        let ghost v = seq![a, b, c, d, e];
        let tmp = rotate_left(a, 5).wrapping_add(sha1_function(b, c, d, t)).wrapping_add(e).wrapping_add(
            K_CONSTANTS[t / 20],
        ).wrapping_add(words[t]);
        e = d;
        d = c;
        c = rotate_left(b, 30);
        b = a;
        a = tmp;
        proof {
            assert(seq![a, b, c, d, e] =~= round(v, block@, t as nat));
        }
        t = t + 1;
    }
    let ghost s0 = state@;
    let s0v = state[0];
    state.set(0, s0v.wrapping_add(a));
    let s1v = state[1];
    state.set(1, s1v.wrapping_add(b));
    let s2v = state[2];
    state.set(2, s2v.wrapping_add(c));
    let s3v = state[3];
    state.set(3, s3v.wrapping_add(d));
    let s4v = state[4];
    state.set(4, s4v.wrapping_add(e));
    proof {
        assert(state@ =~= compress_block(s0, block@));
    }
}

} // verus!

verus! {

/// The block compression of SHA-1, as a function value.
pub open spec fn compress_fn() -> spec_fn(Seq<u32>, Seq<u8>) -> Seq<u32> {
    |state: Seq<u32>, block: Seq<u8>| compress_block(state, block)
}

/// The initial hash value.
pub open spec fn initial_state() -> Seq<u32> {
    seq![0x67452301u32, 0xefcdab89, 0x98badcfe, 0x10325476, 0xc3d2e1f0]
}

/// The 20-byte SHA-1 digest of `message`.
pub open spec fn sha1_digest(message: Seq<u8>) -> Seq<u8> {
    words_be_bytes(fold_blocks(compress_fn(), initial_state(), whole_blocks(padded(message), 64)))
}

/// The SHA-256 engine, also used for SHA-224.
pub struct Sha1Core {
    /// Hash value over the whole blocks absorbed.
    state: Vec<u32>,
    /// The start of the next block.
    buffer: BlockBuffer<64>,
    /// Number of bytes absorbed.
    msg_len: u64,
    /// The bytes absorbed.
    message: Ghost<Seq<u8>>,
    /// The digest length the engine was made for.
    truncated_bits: Ghost<nat>,
}

impl DigestUser for Sha1Core {
    const DIGEST_SIZE: usize = 20;
}

impl BlockUser for Sha1Core {
    const BLOCK_SIZE: usize = 64;
}

impl HasherCore for Sha1Core {
    open spec fn full_digest(truncated_bits: nat, message: Seq<u8>) -> Seq<u8> {
        sha1_digest(message)
    }

    closed spec fn wf(&self) -> bool {
        &&& self.state@ == fold_blocks(
            compress_fn(),
            initial_state(),
            whole_blocks(self.message@, 64),
        )
        &&& self.state@.len() == 5
        &&& self.buffer.wf()
        &&& self.buffer.pending() == block_tail(self.message@, 64)
        &&& self.msg_len == self.message@.len()
    }

    closed spec fn message(&self) -> Seq<u8> {
        self.message@
    }

    closed spec fn truncated_bits(&self) -> nat {
        self.truncated_bits@
    }

    fn new(truncated_digest_len_bit: usize) -> (r: Self) {
        let state: Vec<u32> = vec![0x67452301u32, 0xefcdab89, 0x98badcfe, 0x10325476, 0xc3d2e1f0];
        let r = Sha1Core {
            state,
            buffer: BlockBuffer::new(),
            msg_len: 0,
            message: Ghost(Seq::empty()),
            truncated_bits: Ghost(truncated_digest_len_bit as nat),
        };
        proof {
            assert(whole_blocks(Seq::<u8>::empty(), 64) =~= Seq::<Seq<u8>>::empty());
            assert(block_tail(Seq::<u8>::empty(), 64) =~= Seq::<u8>::empty());
            assert(r.state@ =~= initial_state());
        }
        r
    }

    fn compress(&mut self, data: &[u8]) {
        let ghost start = self.state@;
        let ghost message = self.message@;
        let ghost pending = self.buffer.pending();
        self.msg_len = self.msg_len + data.len() as u64;
        let blocks = self.buffer.process_data(data);
        let mut i: usize = 0;
        while i < blocks.len()
            invariant
                i <= blocks@.len(),
                views(blocks@) == whole_blocks(pending + data@, 64),
                self.state@.len() == 5,
                self.state@ == fold_blocks(compress_fn(), start, views(blocks@).subrange(0, i as int)),
                self.truncated_bits@ == old(self).truncated_bits@,
                self.message@ == message,
                self.buffer.wf(),
                self.buffer.pending() == block_tail(pending + data@, 64),
                self.msg_len == message.len() + data@.len(),
            decreases blocks@.len() - i,
        {
            proof {
                let n = (pending + data@).len() as int;
                assert(views(blocks@)[i as int] == blocks@[i as int]@);
                assert(views(blocks@).len() == blocks@.len());
                vstd::arithmetic::div_mod::lemma_fundamental_div_mod(n, 64);
                assert(i * 64 + 64 <= (n / 64) * 64) by (nonlinear_arith)
                    requires
                        0 <= i < n / 64,
                ;
                assert(0 <= i * 64) by (nonlinear_arith)
                    requires
                        0 <= i,
                ;
            }
            sha1_core_digest_block(&mut self.state, blocks[i].as_slice());
            proof {
                let s = views(blocks@).subrange(0, i + 1);
                assert(s.drop_last() =~= views(blocks@).subrange(0, i as int));
            }
            i = i + 1;
        }
        proof {
            assert(views(blocks@).subrange(0, blocks@.len() as int) =~= views(blocks@));
            lemma_blocks_extend(message, data@);
            lemma_fold_blocks_append(
                compress_fn(),
                initial_state(),
                whole_blocks(message, 64),
                whole_blocks(pending + data@, 64),
            );
        }
        self.message = Ghost(message + data@);
    }

    fn finalize(&mut self) -> (r: Vec<u8>) {
        let ghost message = self.message@;
        let mut state = copy_words(&self.state);
        let ghost s0 = state@;
        let pos = self.buffer.get_pos();
        let mut buf = self.buffer.get_buf();
        let ghost p = self.buffer.pending();
        let ghost tail = p + padding(message.len());
        proof {
            lemma_blocks_extend(message, padding(message.len()));
            lemma_padded_blocks_of_tail(p, message.len());
        }
        buf.set(pos, 0x80);
        if pos + 1 > 56 {
            proof {
                assert(buf@ =~= tail.subrange(0, 64));
            }
            sha1_core_digest_block(&mut state, buf.as_slice());
            buf = vec![0u8; 64];
            assert(buf@ =~= Seq::new(64, |i: int| 0u8));
        }
        write_length(&mut buf, self.msg_len.wrapping_mul(8));
        proof {
            if pos + 1 > 56 {
                assert(buf@ =~= tail.subrange(64, 128));
            } else {
                assert(buf@ =~= tail);
            }
        }
        sha1_core_digest_block(&mut state, buf.as_slice());
        proof {
            let blocks = whole_blocks(tail, 64);
            lemma_fold_blocks_append(
                compress_fn(),
                initial_state(),
                whole_blocks(message, 64),
                blocks,
            );
            let cf = compress_fn();
            if pos + 1 > 56 {
                let one = blocks.drop_last();
                let none = one.drop_last();
                assert(none =~= Seq::<Seq<u8>>::empty());
                assert(fold_blocks(cf, s0, none) == s0);
                assert(one.last() == tail.subrange(0, 64));
                assert(fold_blocks(cf, s0, one) == cf(fold_blocks(cf, s0, none), one.last()));
                assert(cf(s0, tail.subrange(0, 64)) == compress_block(s0, tail.subrange(0, 64)));
                let s1 = compress_block(s0, tail.subrange(0, 64));
                assert(fold_blocks(cf, s0, blocks) == cf(fold_blocks(cf, s0, one), blocks.last()));
                assert(cf(s1, tail.subrange(64, 128)) == compress_block(s1, tail.subrange(64, 128)));
            } else {
                let none = blocks.drop_last();
                assert(none =~= Seq::<Seq<u8>>::empty());
                assert(fold_blocks(cf, s0, none) == s0);
                assert(fold_blocks(cf, s0, blocks) == cf(fold_blocks(cf, s0, none), blocks.last()));
                assert(cf(s0, tail) == compress_block(s0, tail));
            }
            assert(state@ == fold_blocks(compress_fn(), s0, blocks));
            assert(whole_blocks(padded(message), 64) == whole_blocks(message, 64) + blocks);
        }
        let r = words_to_be_bytes(&state);
        proof {
            lemma_words_be_bytes_len(state@);
        }
        r
    }
}

} // verus!
