//! The engine behind a hash function, and a wrapper that truncates its
//! output.
use vstd::prelude::*;

use crate::block_buffer::BlockUser;
use crate::hash::{Digest, DigestUser, InsufficientMemoryError};

verus! {

/// A hash function's engine: it absorbs a message piece by piece and gives
/// the digest of all it absorbed.
pub trait HasherCore: DigestUser + Sized {
    /// The full, untruncated digest of `message`, for the engine made for a
    /// digest truncated to `truncated_bits` bits.
    spec fn full_digest(truncated_bits: nat, message: Seq<u8>) -> Seq<u8>;

    /// The engine's invariant.
    spec fn wf(&self) -> bool;

    /// The bytes absorbed so far.
    spec fn message(&self) -> Seq<u8>;

    /// The digest length, in bits, the engine was made for.
    spec fn truncated_bits(&self) -> nat;

    /// An engine that has absorbed nothing, for a digest truncated to
    /// `truncated_digest_len_bit` bits.
    fn new(truncated_digest_len_bit: usize) -> (r: Self)
        ensures
            r.wf(),
            r.message() == Seq::<u8>::empty(),
            r.truncated_bits() == truncated_digest_len_bit,
    ;

    /// Absorbs `data`.
    fn compress(&mut self, data: &[u8])
        requires
            old(self).wf(),
            old(self).message().len() + data@.len() <= u64::MAX,
        ensures
            final(self).wf(),
            final(self).message() == old(self).message() + data@,
            final(self).truncated_bits() == old(self).truncated_bits(),
    ;

    /// The full, untruncated digest of the bytes absorbed.
    fn finalize(&mut self) -> (r: Vec<u8>)
        requires
            old(self).wf(),
        ensures
            final(self).wf(),
            final(self).message() == old(self).message(),
            final(self).truncated_bits() == old(self).truncated_bits(),
            r@ == Self::full_digest(old(self).truncated_bits(), old(self).message()),
            r@.len() == Self::DIGEST_SIZE,
    ;
}

} // verus!

verus! {

/// Wraps a hash engine and truncates its output to `DIGEST_SIZE_BIT` bits.
pub struct Hasher<Core: HasherCore, const DIGEST_SIZE_BIT: usize> {
    /// The hashing engine.
    core: Core,
}

impl<Core: HasherCore + BlockUser, const DIGEST_SIZE_BIT: usize> BlockUser for Hasher<Core, DIGEST_SIZE_BIT> {
    const BLOCK_SIZE: usize = Core::BLOCK_SIZE;
}

impl<Core: HasherCore, const DIGEST_SIZE_BIT: usize> DigestUser for Hasher<Core, DIGEST_SIZE_BIT> {
    const DIGEST_SIZE: usize = DIGEST_SIZE_BIT / 8;
}

/// Writes `digest` over the start of `out`.
fn copy_into(out: &mut [u8], digest: &Vec<u8>)
    requires
        digest@.len() <= old(out)@.len(),
    ensures
        final(out)@ == digest@ + old(out)@.subrange(digest@.len() as int, old(out)@.len() as int),
{
    let mut i: usize = 0;
    while i < digest.len()
        invariant
            i <= digest@.len() <= out@.len(),
            out@.len() == old(out)@.len(),
            out@.subrange(0, i as int) == digest@.subrange(0, i as int),
            out@.subrange(i as int, out@.len() as int) == old(out)@.subrange(i as int, old(out)@.len() as int),
        decreases digest@.len() - i,
    {
        let ghost prev = out@;
        out[i] = digest[i];
        proof {
            assert(out@.subrange(0, i + 1) =~= digest@.subrange(0, i + 1)) by {
                assert forall|k: int| 0 <= k < i implies out@[k] == digest@[k] by {
                    assert(prev.subrange(0, i as int)[k] == prev[k]);
                }
            }
            assert(out@.subrange(i + 1, out@.len() as int) =~= old(out)@.subrange(i + 1, old(out)@.len() as int)) by {
                assert forall|k: int| i + 1 <= k < out@.len() implies out@[k] == old(out)@[k] by {
                    assert(prev.subrange(i as int, prev.len() as int)[k - i] == prev[k]);
                }
            }
        }
        i = i + 1;
    }
    assert(out@ =~= digest@ + old(out)@.subrange(digest@.len() as int, old(out)@.len() as int)) by {
        assert forall|k: int| 0 <= k < digest@.len() implies out@[k] == digest@[k] by {
            assert(out@.subrange(0, i as int)[k] == out@[k]);
        }
        assert forall|k: int| digest@.len() <= k < out@.len() implies out@[k] == old(out)@[k] by {
            assert(out@.subrange(i as int, out@.len() as int)[k - i] == out@[k]);
        }
    }
}

/// The first `n` bytes of `full`.
fn truncate(full: &Vec<u8>, n: usize) -> (r: Vec<u8>)
    requires
        n <= full@.len(),
    ensures
        r@ == full@.subrange(0, n as int),
{
    let mut r: Vec<u8> = Vec::new();
    let mut i: usize = 0;
    while i < n
        invariant
            i <= n <= full@.len(),
            r@ == full@.subrange(0, i as int),
        decreases n - i,
    {
        r.push(full[i]);
        i = i + 1;
        assert(r@ =~= full@.subrange(0, i as int));
    }
    r
}

impl<Core: HasherCore, const DIGEST_SIZE_BIT: usize> Digest for Hasher<Core, DIGEST_SIZE_BIT> {
    open spec fn valid() -> bool {
        DIGEST_SIZE_BIT / 8 <= Core::DIGEST_SIZE
    }

    open spec fn digest_of(message: Seq<u8>) -> Seq<u8> {
        Core::full_digest(DIGEST_SIZE_BIT as nat, message).subrange(0, (DIGEST_SIZE_BIT / 8) as int)
    }

    closed spec fn wf(&self) -> bool {
        &&& Self::valid()
        &&& self.core.wf()
        &&& self.core.truncated_bits() == DIGEST_SIZE_BIT
    }

    closed spec fn message(&self) -> Seq<u8> {
        self.core.message()
    }

    fn new() -> (r: Self) {
        Hasher { core: Core::new(DIGEST_SIZE_BIT) }
    }

    fn reset(&mut self) {
        *self = Self::new();
    }

    fn update(self, data: &[u8]) -> (r: Self) {
        let mut this = self;
        this.core.compress(data);
        this
    }

    fn update_in_place(&mut self, data: &[u8]) {
        self.core.compress(data);
    }

    fn digest(self) -> (r: Vec<u8>) {
        let mut this = self;
        let full_digest = this.core.finalize();
        truncate(&full_digest, DIGEST_SIZE_BIT / 8)
    }

    fn digest_into(self, out: &mut [u8]) -> (r: Result<(), InsufficientMemoryError>) {
        if out.len() < DIGEST_SIZE_BIT / 8 {
            return Err(InsufficientMemoryError);
        }
        let mut this = self;
        let full_digest = this.core.finalize();
        copy_into(out, &truncate(&full_digest, DIGEST_SIZE_BIT / 8));
        Ok(())
    }

    fn digest_reset(&mut self) -> (r: Vec<u8>) {
        let full_digest = self.core.finalize();
        self.reset();
        truncate(&full_digest, DIGEST_SIZE_BIT / 8)
    }

    fn digest_into_reset(&mut self, out: &mut [u8]) -> (r: Result<(), InsufficientMemoryError>) {
        if out.len() < DIGEST_SIZE_BIT / 8 {
            return Err(InsufficientMemoryError);
        }
        let full_digest = self.core.finalize();
        self.reset();
        copy_into(out, &truncate(&full_digest, DIGEST_SIZE_BIT / 8));
        Ok(())
    }
}

} // verus!
