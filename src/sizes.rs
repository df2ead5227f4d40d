//! Block sizes, orders and the arithmetic facts about them.
use vstd::prelude::*;

verus! {

/// Smallest block the allocator hands out, in bytes: room for the two links
/// of a free-list node on a 64-bit target.
pub const MIN_BLOCK_SIZE: usize = 16;

/// Base-two logarithm of `MIN_BLOCK_SIZE`.
pub const BASE_ORDER: usize = 4;

/// Two to the power `e`.
pub open spec fn pow2(e: nat) -> nat
    decreases e,
{
    if e == 0 {
        1
    } else {
        2 * pow2((e - 1) as nat)
    }
}

/// Size in bytes of a block of order `order`.
pub open spec fn block_size(order: nat) -> nat {
    MIN_BLOCK_SIZE as nat * pow2(order)
}

/// Number of trailing zero bits of a positive integer.
pub open spec fn trailing_zeros(m: nat) -> nat
    decreases m,
{
    if m == 0 || m % 2 == 1 {
        0
    } else {
        1 + trailing_zeros(m / 2)
    }
}

pub proof fn lemma_pow2_pos(e: nat)
    ensures
        pow2(e) >= 1,
    decreases e,
{
    if e > 0 {
        lemma_pow2_pos((e - 1) as nat);
    }
}

/// Each order's blocks are twice as large as the previous order's.
pub proof fn lemma_block_size_next(j: nat)
    ensures
        block_size(j + 1) == 2 * block_size(j),
        block_size(j) >= MIN_BLOCK_SIZE,
        block_size(0) == MIN_BLOCK_SIZE,
{
    lemma_pow2_pos(j);
    assert(pow2(j + 1) == 2 * pow2(j));
    assert(block_size(j + 1) == 16 * (2 * pow2(j)));
    assert(16 * (2 * pow2(j)) == 2 * (16 * pow2(j))) by (nonlinear_arith);
    assert(16 * pow2(j) >= 16) by (nonlinear_arith)
        requires
            pow2(j) >= 1,
    ;
}

/// A block size divides every larger block size.
pub proof fn lemma_block_size_divides(i: nat, j: nat)
    requires
        i <= j,
    ensures
        block_size(i) <= block_size(j),
        block_size(j) % block_size(i) == 0,
    decreases j - i,
{
    lemma_block_size_next(i);
    if i < j {
        lemma_block_size_divides(i, (j - 1) as nat);
        lemma_block_size_next((j - 1) as nat);
        let a = block_size(i) as int;
        let b = block_size((j - 1) as nat) as int;
        assert(b % a == 0);
        assert((2 * b) % a == 0) by {
            vstd::arithmetic::div_mod::lemma_mod_multiples_vanish(b / a, b, a);
            vstd::arithmetic::div_mod::lemma_fundamental_div_mod(b, a);
            assert(2 * b == a * (2 * (b / a))) by (nonlinear_arith)
                requires
                    b == a * (b / a),
            ;
            vstd::arithmetic::div_mod::lemma_mod_multiples_basic(2 * (b / a), a);
        }
    }
}

/// An address aligned to a block size is aligned to every smaller one.
pub proof fn lemma_aligned_smaller(a: int, i: nat, j: nat)
    requires
        i <= j,
        a % (block_size(j) as int) == 0,
    ensures
        a % (block_size(i) as int) == 0,
{
    lemma_block_size_divides(i, j);
    lemma_block_size_next(i);
    let s = block_size(i) as int;
    let b = block_size(j) as int;
    vstd::arithmetic::div_mod::lemma_fundamental_div_mod(b, s);
    vstd::arithmetic::div_mod::lemma_fundamental_div_mod(a, b);
    assert(a == s * ((b / s) * (a / b))) by (nonlinear_arith)
        requires
            b == s * (b / s),
            a == b * (a / b),
    ;
    vstd::arithmetic::div_mod::lemma_mod_multiples_basic((b / s) * (a / b), s);
}

/// The two halves of an aligned block: an address aligned to `s` is either
/// aligned to `2 s`, or sits `s` above an address that is.
pub proof fn lemma_halves(a: int, s: int)
    requires
        s > 0,
        a >= 0,
        a % s == 0,
    ensures
        a % (2 * s) == 0 ==> (a + s) % s == 0,
        a % (2 * s) != 0 ==> a >= s && (a - s) % (2 * s) == 0,
        (a + s) % s == 0,
{
    vstd::arithmetic::div_mod::lemma_fundamental_div_mod(a, 2 * s);
    vstd::arithmetic::div_mod::lemma_fundamental_div_mod(a, s);
    let q = a / (2 * s);
    let r = a % (2 * s);
    vstd::arithmetic::div_mod::lemma_mod_bound(a, 2 * s);
    vstd::arithmetic::div_mod::lemma_mod_add_multiples_vanish(a, s);
    if r != 0 {
        // r is a multiple of s below 2 s, so it is s
        assert(r % s == 0) by {
            vstd::arithmetic::div_mod::lemma_mod_mod(a, s, 2);
            assert(2 * s == s * 2) by (nonlinear_arith);
            vstd::arithmetic::div_mod::lemma_mod_mod(a, s, 2);
            assert((a % (s * 2)) % s == a % s);
        }
        vstd::arithmetic::div_mod::lemma_fundamental_div_mod(r, s);
        assert(r == s) by (nonlinear_arith)
            requires
                r == s * (r / s),
                0 < r < 2 * s,
                s > 0,
        ;
        assert(a - s == 2 * s * q);
        vstd::arithmetic::div_mod::lemma_mod_multiples_basic(q, 2 * s);
        assert(q * (2 * s) == 2 * s * q) by (nonlinear_arith);
        assert(a >= s) by (nonlinear_arith)
            requires
                a == 2 * s * q + s,
                q >= 0 || a >= 0,
                s > 0,
                a >= 0,
        ;
    }
}

/// The number of orders of an allocator whose largest block is
/// `max_block_size` bytes: the trailing zero bits of the size, less
/// `BASE_ORDER`, plus one.
pub fn order_from_max_block_size(max_block_size: usize) -> (r: usize)
    requires
        max_block_size > 0,
        max_block_size % MIN_BLOCK_SIZE == 0,
    ensures
        r == trailing_zeros(max_block_size as nat) - BASE_ORDER + 1,
        forall|k: nat| max_block_size == block_size(k) ==> r == k + 1,
{
    let mut m: usize = max_block_size;
    let mut zeros: usize = 0;
    while m % 2 == 0
        invariant
            m > 0,
            pow2(zeros as nat) <= max_block_size,
            zeros + trailing_zeros(m as nat) == trailing_zeros(max_block_size as nat),
            m as nat * pow2(zeros as nat) == max_block_size as nat,
        decreases m,
    {
        proof {
            assert(pow2(zeros as nat + 1) == 2 * pow2(zeros as nat));
            assert((m / 2) as nat * pow2(zeros as nat + 1) == m as nat * pow2(zeros as nat)) by (nonlinear_arith)
                requires
                    m % 2 == 0,
                    pow2(zeros as nat + 1) == 2 * pow2(zeros as nat),
            ;
            lemma_pow2_pos(zeros as nat);
            lemma_pow2_ge(zeros as nat);
            assert((m / 2) as nat * pow2(zeros as nat + 1) >= pow2(zeros as nat + 1)) by (nonlinear_arith)
                requires
                    m / 2 > 0,
            ;
        }
        m = m / 2;
        zeros = zeros + 1;
    }
    proof {
        lemma_trailing_zeros_ge4(max_block_size as nat);
        assert forall|k: nat| max_block_size == block_size(k) implies zeros == k + BASE_ORDER by {
            lemma_trailing_zeros_block_size(k);
        }
    }
    zeros - BASE_ORDER + 1
}

proof fn lemma_pow2_ge(e: nat)
    ensures
        pow2(e) >= e + 1,
    decreases e,
{
    if e > 0 {
        lemma_pow2_ge((e - 1) as nat);
        lemma_pow2_pos((e - 1) as nat);
    }
}

proof fn lemma_trailing_zeros_ge4(m: nat)
    requires
        m > 0,
        m % 16 == 0,
    ensures
        trailing_zeros(m) >= 4,
{
    assert(trailing_zeros(m) == 1 + trailing_zeros(m / 2));
    assert(trailing_zeros(m / 2) == 1 + trailing_zeros(m / 4));
    assert(trailing_zeros(m / 4) == 1 + trailing_zeros(m / 8)) by {
        assert((m / 4) % 2 == 0);
        assert((m / 4) / 2 == m / 8);
    }
    assert(trailing_zeros(m / 8) == 1 + trailing_zeros(m / 16)) by {
        assert((m / 8) % 2 == 0);
        assert((m / 8) / 2 == m / 16);
    }
}

proof fn lemma_trailing_zeros_block_size(k: nat)
    ensures
        trailing_zeros(block_size(k)) == k + 4,
    decreases k,
{
    lemma_block_size_next(k);
    if k == 0 {
        assert(trailing_zeros(1) == 0);
        assert(trailing_zeros(2) == 1);
        assert(trailing_zeros(4) == 2);
        assert(trailing_zeros(8) == 3);
        assert(trailing_zeros(16) == 4);
    } else {
        lemma_trailing_zeros_block_size((k - 1) as nat);
        lemma_block_size_next((k - 1) as nat);
        let b = block_size(k);
        assert(b % 2 == 0 && b > 0);
        assert(b / 2 == block_size((k - 1) as nat));
    }
}

} // verus!
