//! The number of bits that a symbol drawn from a table of a given size can
//! carry.

use vstd::prelude::*;
use vstd::arithmetic::logarithm::{lemma_log0, lemma_log_nonnegative, lemma_log_s, log};
use vstd::arithmetic::power2::{lemma_pow2_unfold, pow2};

verus! {

/// The widest symbol width, in bits, all of whose values index a table of
/// `size` entries: the integer logarithm of `size` to base two, and zero for
/// an empty table.
pub open spec fn storable_bits(size: nat) -> nat {
    log(2, size as int) as nat
}

/// Halving a size of at least two takes one bit off its width.
pub proof fn lemma_storable_bits_halves(size: nat)
    ensures
        size < 2 ==> storable_bits(size) == 0,
        size >= 2 ==> storable_bits(size) == 1 + storable_bits(size / 2),
{
    if size < 2 {
        lemma_log0(2, size as int);
    } else {
        lemma_log_s(2, size as int);
        lemma_log_nonnegative(2, size as int / 2);
    }
}

/// For a table that is not empty, the width `w` satisfies
/// `2^w <= size < 2^(w + 1)`.
pub proof fn lemma_storable_bits_bounds(size: nat)
    requires
        size >= 1,
    ensures
        pow2(storable_bits(size)) <= size < pow2(storable_bits(size) + 1),
    decreases size,
{
    lemma_storable_bits_halves(size);
    if size < 2 {
        vstd::arithmetic::power2::lemma2_to64();
    } else {
        lemma_storable_bits_bounds(size / 2);
        lemma_pow2_unfold(storable_bits(size));
        lemma_pow2_unfold(storable_bits(size) + 1);
    }
}

/// No wider symbol fits: any `w` with `2^w <= size` is at most the width.
pub proof fn lemma_storable_bits_widest(size: nat, w: nat)
    requires
        pow2(w) <= size,
    ensures
        w <= storable_bits(size),
{
    vstd::arithmetic::power2::lemma_pow2_pos(w);
    lemma_storable_bits_bounds(size);
    if w > storable_bits(size) {
        if w > storable_bits(size) + 1 {
            vstd::arithmetic::power2::lemma_pow2_strictly_increases(storable_bits(size) + 1, w);
        }
    }
}

/// Every symbol of the width indexes the table, and so does every symbol of
/// a narrower width.
pub proof fn lemma_symbols_index_table(size: nat, w: nat, symbol: nat)
    requires
        size >= 1,
        w <= storable_bits(size),
        symbol < pow2(w),
    ensures
        symbol < size,
{
    lemma_storable_bits_bounds(size);
    if w < storable_bits(size) {
        vstd::arithmetic::power2::lemma_pow2_strictly_increases(w, storable_bits(size));
    }
}

/// Computes the width for a table of `size` entries.
pub fn floor_log2(size: usize) -> (w: u32)
    ensures
        w == storable_bits(size as nat),
        w < usize::BITS,
{
    let mut rest: usize = size;
    let mut w: u32 = 0;
    proof {
        lemma_storable_bits_halves(size as nat);
        vstd::arithmetic::power2::lemma2_to64();
    }
    while rest >= 2
        invariant
            storable_bits(size as nat) == w + storable_bits(rest as nat),
            rest * pow2(w as nat) <= size,
            w < usize::BITS,
        decreases rest,
    {
        proof {
            lemma_storable_bits_halves(rest as nat);
            lemma_pow2_unfold((w + 1) as nat);
            assert((rest / 2) * pow2((w + 1) as nat) <= rest * pow2(w as nat)) by (nonlinear_arith)
                requires
                    pow2((w + 1) as nat) == 2 * pow2(w as nat),
            ;
            if w + 1 >= usize::BITS {
                vstd::arithmetic::power2::lemma_pow2_strictly_increases(
                    (usize::BITS - 1) as nat,
                    (w + 1) as nat,
                );
                lemma_pow2_unfold(usize::BITS as nat);
                vstd::arithmetic::power2::lemma2_to64();
                vstd::arithmetic::power2::lemma2_to64_rest();
                assert(1 * pow2((w + 1) as nat) <= (rest / 2) * pow2((w + 1) as nat))
                    by (nonlinear_arith)
                    requires
                        rest / 2 >= 1,
                ;
            }
        }
        rest = rest / 2;
        w = w + 1;
    }
    proof {
        lemma_storable_bits_halves(rest as nat);
    }
    w
}

} // verus!
