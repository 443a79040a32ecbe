//! Facts about remainders that the index arithmetic of the rings rests on.
use vstd::arithmetic::div_mod::{
    lemma_fundamental_div_mod, lemma_mod_equivalence, lemma_mod_multiples_basic,
    lemma_mod_multiples_vanish, lemma_small_mod,
};
use vstd::arithmetic::power2::{lemma_pow2_adds, lemma_pow2_pos, pow2};
use vstd::bits::lemma_usize_low_bits_mask_is_mod;
use vstd::bits::low_bits_mask;
use vstd::layout::unsigned_int_max_values;
use vstd::prelude::*;

verus! {

/// Two positions closer together than the modulus fall into different slots.
pub proof fn lemma_mod_distinct(a: int, b: int, m: int)
    requires
        0 < m,
        a < b,
        b - a < m,
    ensures
        a % m != b % m,
{
    lemma_mod_equivalence(b, a, m);
    lemma_small_mod((b - a) as nat, m as nat);
}

/// Adding a whole number of turns does not change the slot.
pub proof fn lemma_mod_turns(x: int, k: int, m: int)
    requires
        0 < m,
    ensures
        (m * k + x) % m == x % m,
{
    lemma_mod_multiples_vanish(k, x, m);
}

/// The number of values of a machine word.
pub open spec fn word() -> int {
    usize::MAX as int + 1
}

/// A power of two below the word size divides the number of word values, so
/// wrapping a position around the word keeps its slot.
pub proof fn lemma_wrap_keeps_slot(k: nat, x: int)
    requires
        k < usize::BITS,
    ensures
        word() % (pow2(k) as int) == 0,
        (x - word()) % (pow2(k) as int) == x % (pow2(k) as int),
        (x + word()) % (pow2(k) as int) == x % (pow2(k) as int),
{
    let l = pow2(k) as int;
    let rest = pow2((usize::BITS - k) as nat) as int;
    unsigned_int_max_values();
    lemma_pow2_pos(k);
    lemma_pow2_adds(k, (usize::BITS - k) as nat);
    assert(word() == rest * l) by (nonlinear_arith)
        requires
            word() == l * rest,
    ;
    lemma_mod_multiples_basic(rest, l);
    lemma_mod_turns(x, -rest, l);
    lemma_mod_turns(x, rest, l);
    assert(l * (-rest) + x == x - word()) by (nonlinear_arith)
        requires
            word() == l * rest,
    ;
}

/// Masking with the low `k` bits picks the slot of `x` among `2^k` slots.
pub proof fn lemma_mask_is_slot(x: usize, k: nat)
    requires
        k < usize::BITS,
    ensures
        (x & (low_bits_mask(k) as usize)) as int == (x as int) % (pow2(k) as int),
        pow2(k) <= usize::MAX,
{
    lemma_usize_low_bits_mask_is_mod(x, k);
    vstd::bits::lemma_usize_pow2_no_overflow(k);
}

} // verus!
