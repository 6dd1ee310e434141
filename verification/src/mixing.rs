//! Steps that lose nothing: from what they give, what they were given can be told.
use vstd::arithmetic::div_mod::{
    lemma_mul_mod_noop_left, lemma_mul_mod_noop_right, lemma_small_mod,
};
use vstd::prelude::*;

verus! {

/// How many words of sixty-four bits there are.
pub open spec fn words64() -> int {
    0x1_0000_0000_0000_0000
}

/// A factor with an inverse can be undone, to the word.
pub proof fn lemma_factor_undone(x: int, c: int, inverse: int)
    requires
        (c * inverse) % words64() == 1,
    ensures
        ((x * c) % words64() * inverse) % words64() == x % words64(),
{
    lemma_mul_mod_noop_left(x * c, inverse, words64());
    assert(x * c * inverse == x * (c * inverse)) by (nonlinear_arith);
    lemma_mul_mod_noop_right(x, c * inverse, words64());
}

pub proof fn lemma_product_undone(x: u64, y: u64, c: u64, inverse: u64)
    requires
        (c as int * inverse as int) % words64() == 1,
        x.wrapping_mul(c) == y.wrapping_mul(c),
    ensures
        x == y,
{
    lemma_factor_undone(x as int, c as int, inverse as int);
    lemma_factor_undone(y as int, c as int, inverse as int);
    lemma_small_mod(x as nat, words64() as nat);
    lemma_small_mod(y as nat, words64() as nat);
}

/// Folding the high bits onto the low ones can be undone.
pub proof fn lemma_folds_undone(x: u64, y: u64)
    by (bit_vector)
    ensures
        x ^ (x >> 27u64) == y ^ (y >> 27u64) ==> x == y,
        x ^ (x >> 30u64) == y ^ (y >> 30u64) ==> x == y,
        x ^ (x >> 31u64) == y ^ (y >> 31u64) ==> x == y,
        x ^ (x >> 33u64) == y ^ (y >> 33u64) ==> x == y,
        x ^ (x >> 27u64) == 0 ==> x == 0,
        x ^ (x >> 30u64) == 0 ==> x == 0,
        x ^ (x >> 31u64) == 0 ==> x == 0,
{
}

/// What is combined by exclusive or can be taken out again.
pub proof fn lemma_xor(x: u64, y: u64, z: u64)
    by (bit_vector)
    ensures
        x ^ z == y ^ z ==> x == y,
        z ^ x == z ^ y ==> x == y,
        x ^ y == x ==> y == 0,
        x ^ y == y ^ x,
        (x ^ y) ^ z == x ^ (y ^ z),
        (x ^ y) ^ y == x,
        (x ^ y) ^ z == (x ^ z) ^ y,
        x ^ y == 0 ==> x == y,
        x ^ 0 == x,
{
}

} // verus!
