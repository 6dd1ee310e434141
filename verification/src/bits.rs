//! Bitboards: a `u64` read as a set of the squares `0..64`.
use vstd::prelude::*;
use vstd::std_specs::bits::{
    axiom_u64_leading_zeros, axiom_u64_trailing_zeros, u64_leading_zeros, u64_trailing_zeros,
};

verus! {

/// Whether square `sq` belongs to the bitboard `bb`.
#[verifier::opaque]
pub open spec fn on(bb: u64, sq: int) -> bool {
    0 <= sq < 64 && (bb >> (sq as u64)) & 1u64 == 1u64
}

/// The number of squares below `n` that belong to `bb`.
pub open spec fn count_below(bb: u64, n: int) -> int
    decreases n,
{
    if n <= 0 {
        0
    } else {
        count_below(bb, n - 1) + if on(bb, n - 1) {
            1int
        } else {
            0int
        }
    }
}

/// The number of squares in `bb`.
pub open spec fn population(bb: u64) -> int {
    count_below(bb, 64)
}

pub broadcast proof fn lemma_on_range(bb: u64, sq: int)
    requires
        #[trigger] on(bb, sq),
    ensures
        0 <= sq < 64,
{
    reveal(on);
}

pub broadcast proof fn lemma_on_or(a: u64, b: u64, sq: int)
    ensures
        #[trigger] on(a | b, sq) == (on(a, sq) || on(b, sq)),
{
    reveal(on);
    let s = sq as u64;
    assert(((a | b) >> s) & 1u64 == ((a >> s) & 1u64) | ((b >> s) & 1u64)) by (bit_vector);
    let x = (a >> s) & 1u64;
    let y = (b >> s) & 1u64;
    assert((x == 0 || x == 1) && (y == 0 || y == 1)) by (bit_vector)
        requires
            x == (a >> s) & 1u64,
            y == (b >> s) & 1u64,
    ;
    assert(0u64 | 0u64 == 0 && 0u64 | 1u64 == 1 && 1u64 | 0u64 == 1 && 1u64 | 1u64 == 1)
        by (bit_vector);
}

pub broadcast proof fn lemma_on_and(a: u64, b: u64, sq: int)
    ensures
        #[trigger] on(a & b, sq) == (on(a, sq) && on(b, sq)),
{
    reveal(on);
    let s = sq as u64;
    assert((((a & b) >> s) & 1u64 == 1u64) == ((a >> s) & 1u64 == 1u64 && (b >> s) & 1u64 == 1u64))
        by (bit_vector);
}

pub broadcast proof fn lemma_on_xor(a: u64, b: u64, sq: int)
    ensures
        #[trigger] on(a ^ b, sq) == (on(a, sq) != on(b, sq)),
{
    reveal(on);
    let s = sq as u64;
    assert((((a ^ b) >> s) & 1u64 == 1u64) == (((a >> s) & 1u64 == 1u64) != ((b >> s) & 1u64
        == 1u64))) by (bit_vector);
}

pub broadcast proof fn lemma_on_not(a: u64, sq: int)
    ensures
        #[trigger] on(!a, sq) == (0 <= sq < 64 && !on(a, sq)),
{
    reveal(on);
    let s = sq as u64;
    if 0 <= sq < 64 {
        assert((((!a) >> s) & 1u64 == 1u64) == ((a >> s) & 1u64 != 1u64)) by (bit_vector)
            requires
                s < 64,
        ;
    }
}

pub broadcast proof fn lemma_on_empty(sq: int)
    ensures
        !#[trigger] on(0u64, sq),
{
    reveal(on);
    let s = sq as u64;
    assert((0u64 >> s) & 1u64 == 0u64) by (bit_vector);
}

/// `1 << k` holds the square `k` alone.
pub broadcast proof fn lemma_on_single(k: u32, sq: int)
    requires
        k < 64,
    ensures
        #[trigger] on(1u64 << k, sq) == (sq == k),
{
    reveal(on);
    let s = sq as u64;
    if 0 <= sq < 64 {
        assert((((1u64 << k) >> s) & 1u64 == 1u64) == (s == k)) by (bit_vector)
            requires
                s < 64,
                k < 64,
        ;
    }
}

pub broadcast group group_bits {
    lemma_on_range,
    lemma_on_or,
    lemma_on_and,
    lemma_on_xor,
    lemma_on_not,
    lemma_on_empty,
    lemma_on_single,
}

/// Two bitboards with the same squares are the same number.
pub proof fn lemma_ext(a: u64, b: u64)
    requires
        forall|sq: int| 0 <= sq < 64 ==> on(a, sq) == on(b, sq),
    ensures
        a == b,
{
    reveal(on);
    let x = a ^ b;
    axiom_u64_trailing_zeros(x);
    if x != 0 {
        let s = u64_trailing_zeros(x) as u64;
        assert(on(a, s as int) == on(b, s as int));
        assert(false) by (bit_vector)
            requires
                (x >> s) & 1u64 == 1u64,
                x == a ^ b,
                ((a >> s) & 1u64 == 1u64) == ((b >> s) & 1u64 == 1u64),
        ;
    }
    assert(a ^ b == 0 ==> a == b) by (bit_vector);
}

/// A bitboard is zero exactly when it holds no square.
pub proof fn lemma_zero(a: u64)
    ensures
        a == 0 <==> (forall|sq: int| 0 <= sq < 64 ==> !on(a, sq)),
{
    broadcast use group_bits;

    if forall|sq: int| 0 <= sq < 64 ==> !on(a, sq) {
        lemma_ext(a, 0);
    }
}

/// Masking with one square finds out whether it belongs to the bitboard.
pub proof fn lemma_single_hit(a: u64, k: u32)
    requires
        k < 64,
    ensures
        (a & (1u64 << k) != 0) == on(a, k as int),
{
    broadcast use group_bits;

    let hit = a & (1u64 << k);
    lemma_zero(hit);
    assert forall|sq: int| #[trigger] on(hit, sq) == (on(a, sq) && sq == k) by {}
    assert(on(hit, k as int) == on(a, k as int));
}

/// A nonzero bitboard holds the square of its lowest set bit, and none below it.
pub proof fn lemma_lowest(a: u64)
    requires
        a != 0,
    ensures
        0 <= u64_trailing_zeros(a) < 64,
        on(a, u64_trailing_zeros(a) as int),
        forall|sq: int| 0 <= sq < u64_trailing_zeros(a) ==> !on(a, sq),
{
    axiom_u64_trailing_zeros(a);
    reveal(on);
    assert forall|sq: int| 0 <= sq < u64_trailing_zeros(a) implies !on(a, sq) by {
        let j = sq as u64;
        assert((a >> j) & 1u64 == 0u64);
    }
}

/// A nonzero bitboard holds the square of its highest set bit, and none above it.
pub proof fn lemma_highest(a: u64)
    requires
        a != 0,
    ensures
        0 <= u64_leading_zeros(a) < 64,
        on(a, 63 - u64_leading_zeros(a)),
        forall|sq: int| 63 - u64_leading_zeros(a) < sq < 64 ==> !on(a, sq),
{
    axiom_u64_leading_zeros(a);
    reveal(on);
    let t = (63 - u64_leading_zeros(a)) as u64;
    assert((a >> t) & 1u64 == 1u64) by (bit_vector)
        requires
            (a >> t) & 1u64 != 0u64,
    ;
    assert forall|sq: int| 63 - u64_leading_zeros(a) < sq < 64 implies !on(a, sq) by {
        let j = sq as u64;
        assert((a >> j) & 1u64 == 0u64);
    }
}

/// `a & (a - 1)` drops the lowest square of `a`.
pub proof fn lemma_drop_lowest(a: u64)
    requires
        a != 0,
    ensures
        forall|sq: int|
            #[trigger] on(a & ((a - 1) as u64), sq) == (on(a, sq) && sq
                != u64_trailing_zeros(a)),
{
    lemma_lowest(a);
    let t = u64_trailing_zeros(a) as u64;
    axiom_u64_trailing_zeros(a);
    let b = (a - 1) as u64;
    let sh = (64 - t) as u64;
    assert forall|sq: int| #[trigger] on(a & b, sq) == (on(a, sq) && sq != t) by {
        reveal(on);
        let s = sq as u64;
        if 0 <= sq < 64 {
            assert((((a & b) >> s) & 1u64 == 1u64) == ((a >> s) & 1u64 == 1u64 && s != t))
                by (bit_vector)
                requires
                    s < 64,
                    t < 64,
                    a != 0,
                    b == (a - 1) as u64,
                    (a >> t) & 1u64 == 1u64,
                    sh == (64 - t) as u64,
                    a << sh == 0,
            ;
        }
    }
}

/// Dropping the lowest square takes one from the population.
proof fn lemma_count_drop(a: u64, b: u64, t: int, n: int)
    requires
        on(a, t),
        forall|sq: int| #[trigger] on(b, sq) == (on(a, sq) && sq != t),
    ensures
        count_below(b, n) == count_below(a, n) - if t < n {
            1int
        } else {
            0int
        },
    decreases n,
{
    broadcast use group_bits;

    if n > 0 {
        lemma_count_drop(a, b, t, n - 1);
    }
}

proof fn lemma_count_zero(n: int)
    ensures
        count_below(0u64, n) == 0,
    decreases n,
{
    broadcast use group_bits;

    if n > 0 {
        lemma_count_zero(n - 1);
    }
}

pub proof fn lemma_count_bounds(a: u64, n: int)
    requires
        0 <= n,
    ensures
        0 <= count_below(a, n) <= n,
    decreases n,
{
    if n > 0 {
        lemma_count_bounds(a, n - 1);
    }
}

/// The number of squares in `bb`.
pub fn count(bb: u64) -> (n: u32)
    ensures
        n == population(bb),
        n <= 64,
{
    let mut rest: u64 = bb;
    let mut n: u32 = 0;
    proof {
        lemma_count_bounds(bb, 64);
    }
    while rest != 0
        invariant
            n + population(rest) == population(bb),
            0 <= population(bb) <= 64,
        decreases population(rest),
    {
        let ghost prev = rest;
        proof {
            lemma_lowest(rest);
            lemma_drop_lowest(rest);
            lemma_count_drop(
                rest,
                rest & ((rest - 1) as u64),
                u64_trailing_zeros(rest) as int,
                64,
            );
            lemma_count_bounds(rest & ((rest - 1) as u64), 64);
        }
        rest = rest & (rest - 1);
        n = n + 1;
    }
    proof {
        lemma_count_zero(64);
    }
    n
}

} // verus!
