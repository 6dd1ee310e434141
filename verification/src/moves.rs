//! Moves packed into sixteen bits: from-square, to-square and a flag.
use vstd::prelude::*;

verus! {

pub const WHITE: usize = 0;

pub const BLACK: usize = 1;

pub const PAWN: usize = 0;

pub const KNIGHT: usize = 1;

pub const BISHOP: usize = 2;

pub const ROOK: usize = 3;

pub const QUEEN: usize = 4;

pub const KING: usize = 5;

pub const F_QUIET: u16 = 0;

pub const F_DOUBLE: u16 = 1;

pub const F_KCASTLE: u16 = 2;

pub const F_QCASTLE: u16 = 3;

pub const F_CAPTURE: u16 = 4;

pub const F_EP: u16 = 5;

pub const F_PROMO_N: u16 = 8;

pub const F_PROMO_Q: u16 = 11;

/// The move word for a from-square, a to-square and a flag.
pub open spec fn encode(from: int, to: int, flag: int) -> u16 {
    (from + to * 64 + flag * 4096) as u16
}

pub open spec fn from_of(m: u16) -> int {
    m as int % 64
}

pub open spec fn to_of(m: u16) -> int {
    m as int / 64 % 64
}

pub open spec fn flag_of(m: u16) -> int {
    m as int / 4096
}

pub open spec fn is_capture(m: u16) -> bool {
    flag_of(m) / 4 % 2 == 1
}

pub open spec fn is_promotion(m: u16) -> bool {
    flag_of(m) >= 8
}

/// The kind a pawn becomes: knight, bishop, rook or queen by the low two bits of the flag.
pub open spec fn promoted_kind(m: u16) -> int {
    flag_of(m) % 4 + 1
}

/// Packing and unpacking are inverse to each other: every in-range triple comes back from
/// its move word, and every move word is the one of its parts.
pub proof fn law_move_word_round_trip(from: int, to: int, flag: int, m: u16)
    requires
        0 <= from < 64,
        0 <= to < 64,
        0 <= flag < 16,
    ensures
        from_of(encode(from, to, flag)) == from,
        to_of(encode(from, to, flag)) == to,
        flag_of(encode(from, to, flag)) == flag,
        encode(from_of(m), to_of(m), flag_of(m)) == m,
{
}

/// Packs a move.
#[inline(always)]
pub fn mv(from: u32, to: u32, flag: u16) -> (m: u16)
    ensures
        m == (from as u16) | ((to as u16) << 6u16) | (flag << 12u16),
        from < 64 && to < 64 && flag < 16 ==> m == encode(from as int, to as int, flag as int),
{
    proof {
        let f = from as u16;
        let t = to as u16;
        if from < 64 && to < 64 && flag < 16 {
            assert(f | (t << 6u16) | (flag << 12u16) == f + t * 64 + flag * 4096) by (bit_vector)
                requires
                    f < 64,
                    t < 64,
                    flag < 16,
            ;
        }
    }
    #[verifier::truncate]
    let f = from as u16;
    #[verifier::truncate]
    let t = to as u16;
    f | (t << 6) | (flag << 12)
}

#[inline(always)]
pub fn mv_from(m: u16) -> (r: u32)
    ensures
        r == from_of(m),
        r < 64,
{
    assert(m & 63u16 == m % 64) by (bit_vector);
    (m & 63) as u32
}

#[inline(always)]
pub fn mv_to(m: u16) -> (r: u32)
    ensures
        r == to_of(m),
        r < 64,
{
    assert((m >> 6u16) & 63u16 == (m / 64) % 64) by (bit_vector);
    ((m >> 6) & 63) as u32
}

#[inline(always)]
pub fn mv_flag(m: u16) -> (r: u16)
    ensures
        r == flag_of(m),
        r < 16,
{
    assert(m >> 12u16 == m / 4096) by (bit_vector);
    m >> 12
}

#[inline(always)]
pub fn mv_is_cap(m: u16) -> (r: bool)
    ensures
        r == is_capture(m),
{
    assert(((m >> 12u16) & 4u16 != 0) == ((m / 4096) / 4 % 2 == 1)) by (bit_vector);
    (m >> 12) & 4 != 0
}

#[inline(always)]
pub fn mv_is_promo(m: u16) -> (r: bool)
    ensures
        r == is_promotion(m),
{
    assert(((m >> 12u16) & 8u16 != 0) == (m / 4096 >= 8)) by (bit_vector);
    (m >> 12) & 8 != 0
}

#[inline(always)]
pub fn mv_promo_piece(m: u16) -> (r: usize)
    ensures
        r == promoted_kind(m),
        1 <= r <= 4,
{
    assert((m >> 12u16) & 3u16 == (m / 4096) % 4) by (bit_vector);
    (((m >> 12) & 3) + 1) as usize
}

} // verus!
