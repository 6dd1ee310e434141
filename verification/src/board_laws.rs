//! What the bits of a board stand for.
use vstd::prelude::*;

use crate::bits::{
    count_below, lemma_on_and, lemma_on_empty, lemma_on_not, lemma_on_single, lemma_single_hit, on,
    population,
};
use crate::board::{rights_of, Board};
use crate::geometry::{dist, is_square, on_ray, strictly_between};
use crate::movement_laws::{diagonal, lemma_on_the_way, on_the_way, straight};
use crate::position::Man;

verus! {

/// A square is on a bitboard just when its bit is set: a1 is the lowest, h8 the highest.
pub proof fn law_a_bit_is_a_square(bb: u64, s: u32)
    requires
        s < 64,
    ensures
        on(bb, s as int) <==> bb & (1u64 << s) != 0,
{
    lemma_single_hit(bb, s);
}

proof fn lemma_counts(a: u64, b: u64, s: int, n: int)
    requires
        is_square(s),
        0 <= n <= 64,
        forall|t: int| is_square(t) ==> #[trigger] on(b, t) == (on(a, t) && t != s),
        on(a, s),
    ensures
        count_below(b, n) == count_below(a, n) - if s < n {
            1int
        } else {
            0
        },
    decreases n,
{
    if n > 0 {
        lemma_counts(a, b, s, n - 1);
        assert(on(b, n - 1) == (on(a, n - 1) && n - 1 != s));
    }
}

proof fn lemma_none(n: int)
    requires
        0 <= n <= 64,
    ensures
        count_below(0, n) == 0,
    decreases n,
{
    if n > 0 {
        lemma_none(n - 1);
        lemma_on_empty(n - 1);
    }
}

/// Taking a square off a bitboard that it is on makes its count one less, and an empty one
/// counts none.
pub proof fn law_squares_are_counted(bb: u64, s: u32)
    requires
        s < 64,
        bb & (1u64 << s) != 0,
    ensures
        population(0) == 0,
        population(bb & !(1u64 << s)) == population(bb) - 1,
{
    let b = bb & !(1u64 << s);
    lemma_none(64);
    law_a_bit_is_a_square(bb, s);
    assert forall|t: int| is_square(t) implies #[trigger] on(b, t) == (on(bb, t) && t != s) by {
        lemma_on_and(bb, !(1u64 << s), t);
        lemma_on_not(1u64 << s, t);
        lemma_on_single(s, t);
    }
    lemma_counts(bb, b, s as int, 64);
}

/// A man of a colour and a kind stands on a square just when the square is on the bitboards of
/// both, and nothing does when it is on no colour's.
pub proof fn law_bitboards_hold_the_men(b: Board, s: int, c: int, k: int)
    requires
        b.wf(),
        is_square(s),
        0 <= c < 2,
        0 <= k < 6,
    ensures
        b@.at.len() == 64,
        b@.at[s] == Some(Man { color: c, kind: k }) <==> on(b.colors@[c], s) && on(b.pieces@[k], s),
        b@.at[s] is None <==> !on(b.colors@[0], s) && !on(b.colors@[1], s),
        b@.stm == b.stm,
        b@.ep == b.ep,
        b@.halfmove == b.halfmove,
{
    assert(on(b.pieces@[k], s) == (b.mailbox@[s] == k));
    assert((on(b.colors@[0], s) || on(b.colors@[1], s)) == (b.mailbox@[s] < 6));
    assert(!(on(b.colors@[0], s) && on(b.colors@[1], s)));
    assert(b@.at[s] == b.man_on(s));
}

/// The rights to castle are the four low bits: White's to the king's side and to the queen's,
/// then Black's.
pub proof fn law_rights_are_bits(castle: u8)
    ensures
        rights_of(castle).wk <==> castle as int % 2 == 1,
        rights_of(castle).wq <==> castle as int / 2 % 2 == 1,
        rights_of(castle).bk <==> castle as int / 4 % 2 == 1,
        rights_of(castle).bq <==> castle as int / 8 % 2 == 1,
{
    assert((castle & 1u8 != 0) == (castle % 2 == 1) && (castle & 2u8 != 0) == (castle / 2 % 2 == 1)
        && (castle & 4u8 != 0) == (castle / 4 % 2 == 1) && (castle & 8u8 != 0) == (castle / 8 % 2
        == 1)) by (bit_vector);
}

/// A square lies between two others just when they share a file, a rank or a diagonal and it is
/// on the way from one to the other; and it lies between them either way.
pub proof fn law_squares_between(a: int, b: int, x: int)
    requires
        is_square(a),
        is_square(b),
        is_square(x),
    ensures
        strictly_between(a, b, x) <==> on_the_way(a, x, b),
        strictly_between(a, b, x) <==> strictly_between(b, a, x),
        strictly_between(a, b, x) ==> straight(a, b) || diagonal(a, b),
{
    lemma_between(a, b, x);
    lemma_between(b, a, x);
}

proof fn lemma_between(a: int, b: int, x: int)
    requires
        is_square(a),
        is_square(b),
        is_square(x),
    ensures
        strictly_between(a, b, x) <==> on_the_way(a, x, b),
{
    if strictly_between(a, b, x) {
        let d = choose|d: int|
            0 <= d < 8 && #[trigger] on_ray(a, d, b) && on_ray(a, d, x) && dist(a, x) < dist(a, b);
        lemma_on_the_way(a, d, b, x);
    }
    if on_the_way(a, x, b) {
        let df = b % 8 - a % 8;
        let dr = b / 8 - a / 8;
        let d = if df == 0 {
            if dr > 0 {
                0int
            } else {
                4
            }
        } else if dr == 0 {
            if df > 0 {
                2int
            } else {
                6
            }
        } else if df > 0 {
            if dr > 0 {
                1int
            } else {
                3
            }
        } else {
            if dr > 0 {
                7int
            } else {
                5
            }
        };
        assert(on_ray(a, d, b));
        lemma_on_the_way(a, d, b, x);
    }
}

} // verus!
