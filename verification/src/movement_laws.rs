//! How men move, said in files and ranks: for every man, on every square, for either side.
use vstd::prelude::*;

use crate::geometry::{dist, is_square, lemma_ray_square, on_ray, ray_inside, ray_square, slides};
use crate::position::{Man, Pos};
use crate::tables::{bishop_reaches, rook_reaches};

verus! {

/// Whether `x` lies strictly between two numbers, in whichever order they are given.
pub open spec fn inside(x: int, a: int, b: int) -> bool {
    a < x < b || b < x < a
}

/// Whether `t` lies between the squares `a` and `b` of one file, one rank or one diagonal.
pub open spec fn on_the_way(a: int, t: int, b: int) -> bool {
    ||| a % 8 == b % 8 && t % 8 == a % 8 && inside(t / 8, a / 8, b / 8)
    ||| a / 8 == b / 8 && t / 8 == a / 8 && inside(t % 8, a % 8, b % 8)
    ||| b % 8 - a % 8 == b / 8 - a / 8 && t % 8 - a % 8 == t / 8 - a / 8 && inside(
        t % 8,
        a % 8,
        b % 8,
    )
    ||| b % 8 - a % 8 == a / 8 - b / 8 && t % 8 - a % 8 == a / 8 - t / 8 && inside(
        t % 8,
        a % 8,
        b % 8,
    )
}

/// Whether nothing stands between two squares.
pub open spec fn way_clear(p: Pos, a: int, b: int) -> bool {
    forall|t: int| is_square(t) && on_the_way(a, t, b) ==> (#[trigger] p.at[t]) is None
}

/// Whether two squares lie on one file or one rank.
pub open spec fn straight(a: int, b: int) -> bool {
    a != b && (a % 8 == b % 8 || a / 8 == b / 8)
}

/// Whether two squares lie on one diagonal.
pub open spec fn diagonal(a: int, b: int) -> bool {
    a != b && (b % 8 - a % 8 == b / 8 - a / 8 || b % 8 - a % 8 == a / 8 - b / 8)
}

pub proof fn lemma_on_the_way(a: int, d: int, b: int, t: int)
    requires
        is_square(a),
        is_square(b),
        is_square(t),
        0 <= d < 8,
        on_ray(a, d, b),
    ensures
        on_the_way(a, t, b) <==> on_ray(a, d, t) && dist(a, t) < dist(a, b),
{
    if d == 0 {
    } else if d == 1 {
    } else if d == 2 {
    } else if d == 3 {
    } else if d == 4 {
    } else if d == 5 {
    } else if d == 6 {
    } else {
    }
}

proof fn lemma_ray_meets(a: int, d: int, t: int)
    requires
        is_square(a),
        0 <= d < 8,
        on_ray(a, d, t),
    ensures
        ray_square(a, d, dist(a, t)) == t,
        1 <= dist(a, t),
{
}

proof fn lemma_ray_stays(a: int, d: int, b: int, j: int)
    requires
        is_square(a),
        0 <= d < 8,
        on_ray(a, d, b),
        1 <= j < dist(a, b),
    ensures
        ray_inside(a, d, j),
{
}

proof fn lemma_way(p: Pos, a: int, d: int, b: int)
    requires
        p.wf(),
        is_square(a),
        is_square(b),
        0 <= d < 8,
        on_ray(a, d, b),
    ensures
        slides(p.occ(), a, d, b) <==> way_clear(p, a, b),
{
    lemma_slide_clears(p, a, d, b);
    lemma_clear_slides(p, a, d, b);
}

proof fn lemma_slide_clears(p: Pos, a: int, d: int, b: int)
    requires
        p.wf(),
        is_square(a),
        is_square(b),
        0 <= d < 8,
        on_ray(a, d, b),
    ensures
        slides(p.occ(), a, d, b) ==> way_clear(p, a, b),
{
    let occ = p.occ();
    if slides(occ, a, d, b) {
        assert forall|t: int| is_square(t) && on_the_way(a, t, b) implies (
        #[trigger] p.at[t]) is None by {
            lemma_on_the_way(a, d, b, t);
            lemma_ray_meets(a, d, t);
            let j = dist(a, t);
            assert(!occ(ray_square(a, d, j)));
        }
    }
}

proof fn lemma_clear_slides(p: Pos, a: int, d: int, b: int)
    requires
        p.wf(),
        is_square(a),
        is_square(b),
        0 <= d < 8,
        on_ray(a, d, b),
    ensures
        way_clear(p, a, b) ==> slides(p.occ(), a, d, b),
{
    let occ = p.occ();
    if way_clear(p, a, b) {
        assert forall|j: int| 1 <= j < dist(a, b) implies !occ(
            #[trigger] ray_square(a, d, j),
        ) by {
            lemma_ray_stays(a, d, b, j);
            lemma_ray_square(a, d, j);
            let t = ray_square(a, d, j);
            lemma_on_the_way(a, d, b, t);
            assert(p.at[t] is None);
        }
    }
}

proof fn lemma_straight(p: Pos, a: int, b: int)
    requires
        p.wf(),
        is_square(a),
        is_square(b),
    ensures
        rook_reaches(p.occ(), a, b) <==> straight(a, b) && way_clear(p, a, b),
        bishop_reaches(p.occ(), a, b) <==> diagonal(a, b) && way_clear(p, a, b),
{
    assert(straight(a, b) <==> on_ray(a, 0, b) || on_ray(a, 2, b) || on_ray(a, 4, b) || on_ray(
        a,
        6,
        b,
    ));
    assert(diagonal(a, b) <==> on_ray(a, 1, b) || on_ray(a, 3, b) || on_ray(a, 5, b) || on_ray(
        a,
        7,
        b,
    ));
    if on_ray(a, 0, b) {
        lemma_way(p, a, 0, b);
    }
    if on_ray(a, 1, b) {
        lemma_way(p, a, 1, b);
    }
    if on_ray(a, 2, b) {
        lemma_way(p, a, 2, b);
    }
    if on_ray(a, 3, b) {
        lemma_way(p, a, 3, b);
    }
    if on_ray(a, 4, b) {
        lemma_way(p, a, 4, b);
    }
    if on_ray(a, 5, b) {
        lemma_way(p, a, 5, b);
    }
    if on_ray(a, 6, b) {
        lemma_way(p, a, 6, b);
    }
    if on_ray(a, 7, b) {
        lemma_way(p, a, 7, b);
    }
}

/// The square of a number.
pub open spec fn squared(x: int) -> int {
    x * x
}

/// What a man of colour `c` and kind `k` on `a` attacks.
/// A white pawn attacks the two squares diagonally above it, a black one those below. A knight
/// attacks the squares at the distance of the root of five, a king those at distance one or the
/// root of two. A bishop attacks along diagonals, a rook along files and ranks and a queen
/// along all of these, as far as nothing stands in between.
pub proof fn law_men_attack(p: Pos, c: int, a: int, b: int)
    requires
        p.wf(),
        0 <= c < 2,
        is_square(a),
        is_square(b),
    ensures
        c == 0 ==> (p.attacks(c, 0, a, b) <==> (b == a + 7 && a % 8 > 0) || (b == a + 9 && a % 8
            < 7)),
        c == 1 ==> (p.attacks(c, 0, a, b) <==> (b == a - 9 && a % 8 > 0) || (b == a - 7 && a % 8
            < 7)),
        p.attacks(c, 1, a, b) <==> squared(b % 8 - a % 8) + squared(b / 8 - a / 8) == 5,
        p.attacks(c, 2, a, b) <==> diagonal(a, b) && way_clear(p, a, b),
        p.attacks(c, 3, a, b) <==> straight(a, b) && way_clear(p, a, b),
        p.attacks(c, 4, a, b) <==> (straight(a, b) || diagonal(a, b)) && way_clear(p, a, b),
        p.attacks(c, 5, a, b) <==> 1 <= squared(b % 8 - a % 8) + squared(b / 8 - a / 8) <= 2,
{
    lemma_straight(p, a, b);
    lemma_squared(b % 8 - a % 8);
    lemma_squared(b / 8 - a / 8);
}

proof fn lemma_squared(x: int)
    requires
        -7 <= x <= 7,
    ensures
        squared(x) == 0 <==> x == 0,
        squared(x) == 1 <==> x == 1 || x == -1,
        squared(x) == 4 <==> x == 2 || x == -2,
        squared(x) == 0 || squared(x) == 1 || squared(x) == 4 || squared(x) >= 9,
{
    assert(x * x == 0 <==> x == 0) by (nonlinear_arith);
    assert(x * x == 1 <==> x == 1 || x == -1) by (nonlinear_arith);
    assert(x * x == 4 <==> x == 2 || x == -2) by (nonlinear_arith);
    assert(x * x == 0 || x * x == 1 || x * x == 4 || x * x >= 9) by (nonlinear_arith);
}

/// A square is attacked by a colour just when one of its men attacks it.
pub proof fn law_attacked_by_some_man(p: Pos, x: int, by: int)
    requires
        p.wf(),
        0 <= by < 2,
    ensures
        p.attacked(x, by) <==> exists|s: int|
            is_square(s) && (#[trigger] p.at[s]) is Some && p.at[s]->0.color == by && p.attacks(
                by,
                p.at[s]->0.kind,
                s,
                x,
            ),
{
    if p.attacked(x, by) {
        let s = choose|s: int| #[trigger] p.attacked_from(x, by, s);
        assert(p.at[s] is Some);
    }
    if exists|s: int|
        is_square(s) && (#[trigger] p.at[s]) is Some && p.at[s]->0.color == by && p.attacks(
            by,
            p.at[s]->0.kind,
            s,
            x,
        ) {
        let s = choose|s: int|
            is_square(s) && (#[trigger] p.at[s]) is Some && p.at[s]->0.color == by && p.attacks(
                by,
                p.at[s]->0.kind,
                s,
                x,
            );
        assert(p.attacked_from(x, by, s));
    }
}

/// A side is in check just when its king is attacked by the other.
pub proof fn law_check_is_an_attack_on_the_king(p: Pos, c: int, k: int)
    requires
        p.wf(),
        0 <= c < 2,
        is_square(k),
        p.at[k] == Some(Man { color: c, kind: 5 }),
        forall|s: int|
            is_square(s) && #[trigger] p.at[s] == Some(Man { color: c, kind: 5 }) ==> s == k,
    ensures
        p.in_check(c) <==> p.attacked(k, 1 - c),
{
    assert(p.is_only_king(c, k));
    p.lemma_only_king(c, k);
}

/// With several kings of a colour the first counts.
pub proof fn law_check_looks_at_the_first_king(p: Pos, c: int, k: int)
    requires
        p.wf(),
        0 <= c < 2,
        is_square(k),
        p.at[k] == Some(Man { color: c, kind: 5 }),
        forall|s: int| 0 <= s < k ==> #[trigger] p.at[s] != Some(Man { color: c, kind: 5 }),
    ensures
        p.in_check(c) <==> p.attacked(k, 1 - c),
{
    assert(p.is_first_king(c, k));
    p.lemma_first_king(c, k);
}

/// What a knight, a bishop, a rook or a queen may do: go where it attacks, without capturing
/// where nothing stands, and capturing where a man of the other side does. There is no other
/// move for it.
pub proof fn law_pieces_go_where_they_attack(p: Pos, m: u16)
    requires
        p.wf(),
        p.at[m as int % 64] is Some,
        p.at[m as int % 64]->0.color == p.stm,
        1 <= p.at[m as int % 64]->0.kind <= 4,
    ensures
        ({
            let from = m as int % 64;
            let to = m as int / 64 % 64;
            let kind = m as int / 4096;
            let cell = p.at[to];
            kind != 2 && kind != 3 ==> (p.pseudo_legal(m) <==> p.attacks(
                p.stm,
                p.at[from]->0.kind,
                from,
                to,
            ) && ((kind == 0 && cell is None) || (kind == 4 && cell is Some && cell->0.color == 1
                - p.stm)))
        }),
{
}

/// What a king may do: the same, or castle.
pub proof fn law_kings_go_where_they_attack(p: Pos, m: u16)
    requires
        p.wf(),
        p.at[m as int % 64] == Some(Man { color: p.stm, kind: 5 }),
    ensures
        ({
            let from = m as int % 64;
            let to = m as int / 64 % 64;
            let kind = m as int / 4096;
            let cell = p.at[to];
            kind != 2 && kind != 3 ==> (p.pseudo_legal(m) <==> p.attacks(p.stm, 5, from, to) && ((
            kind == 0 && cell is None) || (kind == 4 && cell is Some && cell->0.color == 1 - p.stm)))
        }),
{
}

/// When White may castle, on either side: with the right to, from e1 with nothing between the
/// king and the rook, while none of the squares that the king passes is attacked.
pub proof fn law_white_castles(p: Pos, m: u16)
    requires
        p.wf(),
        p.stm == 0,
        m as int / 4096 == 2 || m as int / 4096 == 3,
    ensures
        p.pseudo_legal(m) <==> {
            let from = m as int % 64;
            let to = m as int / 64 % 64;
            &&& from == 4
            &&& p.at[4] is Some && p.at[4]->0.color == 0
            &&& !p.attacked(4, 1)
            &&& m as int / 4096 == 2 ==> to == 6 && p.rights.wk && p.at[5] is None && p.at[6] is None
                && !p.attacked(5, 1) && !p.attacked(6, 1)
            &&& m as int / 4096 == 3 ==> to == 2 && p.rights.wq && p.at[3] is None && p.at[2] is None
                && p.at[1] is None && !p.attacked(3, 1) && !p.attacked(2, 1)
        },
{
}

/// When Black may castle, on either side: as White, from e8.
pub proof fn law_black_castles(p: Pos, m: u16)
    requires
        p.wf(),
        p.stm == 1,
        m as int / 4096 == 2 || m as int / 4096 == 3,
    ensures
        p.pseudo_legal(m) <==> {
            let from = m as int % 64;
            let to = m as int / 64 % 64;
            &&& from == 60
            &&& p.at[60] is Some && p.at[60]->0.color == 1
            &&& !p.attacked(60, 0)
            &&& m as int / 4096 == 2 ==> to == 62 && p.rights.bk && p.at[61] is None && p.at[62] is None
                && !p.attacked(61, 0) && !p.attacked(62, 0)
            &&& m as int / 4096 == 3 ==> to == 58 && p.rights.bq && p.at[59] is None && p.at[58] is None
                && p.at[57] is None && !p.attacked(59, 0) && !p.attacked(58, 0)
        },
{
}

/// What a pawn may do. It goes one square up the board, for Black down, where nothing stands;
/// from its second rank two, where nothing stands on either; it captures diagonally a man of the
/// other side, or goes diagonally to the en passant square. From its seventh rank every step
/// and every capture is a promotion, and no other is.
pub proof fn law_pawns_advance(p: Pos, m: u16)
    requires
        p.wf(),
        p.at[m as int % 64] == Some(Man { color: p.stm, kind: 0 }),
    ensures
        ({
            let from = m as int % 64;
            let to = m as int / 64 % 64;
            let kind = m as int / 4096;
            let ahead = if p.stm == 0 {
                from + 8
            } else {
                from - 8
            };
            let beyond = if p.stm == 0 {
                from + 16
            } else {
                from - 16
            };
            let first = if p.stm == 0 {
                8 <= from < 16
            } else {
                48 <= from < 56
            };
            let last = if p.stm == 0 {
                48 <= from < 56
            } else {
                8 <= from < 16
            };
            let takes = p.at[to] is Some && p.at[to]->0.color == 1 - p.stm && p.attacks(
                p.stm,
                0,
                from,
                to,
            );
            &&& kind == 0 ==> (p.pseudo_legal(m) <==> to == ahead && p.at[to] is None && !last)
            &&& kind == 1 ==> (p.pseudo_legal(m) <==> to == beyond && p.at[to] is None
                && p.at[ahead] is None && first)
            &&& kind == 4 ==> (p.pseudo_legal(m) <==> takes && !last)
            &&& kind == 5 ==> (p.pseudo_legal(m) <==> to == p.ep && p.attacks(p.stm, 0, from, to))
            &&& 8 <= kind < 12 ==> (p.pseudo_legal(m) <==> to == ahead && p.at[to] is None && last)
            &&& kind >= 12 ==> (p.pseudo_legal(m) <==> takes && last)
            &&& kind == 6 || kind == 7 ==> !p.pseudo_legal(m)
        }),
{
}

/// Only men of the side to move move.
pub proof fn law_sides_move_their_own_men(p: Pos, m: u16)
    requires
        p.wf(),
        p.pseudo_legal(m),
    ensures
        p.at[m as int % 64] is Some,
        p.at[m as int % 64]->0.color == p.stm,
{
}

/// A move is legal just when a man may make it and it does not leave its own side in check.
pub proof fn law_legal_moves_leave_no_check(p: Pos, m: u16)
    ensures
        p.legal(m) <==> p.pseudo_legal(m) && !p.after(m).in_check(p.stm),
{
}

/// In a legal position a move that may be made is legal just when it leaves its own king
/// unattacked.
pub proof fn law_legal_moves_leave_the_king_safe(p: Pos, m: u16)
    requires
        p.legal_position(),
        p.pseudo_legal(m),
    ensures
        p.legal(m) <==> forall|k: int|
            is_square(k) && #[trigger] p.after(m).at[k] == Some(Man { color: p.stm, kind: 5 })
                ==> !p.after(m).attacked(k, 1 - p.stm),
{
    let q = p.after(m);
    p.lemma_kings_after(m);
    let k = choose|k: int| q.is_only_king(p.stm, k);
    q.lemma_only_king(p.stm, k);
}

/// The square of a king is the lowest with one on it, and sixty-four where there is none.
pub proof fn law_the_first_king_counts(p: Pos, c: int)
    requires
        p.wf(),
        0 <= c < 2,
    ensures
        ({
            let k = p.king_square(c);
            &&& 0 <= k <= 64
            &&& k < 64 ==> p.at[k] == Some(Man { color: c, kind: 5 })
            &&& forall|s: int|
                0 <= s < k && is_square(s) ==> #[trigger] p.at[s] != Some(Man { color: c, kind: 5 })
        }),
{
    if exists|s: int| p.is_first_king(c, s) {
        let s = choose|s: int| p.is_first_king(c, s);
        p.lemma_first_king(c, s);
        assert(p.at[s] == Some(Man { color: c, kind: 5 }));
        assert forall|t: int| 0 <= t < s && is_square(t) implies #[trigger] p.at[t] != Some(
            Man { color: c, kind: 5 },
        ) by {}
    } else {
        assert forall|s: int| 0 <= s < 64 && is_square(s) implies #[trigger] p.at[s] != Some(
            Man { color: c, kind: 5 },
        ) by {
            if p.at[s] == Some(Man { color: c, kind: 5 }) {
                lemma_lowest_king(p, c, s);
            }
        }
    }
}

proof fn lemma_lowest_king(p: Pos, c: int, s: int)
    requires
        is_square(s),
        p.at[s] == Some(Man { color: c, kind: 5 }),
    ensures
        exists|k: int| p.is_first_king(c, k),
    decreases s,
{
    if exists|u: int| 0 <= u < s && #[trigger] p.at[u] == Some(Man { color: c, kind: 5 }) {
        let u = choose|u: int| 0 <= u < s && #[trigger] p.at[u] == Some(Man { color: c, kind: 5 });
        lemma_lowest_king(p, c, u);
    } else {
        assert(p.is_first_king(c, s));
    }
}

} // verus!
