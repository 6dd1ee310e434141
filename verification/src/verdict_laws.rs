//! When a game is over, said over the men on the board and the positions it has been through.
use vstd::prelude::*;

use crate::game::{occurrences, verdict, Verdict};
use crate::geometry::is_square;
use crate::position::{man, Man, Pos};

verus! {

/// A pawn of either colour anywhere is enough to play on.
pub proof fn law_a_pawn_is_enough(p: Pos, s: int, color: int)
    requires
        p.wf(),
        is_square(s),
        p.at[s] == Some(Man { color, kind: 0 }),
    ensures
        !p.insufficient_material(),
{
    assert(p.has_kind(s, 0));
}

/// A rook of either colour anywhere is enough to play on.
pub proof fn law_a_rook_is_enough(p: Pos, s: int, color: int)
    requires
        p.wf(),
        is_square(s),
        p.at[s] == Some(Man { color, kind: 3 }),
    ensures
        !p.insufficient_material(),
{
    assert(!p.has_kind(s, 0));
    assert(p.has_kind(s, 3));
}

/// A queen of either colour anywhere is enough to play on.
pub proof fn law_a_queen_is_enough(p: Pos, s: int, color: int)
    requires
        p.wf(),
        is_square(s),
        p.at[s] == Some(Man { color, kind: 4 }),
    ensures
        !p.insufficient_material(),
{
    assert(!p.has_kind(s, 0));
    assert(p.has_kind(s, 4));
}

/// A knight or a bishop, of either colour.
pub open spec fn minor(cell: Option<Man>) -> bool {
    cell is Some && (cell->0.kind == 1 || cell->0.kind == 2)
}

proof fn lemma_minors(p: Pos, n: int)
    requires
        0 <= n <= 64,
    ensures
        p.minors(n) >= 0,
        p.minors(n) == 0 <==> forall|a: int| 0 <= a < n ==> !minor(#[trigger] p.at[a]),
        p.minors(n) <= 1 <==> forall|a: int, b: int|
            0 <= a < b < n ==> !(minor(#[trigger] p.at[a]) && minor(#[trigger] p.at[b])),
    decreases n,
{
    if n > 0 {
        lemma_minors(p, n - 1);
        let last = p.at[n - 1];
        if minor(last) && p.minors(n - 1) > 0 {
            let a = choose|a: int| 0 <= a < n - 1 && minor(#[trigger] p.at[a]);
            assert(minor(p.at[a]) && minor(p.at[n - 1]));
        }
        if p.minors(n - 1) > 1 {
            let (a, b) = choose|a: int, b: int|
                0 <= a < b < n - 1 && minor(#[trigger] p.at[a]) && minor(#[trigger] p.at[b]);
            assert(minor(p.at[a]) && minor(p.at[b]));
        }
    }
}

/// Neither side can win just when all men are kings, knights and bishops, and any two that are
/// no kings are bishops on squares of one shade: so with kings alone, with one knight or bishop
/// beside them, or with bishops that all run on the same shade, however many and whosever.
pub proof fn law_material_is_insufficient_just_when_bare(p: Pos)
    requires
        p.wf(),
    ensures
        p.insufficient_material() <==> {
            &&& forall|s: int|
                is_square(s) && (#[trigger] p.at[s]) is Some ==> p.at[s]->0.kind == 1
                    || p.at[s]->0.kind == 2 || p.at[s]->0.kind == 5
            &&& forall|a: int, b: int|
                is_square(a) && is_square(b) && a != b && minor(#[trigger] p.at[a]) && minor(
                    #[trigger] p.at[b],
                ) ==> p.at[a]->0.kind == 2 && p.at[b]->0.kind == 2 && (a / 8 + a % 8) % 2 == (b / 8
                    + b % 8) % 2
        },
{
    lemma_minors(p, 64);
    let light = forall|s: int|
        is_square(s) && (#[trigger] p.at[s]) is Some ==> p.at[s]->0.kind == 1 || p.at[s]->0.kind
            == 2 || p.at[s]->0.kind == 5;
    let shades = forall|a: int, b: int|
        is_square(a) && is_square(b) && a != b && minor(#[trigger] p.at[a]) && minor(
            #[trigger] p.at[b],
        ) ==> p.at[a]->0.kind == 2 && p.at[b]->0.kind == 2 && (a / 8 + a % 8) % 2 == (b / 8 + b % 8)
            % 2;
    if p.insufficient_material() {
        assert forall|s: int| is_square(s) && (#[trigger] p.at[s]) is Some implies p.at[s]->0.kind
            == 1 || p.at[s]->0.kind == 2 || p.at[s]->0.kind == 5 by {
            assert(!p.has_kind(s, 0));
        }
        assert forall|a: int, b: int|
            is_square(a) && is_square(b) && a != b && minor(#[trigger] p.at[a]) && minor(
                #[trigger] p.at[b],
            ) implies p.at[a]->0.kind == 2 && p.at[b]->0.kind == 2 && (a / 8 + a % 8) % 2 == (b / 8
            + b % 8) % 2 by {
            if p.minors(64) <= 1 {
                if a < b {
                    assert(!(minor(p.at[a]) && minor(p.at[b])));
                } else {
                    assert(!(minor(p.at[b]) && minor(p.at[a])));
                }
            } else {
                assert(!p.has_kind(a, 1));
                assert(!p.has_kind(b, 1));
                assert(p.has_kind(a, 2));
                assert(p.has_kind(b, 2));
            }
        }
    }
    if light && shades {
        assert forall|s: int| is_square(s) implies !(#[trigger] p.has_kind(s, 0)) && !p.has_kind(
            s,
            3,
        ) && !p.has_kind(s, 4) by {
            let cell = p.at[s];
        }
        if p.minors(64) > 1 {
            let (a, b) = choose|a: int, b: int|
                0 <= a < b < 64 && minor(#[trigger] p.at[a]) && minor(#[trigger] p.at[b]);
            assert forall|s: int| is_square(s) implies !#[trigger] p.has_kind(s, 1) by {
                if p.has_kind(s, 1) {
                    assert(minor(p.at[s]));
                    if s == a {
                        assert(minor(p.at[b]));
                    } else {
                        assert(minor(p.at[a]));
                    }
                }
            }
            assert forall|s: int| #[trigger] p.has_kind(s, 2) implies (s / 8 + s % 8) % 2 == (a / 8
                + a % 8) % 2 by {
                assert(minor(p.at[s]));
                if s != a {
                    assert(minor(p.at[a]));
                }
            }
        }
    }
}

/// Whether a hash stands at three different places of a history.
pub open spec fn thrice(s: Seq<u64>, x: u64) -> bool {
    exists|i: int, j: int, k: int|
        0 <= i < j < k < s.len() && #[trigger] s[i] == x && #[trigger] s[j] == x && #[trigger] s[k]
            == x
}

proof fn lemma_occurrences(s: Seq<u64>, x: u64)
    ensures
        occurrences(s, x) >= 1 <==> exists|i: int| 0 <= i < s.len() && #[trigger] s[i] == x,
        occurrences(s, x) >= 2 <==> exists|i: int, j: int|
            0 <= i < j < s.len() && #[trigger] s[i] == x && #[trigger] s[j] == x,
        occurrences(s, x) >= 3 <==> thrice(s, x),
    decreases s.len(),
{
    if s.len() > 0 {
        let t = s.drop_last();
        let n = s.len() - 1;
        lemma_occurrences(t, x);
        assert forall|i: int| 0 <= i < n implies #[trigger] t[i] == s[i] by {}
        if occurrences(t, x) >= 1 {
            let i = choose|i: int| 0 <= i < t.len() && #[trigger] t[i] == x;
            assert(s[i] == x);
            if s[n] == x {
                assert(s[i] == x && s[n] == x);
            }
        }
        if occurrences(t, x) >= 2 {
            let (i, j) = choose|i: int, j: int|
                0 <= i < j < t.len() && #[trigger] t[i] == x && #[trigger] t[j] == x;
            assert(s[i] == x && s[j] == x);
            if s[n] == x {
                assert(s[i] == x && s[j] == x && s[n] == x);
            }
        }
        if occurrences(t, x) >= 3 {
            let (i, j, k) = choose|i: int, j: int, k: int|
                0 <= i < j < k < t.len() && #[trigger] t[i] == x && #[trigger] t[j] == x
                    && #[trigger] t[k] == x;
            assert(s[i] == x && s[j] == x && s[k] == x);
        }
        if exists|i: int| 0 <= i < s.len() && #[trigger] s[i] == x {
            let i = choose|i: int| 0 <= i < s.len() && #[trigger] s[i] == x;
            if i < n {
                assert(t[i] == x);
            }
        }
        if exists|i: int, j: int|
            0 <= i < j < s.len() && #[trigger] s[i] == x && #[trigger] s[j] == x {
            let (i, j) = choose|i: int, j: int|
                0 <= i < j < s.len() && #[trigger] s[i] == x && #[trigger] s[j] == x;
            assert(t[i] == x);
            if j < n {
                assert(t[i] == x && t[j] == x);
            }
        }
        if thrice(s, x) {
            let (i, j, k) = choose|i: int, j: int, k: int|
                0 <= i < j < k < s.len() && #[trigger] s[i] == x && #[trigger] s[j] == x
                    && #[trigger] s[k] == x;
            assert(t[i] == x && t[j] == x);
            if k < n {
                assert(t[i] == x && t[j] == x && t[k] == x);
            }
        }
    }
}

/// A game goes on just when its side to move has a legal move, fewer than a hundred plies have
/// passed without a capture or a pawn move, the men left can still win, and the position on the
/// board has not stood there three times.
pub proof fn law_a_game_goes_on(p: Pos, history: Seq<u64>, legal: nat)
    requires
        p.wf(),
        history.len() > 0,
    ensures
        verdict(p, history, legal) == Verdict::Ongoing <==> {
            &&& legal > 0
            &&& p.halfmove < 100
            &&& !p.insufficient_material()
            &&& !thrice(history, history[history.len() - 1])
        },
{
    lemma_occurrences(history, history.last());
}

/// With no legal move and the king on `k` attacked by a man of the other colour on `s`, the
/// other colour has won, whatever else holds.
pub proof fn law_mate_wins(p: Pos, history: Seq<u64>, k: int, s: int)
    requires
        p.legal_position(),
        is_square(k),
        p.at[k] == Some(Man { color: p.stm, kind: 5 }),
        is_square(s),
        p.at[s] is Some,
        p.at[s]->0.color == 1 - p.stm,
        p.attacks(1 - p.stm, p.at[s]->0.kind, s, k),
    ensures
        verdict(p, history, 0) == Verdict::Win(1 - p.stm),
{
    let u = choose|u: int| p.is_only_king(p.stm, u);
    p.lemma_only_king(p.stm, u);
    assert(p.at[k] == man(p.stm, 5));
    assert(p.attacked_from(k, 1 - p.stm, s));
}

/// Every way in which a game is drawn has its own name, and each is given for the reason that
/// it names: the first that holds, in this order.
pub proof fn law_draws_have_their_reasons(p: Pos, history: Seq<u64>, legal: nat)
    requires
        p.wf(),
        history.len() > 0,
    ensures
        legal == 0 && (forall|s: int|
            is_square(s) && (#[trigger] p.at[s]) is Some && p.at[s]->0.color == 1 - p.stm
                ==> !p.attacks(1 - p.stm, p.at[s]->0.kind, s, p.king_square(p.stm))) ==> verdict(
            p,
            history,
            legal,
        ) == Verdict::Draw("stalemate"@),
        legal == 0 && p.in_check(p.stm) ==> verdict(p, history, legal) == Verdict::Win(1 - p.stm),
        legal > 0 && p.halfmove >= 100 ==> verdict(p, history, legal) == Verdict::Draw(
            "fifty-move"@,
        ),
        legal > 0 && p.halfmove < 100 && p.insufficient_material() ==> verdict(p, history, legal)
            == Verdict::Draw("insufficient material"@),
        legal > 0 && p.halfmove < 100 && !p.insufficient_material() && thrice(
            history,
            history[history.len() - 1],
        ) ==> verdict(p, history, legal) == Verdict::Draw("threefold repetition"@),
{
    lemma_occurrences(history, history.last());
    if legal == 0 && p.in_check(p.stm) {
        let s = choose|s: int| #[trigger] p.attacked_from(p.king_square(p.stm), 1 - p.stm, s);
        let cell = p.at[s];
    }
}

} // verus!
