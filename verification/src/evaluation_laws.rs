//! What each man is worth where it stands, said man by man.
use vstd::prelude::*;

use crate::evaluation::{PIECE_VAL, PST};
use crate::example::VALUE;
use crate::fen::men_count;
use crate::geometry::is_square;
use crate::position::{Man, Pos};

verus! {

/// What a man of this kind is worth, in hundredths of a pawn: a pawn, a knight, a bishop, a
/// rook, a queen and a king.
pub open spec fn worth(kind: int) -> int {
    if kind == 0 {
        100
    } else if kind == 1 {
        320
    } else if kind == 2 {
        330
    } else if kind == 3 {
        500
    } else if kind == 4 {
        900
    } else {
        0
    }
}

/// The distance of a square from the nearer edge file.
pub open spec fn inward(s: int) -> int {
    if s % 8 < 4 {
        s % 8
    } else {
        7 - s % 8
    }
}

/// What a square adds to a pawn on it, seen from White's side of the board: by rank, and by
/// how far it is from the edge.
pub open spec fn pawn_square(s: int) -> int {
    let e = inward(s);
    let r = s / 8;
    if r == 0 {
        0
    } else if r == 1 {
        seq![5int, 10, 10, -20][e]
    } else if r == 2 {
        seq![5int, -5, -10, 0][e]
    } else if r == 3 {
        seq![0int, 0, 0, 20][e]
    } else if r == 4 {
        seq![5int, 5, 10, 25][e]
    } else if r == 5 {
        seq![10int, 10, 20, 30][e]
    } else if r == 6 {
        50
    } else {
        0
    }
}

/// What a square adds to a knight on it, seen from White's side of the board: by rank, and by
/// how far it is from the edge.
pub open spec fn knight_square(s: int) -> int {
    let e = inward(s);
    let r = s / 8;
    if r == 0 {
        seq![-50int, -40, -30, -30][e]
    } else if r == 1 {
        seq![-40int, -20, 0, 5][e]
    } else if r == 2 {
        seq![-30int, 5, 10, 15][e]
    } else if r == 3 {
        seq![-30int, 0, 15, 20][e]
    } else if r == 4 {
        seq![-30int, 5, 15, 20][e]
    } else if r == 5 {
        seq![-30int, 0, 10, 15][e]
    } else if r == 6 {
        seq![-40int, -20, 0, 0][e]
    } else {
        seq![-50int, -40, -30, -30][e]
    }
}

/// What a square adds to a bishop on it, seen from White's side of the board: by rank, and by
/// how far it is from the edge.
pub open spec fn bishop_square(s: int) -> int {
    let e = inward(s);
    let r = s / 8;
    if r == 0 {
        seq![-20int, -10, -10, -10][e]
    } else if r == 1 {
        seq![-10int, 5, 0, 0][e]
    } else if r == 2 {
        seq![-10int, 10, 10, 10][e]
    } else if r == 3 {
        seq![-10int, 0, 10, 10][e]
    } else if r == 4 {
        seq![-10int, 5, 5, 10][e]
    } else if r == 5 {
        seq![-10int, 0, 5, 10][e]
    } else if r == 6 {
        seq![-10int, 0, 0, 0][e]
    } else {
        seq![-20int, -10, -10, -10][e]
    }
}

/// What a square adds to a rook on it, seen from White's side of the board: by rank, and by
/// how far it is from the edge.
pub open spec fn rook_square(s: int) -> int {
    let e = inward(s);
    let r = s / 8;
    if r == 0 {
        seq![0int, 0, 0, 5][e]
    } else if r == 1 {
        seq![-5int, 0, 0, 0][e]
    } else if r == 2 {
        seq![-5int, 0, 0, 0][e]
    } else if r == 3 {
        seq![-5int, 0, 0, 0][e]
    } else if r == 4 {
        seq![-5int, 0, 0, 0][e]
    } else if r == 5 {
        seq![-5int, 0, 0, 0][e]
    } else if r == 6 {
        seq![5int, 10, 10, 10][e]
    } else {
        0
    }
}

/// What a square adds to a queen on it, seen from White's side of the board: by rank, and by
/// how far it is from the edge.
pub open spec fn queen_square(s: int) -> int {
    let e = inward(s);
    let r = s / 8;
    if r == 0 {
        seq![-20int, -10, -10, -5][e]
    } else if r == 1 {
        seq![-10int, 0, 0, 0][e]
    } else if r == 2 {
        seq![-10int, 0, 5, 5][e]
    } else if r == 3 {
        seq![-5int, 0, 5, 5][e]
    } else if r == 4 {
        seq![-5int, 0, 5, 5][e]
    } else if r == 5 {
        seq![-10int, 0, 5, 5][e]
    } else if r == 6 {
        seq![-10int, 0, 0, 0][e]
    } else {
        seq![-20int, -10, -10, -5][e]
    }
}

/// What a square adds to a king on it, seen from White's side of the board: by rank, and by
/// how far it is from the edge.
pub open spec fn king_square(s: int) -> int {
    let e = inward(s);
    let r = s / 8;
    if r == 0 {
        seq![20int, 30, 10, 0][e]
    } else if r == 1 {
        seq![20int, 20, 0, 0][e]
    } else if r == 2 {
        seq![-10int, -20, -20, -20][e]
    } else if r == 3 {
        seq![-20int, -30, -30, -40][e]
    } else if r == 4 {
        seq![-30int, -40, -40, -50][e]
    } else if r == 5 {
        seq![-30int, -40, -40, -50][e]
    } else if r == 6 {
        seq![-30int, -40, -40, -50][e]
    } else {
        seq![-30int, -40, -40, -50][e]
    }
}

/// Every man is worth its kind and its square. The tables are the same for both wings, but that
/// a queen gains five on c2, on b3 and on a4.
pub proof fn law_squares_are_worth(s: int)
    requires
        is_square(s),
    ensures
        PST@[0]@[s] == pawn_square(s),
        PST@[1]@[s] == knight_square(s),
        PST@[2]@[s] == bishop_square(s),
        PST@[3]@[s] == rook_square(s),
        PST@[4]@[s] == queen_square(s) + if s == 10 || s == 17 || s == 24 {
            5int
        } else {
            0
        },
        PST@[5]@[s] == king_square(s),
{
}

proof fn lemma_balance_update(p: Pos, s: int, m: Man, n: int)
    requires
        p.at.len() == 64,
        is_square(s),
        0 <= n <= 64,
        p.at[s] is None,
        0 <= m.kind < 6,
    ensures
        (Pos { at: p.at.update(s, Some(m)), ..p }).balance(n) == p.balance(n) + if s < n {
            if m.color == 0 {
                worth(m.kind) + PST@[m.kind]@[s]
            } else {
                -(worth(m.kind) + PST@[m.kind]@[(7 - s / 8) * 8 + s % 8])
            }
        } else {
            0
        },
    decreases n,
{
    if n > 0 {
        lemma_balance_update(p, s, m, n - 1);
        assert(PIECE_VAL@[m.kind] == worth(m.kind));
    }
}

/// Putting a man on an empty square changes the balance by what its kind is worth and by what
/// the square is worth to it: up for a white man, down for a black one, whose squares are
/// counted from the other side of the board.
pub proof fn law_a_man_counts_its_worth(p: Pos, s: int, m: Man)
    requires
        p.wf(),
        is_square(s),
        p.at[s] is None,
        0 <= m.color < 2,
        0 <= m.kind < 6,
    ensures
        ({
            let q = Pos { at: p.at.update(s, Some(m)), ..p };
            let t = if m.color == 0 {
                s
            } else {
                56 - s + 2 * (s % 8)
            };
            let gain = worth(m.kind) + if m.kind == 0 {
                pawn_square(t)
            } else if m.kind == 1 {
                knight_square(t)
            } else if m.kind == 2 {
                bishop_square(t)
            } else if m.kind == 3 {
                rook_square(t)
            } else if m.kind == 4 {
                queen_square(t) + if t == 10 || t == 17 || t == 24 {
                    5int
                } else {
                    0
                }
            } else {
                king_square(t)
            };
            q.balance(64) - p.balance(64) == if m.color == 0 {
                gain
            } else {
                -gain
            }
        }),
{
    lemma_balance_update(p, s, m, 64);
    assert((7 - s / 8) * 8 + s % 8 == 56 - s + 2 * (s % 8));
    law_squares_are_worth(s);
    law_squares_are_worth(56 - s + 2 * (s % 8));
}

proof fn lemma_no_balance(p: Pos, n: int)
    requires
        0 <= n <= 64,
        forall|s: int| is_square(s) ==> #[trigger] p.at[s] is None,
    ensures
        p.balance(n) == 0,
    decreases n,
{
    if n > 0 {
        assert(p.at[n - 1] is None);
        lemma_no_balance(p, n - 1);
    }
}

/// An empty board is balanced, and an evaluation is the balance as the side to move sees it:
/// what is good for White to move is as bad for Black.
pub proof fn law_eval_takes_the_side_to_move(p: Pos, q: Pos)
    requires
        p.wf(),
        q.wf(),
        p.at == q.at,
        p.stm == 0,
        q.stm == 1,
    ensures
        p.eval() == p.balance(64),
        q.eval() == -p.eval(),
        (forall|s: int| is_square(s) ==> #[trigger] p.at[s] is None) ==> p.eval() == 0,
{
    lemma_same_balance(p, q, 64);
    if forall|s: int| is_square(s) ==> #[trigger] p.at[s] is None {
        lemma_no_balance(p, 64);
    }
}

proof fn lemma_same_balance(p: Pos, q: Pos, n: int)
    requires
        p.at == q.at,
    ensures
        p.balance(n) == q.balance(n),
    decreases n,
{
    if n > 0 {
        lemma_same_balance(p, q, n - 1);
    }
}

proof fn lemma_men_count_update(at: Seq<Option<Man>>, s: int, m: Man, c: int, k: int, n: int)
    requires
        at.len() == 64,
        is_square(s),
        at[s] is None,
        0 <= n <= 64,
    ensures
        men_count(at.update(s, Some(m)), c, k, n) == men_count(at, c, k, n) + if s < n && m.color
            == c && m.kind == k {
            1int
        } else {
            0
        },
    decreases n,
{
    if n > 0 {
        lemma_men_count_update(at, s, m, c, k, n - 1);
    }
}

proof fn lemma_material_update(p: Pos, s: int, m: Man, n: int)
    requires
        p.at.len() == 64,
        is_square(s),
        p.at[s] is None,
        0 <= n <= 5,
        0 <= m.color < 2,
        0 <= m.kind < 6,
    ensures
        (Pos { at: p.at.update(s, Some(m)), ..p }).material_balance(n) == p.material_balance(n)
            + if m.kind < n {
            if m.color == 0 {
                worth(m.kind)
            } else {
                -worth(m.kind)
            }
        } else {
            0
        },
    decreases n,
{
    if n > 0 {
        let k = n - 1;
        let q = Pos { at: p.at.update(s, Some(m)), ..p };
        lemma_material_update(p, s, m, k);
        lemma_men_count_update(p.at, s, m, 0, k, 64);
        lemma_men_count_update(p.at, s, m, 1, k, 64);
        assert(VALUE@[k] == worth(k));
        let a = men_count(p.at, 0, k, 64) - men_count(p.at, 1, k, 64);
        let b = men_count(q.at, 0, k, 64) - men_count(q.at, 1, k, 64);
        let v = VALUE@[k] as int;
        assert(b == a + 1 ==> v * b == v * a + v) by (nonlinear_arith);
        assert(b == a - 1 ==> v * b == v * a - v) by (nonlinear_arith);
    }
}

/// Putting a man on an empty square changes the material of the side to move by what its kind
/// is worth, up for a man of its own and down for one of the other side. The square and the
/// king count nothing.
pub proof fn law_material_counts_each_man(p: Pos, s: int, m: Man)
    requires
        p.wf(),
        is_square(s),
        p.at[s] is None,
        0 <= m.color < 2,
        0 <= m.kind < 6,
    ensures
        (Pos { at: p.at.update(s, Some(m)), ..p }).material() - p.material() == if m.color
            == p.stm {
            worth(m.kind)
        } else {
            -worth(m.kind)
        },
{
    lemma_material_update(p, s, m, 5);
}

proof fn lemma_no_men_count(at: Seq<Option<Man>>, c: int, k: int, n: int)
    requires
        0 <= n <= 64,
        forall|s: int| is_square(s) ==> #[trigger] at[s] is None,
    ensures
        men_count(at, c, k, n) == 0,
    decreases n,
{
    if n > 0 {
        assert(at[n - 1] is None);
        lemma_no_men_count(at, c, k, n - 1);
    }
}

proof fn lemma_no_material(p: Pos, n: int)
    requires
        0 <= n <= 5,
        forall|s: int| is_square(s) ==> #[trigger] p.at[s] is None,
    ensures
        p.material_balance(n) == 0,
    decreases n,
{
    if n > 0 {
        lemma_no_material(p, n - 1);
        lemma_no_men_count(p.at, 0, n - 1, 64);
        lemma_no_men_count(p.at, 1, n - 1, 64);
    }
}

/// An empty board holds no material.
pub proof fn law_no_men_no_material(p: Pos)
    requires
        p.wf(),
        forall|s: int| is_square(s) ==> #[trigger] p.at[s] is None,
    ensures
        p.material() == 0,
{
    lemma_no_material(p, 5);
}

/// What the move of a man from `from` to `to` promises when it takes: more for a worthier man
/// taken, and of two takers of the same man more for the less worthy, before any move that takes
/// nothing. A promotion promises nine thousand more.
pub proof fn law_takes_are_tried_by_worth(p: Pos, m: u16)
    requires
        p.wf(),
        p.at[m as int % 64] is Some,
    ensures
        ({
            let kind = m as int / 4096;
            let taker = p.at[m as int % 64]->0.kind;
            let taken = p.at[m as int / 64 % 64];
            let extra = if kind >= 8 {
                9000int
            } else {
                0
            };
            &&& kind < 4 || 8 <= kind < 12 ==> p.promise(m) == extra
            &&& kind == 5 ==> p.promise(m) == 11_000 - worth(taker)
            &&& (kind == 4 || kind >= 12) && taken is Some ==> p.promise(m) == 10_000 + 10 * worth(
                taken->0.kind,
            ) - worth(taker) + extra
        }),
{
    assert(forall|k: int| 0 <= k < 6 ==> PIECE_VAL@[k] == worth(k));
}

} // verus!
