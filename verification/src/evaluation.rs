//! Static evaluation: material and piece-square tables.
use vstd::prelude::*;

use crate::bits::lemma_single_hit;
use crate::board::Board;
use crate::fen::men_count;
use crate::fen_laws::lemma_only_king_counts;
use crate::geometry::{file_of, is_square, rank_of};
use crate::moves::{KING, WHITE};
use crate::position::{man, Man, Pos};

verus! {

/// What each kind is worth, in hundredths of a pawn.
pub const PIECE_VAL: [i32; 6] = [100, 320, 330, 500, 900, 0];

/// What standing on a square adds, by kind, from White's side of the board.
pub const PST: [[i32; 64]; 6] = [
    [
        0, 0, 0, 0, 0, 0, 0, 0,
        5, 10, 10, -20, -20, 10, 10, 5,
        5, -5, -10, 0, 0, -10, -5, 5,
        0, 0, 0, 20, 20, 0, 0, 0,
        5, 5, 10, 25, 25, 10, 5, 5,
        10, 10, 20, 30, 30, 20, 10, 10,
        50, 50, 50, 50, 50, 50, 50, 50,
        0, 0, 0, 0, 0, 0, 0, 0,
    ],
    [
        -50, -40, -30, -30, -30, -30, -40, -50,
        -40, -20, 0, 5, 5, 0, -20, -40,
        -30, 5, 10, 15, 15, 10, 5, -30,
        -30, 0, 15, 20, 20, 15, 0, -30,
        -30, 5, 15, 20, 20, 15, 5, -30,
        -30, 0, 10, 15, 15, 10, 0, -30,
        -40, -20, 0, 0, 0, 0, -20, -40,
        -50, -40, -30, -30, -30, -30, -40, -50,
    ],
    [
        -20, -10, -10, -10, -10, -10, -10, -20,
        -10, 5, 0, 0, 0, 0, 5, -10,
        -10, 10, 10, 10, 10, 10, 10, -10,
        -10, 0, 10, 10, 10, 10, 0, -10,
        -10, 5, 5, 10, 10, 5, 5, -10,
        -10, 0, 5, 10, 10, 5, 0, -10,
        -10, 0, 0, 0, 0, 0, 0, -10,
        -20, -10, -10, -10, -10, -10, -10, -20,
    ],
    [
        0, 0, 0, 5, 5, 0, 0, 0,
        -5, 0, 0, 0, 0, 0, 0, -5,
        -5, 0, 0, 0, 0, 0, 0, -5,
        -5, 0, 0, 0, 0, 0, 0, -5,
        -5, 0, 0, 0, 0, 0, 0, -5,
        -5, 0, 0, 0, 0, 0, 0, -5,
        5, 10, 10, 10, 10, 10, 10, 5,
        0, 0, 0, 0, 0, 0, 0, 0,
    ],
    [
        -20, -10, -10, -5, -5, -10, -10, -20,
        -10, 0, 5, 0, 0, 0, 0, -10,
        -10, 5, 5, 5, 5, 5, 0, -10,
        0, 0, 5, 5, 5, 5, 0, -5,
        -5, 0, 5, 5, 5, 5, 0, -5,
        -10, 0, 5, 5, 5, 5, 0, -10,
        -10, 0, 0, 0, 0, 0, 0, -10,
        -20, -10, -10, -5, -5, -10, -10, -20,
    ],
    [
        20, 30, 10, 0, 0, 10, 30, 20,
        20, 20, 0, 0, 0, 0, 20, 20,
        -10, -20, -20, -20, -20, -20, -20, -10,
        -20, -30, -30, -40, -40, -30, -30, -20,
        -30, -40, -40, -50, -50, -40, -40, -30,
        -30, -40, -40, -50, -50, -40, -40, -30,
        -30, -40, -40, -50, -50, -40, -40, -30,
        -30, -40, -40, -50, -50, -40, -40, -30,
    ],
];

/// The square across the middle of the board.
pub open spec fn mirrored(sq: int) -> int {
    (7 - rank_of(sq)) * 8 + file_of(sq)
}

/// What a man is worth where it stands.
pub open spec fn man_value(m: Man, sq: int) -> int {
    PIECE_VAL@[m.kind] + PST@[m.kind]@[if m.color == 0 {
        sq
    } else {
        mirrored(sq)
    }]
}

impl Pos {
    /// White's men less Black's, over the squares below `n`.
    pub open spec fn balance(self, n: int) -> int
        decreases n,
    {
        if n <= 0 {
            0
        } else {
            self.balance(n - 1) + match self.at[n - 1] {
                Some(m) => if m.color == 0 {
                    man_value(m, n - 1)
                } else {
                    -man_value(m, n - 1)
                },
                None => 0,
            }
        }
    }

    /// How the position looks to the side to move.
    pub open spec fn eval(self) -> int {
        if self.stm == 0 {
            self.balance(64)
        } else {
            -self.balance(64)
        }
    }
}

/// No value in the tables is large.
proof fn lemma_table(k: int, s: int)
    requires
        0 <= k < 6,
        0 <= s < 64,
    ensures
        -50 <= PIECE_VAL@[k] + PST@[k]@[s] <= 905,
        k == KING ==> PIECE_VAL@[k] + PST@[k]@[s] <= 50,
{
}

proof fn lemma_balance_range(p: Pos, n: int)
    requires
        p.wf(),
        0 <= n <= 64,
    ensures
        ({
            let kings = men_count(p.at, 0, KING as int, n) + men_count(p.at, 1, KING as int, n);
            &&& 0 <= kings <= n
            &&& -(905 * (n - kings) + 50 * kings) <= p.balance(n) <= 905 * (n - kings) + 50 * kings
        }),
    decreases n,
{
    if n > 0 {
        lemma_balance_range(p, n - 1);
        let s = n - 1;
        assert(is_square(s));
        if let Some(m) = p.at[s] {
            lemma_table(m.kind, s);
            lemma_table(m.kind, mirrored(s));
            assert(p.at[s] == man(m.color, m.kind));
        }
    }
}

/// With one king each, no evaluation comes near the bounds of a search.
pub proof fn lemma_eval_range(p: Pos)
    requires
        p.wf(),
        p.one_king(0),
        p.one_king(1),
    ensures
        -57000 <= p.eval() <= 57000,
{
    let a = choose|s: int| p.is_only_king(0, s);
    let b = choose|s: int| p.is_only_king(1, s);
    lemma_only_king_counts(p, 0, a, 64);
    lemma_only_king_counts(p, 1, b, 64);
    lemma_balance_range(p, 64);
}

/// No evaluation is large, whatever stands on the board.
pub proof fn lemma_eval_bound(p: Pos)
    requires
        p.wf(),
    ensures
        -58000 <= p.eval() <= 58000,
{
    lemma_balance_range(p, 64);
}

/// How the position looks to the side to move.
pub fn eval(b: &Board) -> (r: i32)
    requires
        b.wf(),
    ensures
        r == b@.eval(),
{
    let ghost p = b@;
    let mut score: i32 = 0;
    let mut sq: usize = 0;
    proof {
        b.lemma_fields();
    }
    while sq < 64
        invariant
            b.wf(),
            p == b@,
            p.wf(),
            sq <= 64,
            score == p.balance(sq as int),
            -1000 * sq <= score <= 1000 * sq,
        decreases 64 - sq,
    {
        let k = b.mailbox[sq];
        proof {
            b.lemma_fields();
            lemma_single_hit(b.colors@[0], sq as u32);
            assert(p.at[sq as int] == b.man_on(sq as int));
        }
        if k < 6 {
            proof {
                lemma_table(k as int, sq as int);
                lemma_table(k as int, mirrored(sq as int));
            }
            if b.colors[WHITE] & (1u64 << (sq as u32)) != 0 {
                score = score + (PIECE_VAL[k as usize] + PST[k as usize][sq]);
            } else {
                let across = (7 - sq / 8) * 8 + sq % 8;
                score = score - (PIECE_VAL[k as usize] + PST[k as usize][across]);
            }
        }
        sq = sq + 1;
    }
    if b.stm == WHITE {
        score
    } else {
        -score
    }
}

/// Swapping the colours and the sides of the board swaps the sides of the evaluation: seen
/// by the side to move, the position is worth the same.
pub proof fn law_eval_is_symmetric(p: Pos, q: Pos)
    requires
        p.wf(),
        q.wf(),
        q.stm == 1 - p.stm,
        forall|s: int|
            is_square(s) ==> #[trigger] q.at[mirrored(s)] == match p.at[s] {
                Some(m) => man(1 - m.color, m.kind),
                None => None,
            },
    ensures
        q.eval() == p.eval(),
{
    lemma_mirrored_balance(p, q, 8);
    lemma_ranks(p, 8);
    lemma_ranks_down(q, 8);
}

/// The balance of one rank.
spec fn rank_balance(p: Pos, r: int, n: int) -> int
    decreases n,
{
    if n <= 0 {
        0
    } else {
        rank_balance(p, r, n - 1) + match p.at[r * 8 + n - 1] {
            Some(m) => if m.color == 0 {
                man_value(m, r * 8 + n - 1)
            } else {
                -man_value(m, r * 8 + n - 1)
            },
            None => 0,
        }
    }
}

/// The balance of the lowest `n` ranks.
spec fn low_ranks(p: Pos, n: int) -> int
    decreases n,
{
    if n <= 0 {
        0
    } else {
        low_ranks(p, n - 1) + rank_balance(p, n - 1, 8)
    }
}

/// The balance of the highest `n` ranks.
spec fn high_ranks(p: Pos, n: int) -> int
    decreases n,
{
    if n <= 0 {
        0
    } else {
        high_ranks(p, n - 1) + rank_balance(p, 8 - n, 8)
    }
}

proof fn lemma_rank_balance(p: Pos, r: int, n: int)
    requires
        0 <= r < 8,
        0 <= n <= 8,
    ensures
        p.balance(r * 8 + n) == p.balance(r * 8) + rank_balance(p, r, n),
    decreases n,
{
    if n > 0 {
        lemma_rank_balance(p, r, n - 1);
    }
}

proof fn lemma_ranks(p: Pos, n: int)
    requires
        0 <= n <= 8,
    ensures
        p.balance(n * 8) == low_ranks(p, n),
    decreases n,
{
    if n > 0 {
        lemma_ranks(p, n - 1);
        lemma_rank_balance(p, n - 1, 8);
    }
}

proof fn lemma_ranks_down(p: Pos, n: int)
    requires
        0 <= n <= 8,
    ensures
        p.balance(64) == p.balance((8 - n) * 8) + high_ranks(p, n),
    decreases n,
{
    if n > 0 {
        lemma_ranks_down(p, n - 1);
        lemma_rank_balance(p, 8 - n, 8);
    }
}

proof fn lemma_mirrored_rank(p: Pos, q: Pos, r: int, n: int)
    requires
        p.wf(),
        0 <= r < 8,
        0 <= n <= 8,
        forall|s: int|
            is_square(s) ==> #[trigger] q.at[mirrored(s)] == match p.at[s] {
                Some(m) => man(1 - m.color, m.kind),
                None => None,
            },
    ensures
        rank_balance(q, 7 - r, n) == -rank_balance(p, r, n),
    decreases n,
{
    if n > 0 {
        lemma_mirrored_rank(p, q, r, n - 1);
        let s = r * 8 + n - 1;
        assert(is_square(s));
        assert(mirrored(s) == (7 - r) * 8 + n - 1);
        assert(mirrored(mirrored(s)) == s);
        assert(q.at[mirrored(s)] == match p.at[s] {
            Some(m) => man(1 - m.color, m.kind),
            None => None,
        });
    }
}

proof fn lemma_mirrored_balance(p: Pos, q: Pos, n: int)
    requires
        p.wf(),
        0 <= n <= 8,
        forall|s: int|
            is_square(s) ==> #[trigger] q.at[mirrored(s)] == match p.at[s] {
                Some(m) => man(1 - m.color, m.kind),
                None => None,
            },
    ensures
        high_ranks(q, n) == -low_ranks(p, n),
    decreases n,
{
    if n > 0 {
        lemma_mirrored_balance(p, q, n - 1);
        lemma_mirrored_rank(p, q, n - 1, 8);
    }
}

} // verus!
