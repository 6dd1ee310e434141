//! Attack sets, precomputed for every square, and the sliding attacks read off them.
use vstd::prelude::*;

use crate::bits::{group_bits, lemma_highest, lemma_lowest, lemma_zero, on};
use crate::geometry::{
    dist, file_of, is_square, king_step, knight_step, lemma_on_ray, lemma_ray_order,
    lemma_ray_square, lemma_ray_tail, on_ray, pawn_step, rank_of, ray_file, ray_inside, ray_rank,
    ray_square, slides, strictly_between,
};

verus! {

broadcast use group_bits;

/// Attack sets indexed by square.
pub struct Tables {
    pub knight: [u64; 64],
    pub king: [u64; 64],
    /// By the colour of the pawn, then its square.
    pub pawn: [[u64; 64]; 2],
    /// By direction (N NE E SE S SW W NW), then square.
    pub ray: [[u64; 64]; 8],
    /// The squares strictly between two squares that share a line.
    pub between: [[u64; 64]; 64],
}

/// The direction of each ray as a file step and a rank step.
const DIRS: [(i32, i32); 8] = [
    (0, 1),
    (1, 1),
    (1, 0),
    (1, -1),
    (0, -1),
    (-1, -1),
    (-1, 0),
    (-1, 1),
];

const KNIGHT_STEPS: [(i32, i32); 8] = [
    (1, 2),
    (2, 1),
    (2, -1),
    (1, -2),
    (-1, -2),
    (-2, -1),
    (-2, 1),
    (-1, 2),
];

const WHITE_PAWN_STEPS: [(i32, i32); 2] = [(-1, 1), (1, 1)];

const BLACK_PAWN_STEPS: [(i32, i32); 2] = [(-1, -1), (1, -1)];

impl Tables {
    /// Every entry is the attack set it stands for.
    pub open spec fn wf(&self) -> bool {
        &&& forall|sq: int, x: int|
            is_square(sq) && is_square(x) ==> #[trigger] on(self.knight@[sq], x) == knight_step(
                sq,
                x,
            )
        &&& forall|sq: int, x: int|
            is_square(sq) && is_square(x) ==> #[trigger] on(self.king@[sq], x) == king_step(sq, x)
        &&& forall|c: int, sq: int, x: int|
            0 <= c < 2 && is_square(sq) && is_square(x) ==> #[trigger] on(self.pawn@[c]@[sq], x)
                == pawn_step(c, sq, x)
        &&& forall|d: int, sq: int, x: int|
            0 <= d < 8 && is_square(sq) && is_square(x) ==> #[trigger] on(self.ray@[d]@[sq], x)
                == on_ray(sq, d, x)
        &&& forall|a: int, b: int, x: int|
            is_square(a) && is_square(b) && is_square(x) ==> #[trigger] on(
                self.between@[a]@[b],
                x,
            ) == strictly_between(a, b, x)
    }
}

/// Whether one of the first `n` steps leads from `sq` to `x`.
spec fn stepped(sq: int, steps: Seq<(i32, i32)>, n: int, x: int) -> bool {
    exists|i: int|
        0 <= i < n && file_of(x) == file_of(sq) + (#[trigger] steps[i]).0 && rank_of(x) == rank_of(
            sq,
        ) + steps[i].1
}

/// The squares one step away from `sq`, for the steps that stay on the board.
fn step_set(sq: usize, steps: &[(i32, i32)]) -> (set: u64)
    requires
        sq < 64,
        forall|i: int|
            0 <= i < steps@.len() ==> -2 <= (#[trigger] steps@[i]).0 <= 2 && -2 <= steps@[i].1
                <= 2,
    ensures
        forall|x: int|
            is_square(x) ==> #[trigger] on(set, x) == stepped(
                sq as int,
                steps@,
                steps@.len() as int,
                x,
            ),
{
    let f: i32 = (sq % 8) as i32;
    let r: i32 = (sq / 8) as i32;
    let mut set: u64 = 0;
    let mut i: usize = 0;
    while i < steps.len()
        invariant
            sq < 64,
            f == file_of(sq as int),
            r == rank_of(sq as int),
            0 <= i <= steps@.len(),
            forall|k: int|
                0 <= k < steps@.len() ==> -2 <= (#[trigger] steps@[k]).0 <= 2 && -2 <= steps@[k].1
                    <= 2,
            forall|x: int|
                is_square(x) ==> #[trigger] on(set, x) == stepped(sq as int, steps@, i as int, x),
        decreases steps@.len() - i,
    {
        let ghost before = set;
        let (df, dr) = steps[i];
        let nf: i32 = f + df;
        let nr: i32 = r + dr;
        if 0 <= nf && nf < 8 && 0 <= nr && nr < 8 {
            set = set | (1u64 << ((nr * 8 + nf) as u32));
        }
        assert forall|x: int| is_square(x) implies #[trigger] on(set, x) == stepped(
            sq as int,
            steps@,
            i + 1,
            x,
        ) by {
            assert(on(before, x) == stepped(sq as int, steps@, i as int, x));
            assert(steps@[i as int] == (df, dr));
            assert(stepped(sq as int, steps@, i + 1, x) == (stepped(
                sq as int,
                steps@,
                i as int,
                x,
            ) || (file_of(x) == nf && rank_of(x) == nr)));
        }
        i = i + 1;
    }
    set
}

fn knight_set(sq: usize) -> (set: u64)
    requires
        sq < 64,
    ensures
        forall|x: int| is_square(x) ==> #[trigger] on(set, x) == knight_step(sq as int, x),
{
    let set = step_set(sq, &KNIGHT_STEPS);
    assert forall|x: int| is_square(x) implies #[trigger] on(set, x) == knight_step(
        sq as int,
        x,
    ) by {
        let s = KNIGHT_STEPS@;
        assert(s[0] == (1i32, 2i32) && s[1] == (2i32, 1i32) && s[2] == (2i32, -1i32) && s[3] == (
            1i32,
            -2i32,
        ) && s[4] == (-1i32, -2i32) && s[5] == (-2i32, -1i32) && s[6] == (-2i32, 1i32) && s[7] == (
            -1i32,
            2i32,
        ));
    }
    set
}

fn king_set(sq: usize) -> (set: u64)
    requires
        sq < 64,
    ensures
        forall|x: int| is_square(x) ==> #[trigger] on(set, x) == king_step(sq as int, x),
{
    let set = step_set(sq, &DIRS);
    assert forall|x: int| is_square(x) implies #[trigger] on(set, x) == king_step(
        sq as int,
        x,
    ) by {
        let s = DIRS@;
        assert(s[0] == (0i32, 1i32) && s[1] == (1i32, 1i32) && s[2] == (1i32, 0i32) && s[3] == (
            1i32,
            -1i32,
        ) && s[4] == (0i32, -1i32) && s[5] == (-1i32, -1i32) && s[6] == (-1i32, 0i32) && s[7] == (
            -1i32,
            1i32,
        ));
    }
    set
}

fn pawn_set(c: usize, sq: usize) -> (set: u64)
    requires
        c < 2,
        sq < 64,
    ensures
        forall|x: int| is_square(x) ==> #[trigger] on(set, x) == pawn_step(c as int, sq as int, x),
{
    let set = if c == 0 {
        step_set(sq, &WHITE_PAWN_STEPS)
    } else {
        step_set(sq, &BLACK_PAWN_STEPS)
    };
    assert forall|x: int| is_square(x) implies #[trigger] on(set, x) == pawn_step(
        c as int,
        sq as int,
        x,
    ) by {
        let s = if c == 0 {
            WHITE_PAWN_STEPS@
        } else {
            BLACK_PAWN_STEPS@
        };
        assert(s.len() == 2);
        assert(s[0].0 == -1 && s[1].0 == 1);
    }
    set
}

/// The squares on the ray from `sq` in direction `d`.
fn ray_set(d: usize, sq: usize) -> (set: u64)
    requires
        d < 8,
        sq < 64,
    ensures
        forall|x: int| is_square(x) ==> #[trigger] on(set, x) == on_ray(sq as int, d as int, x),
{
    let (df, dr) = DIRS[d];
    let mut set: u64 = 0;
    let mut nf: i32 = (sq % 8) as i32 + df;
    let mut nr: i32 = (sq / 8) as i32 + dr;
    let ghost mut k: int = 1;
    while 0 <= nf && nf < 8 && 0 <= nr && nr < 8
        invariant
            d < 8,
            sq < 64,
            (df, dr) == DIRS@[d as int],
            1 <= k <= 8,
            nf == ray_file(sq as int, d as int, k),
            nr == ray_rank(sq as int, d as int, k),
            forall|x: int|
                is_square(x) ==> #[trigger] on(set, x) == (on_ray(sq as int, d as int, x) && dist(
                    sq as int,
                    x,
                ) < k),
        decreases 8 - k,
    {
        let ghost before = set;
        set = set | (1u64 << ((nr * 8 + nf) as u32));
        proof {
            lemma_ray_square(sq as int, d as int, k);
            assert forall|x: int| is_square(x) implies #[trigger] on(set, x) == (on_ray(
                sq as int,
                d as int,
                x,
            ) && dist(sq as int, x) < k + 1) by {
                assert(on(before, x) == (on_ray(sq as int, d as int, x) && dist(sq as int, x) < k));
                if on_ray(sq as int, d as int, x) {
                    lemma_on_ray(sq as int, d as int, x);
                }
            }
            k = k + 1;
        }
        nf = nf + df;
        nr = nr + dr;
    }
    assert forall|x: int| is_square(x) implies #[trigger] on(set, x) == on_ray(
        sq as int,
        d as int,
        x,
    ) by {
        if on_ray(sq as int, d as int, x) {
            lemma_on_ray(sq as int, d as int, x);
            if dist(sq as int, x) >= k {
                assert(ray_inside(sq as int, d as int, k));
            }
        }
    }
    set
}

/// The squares strictly between `a` and each square of its lines.
fn between_row(a: usize) -> (row: [u64; 64])
    requires
        a < 64,
    ensures
        forall|b: int, x: int|
            is_square(b) && is_square(x) ==> #[trigger] on(row@[b], x) == strictly_between(
                a as int,
                b,
                x,
            ),
{
    let mut row: [u64; 64] = [0u64;64];
    let mut d: usize = 0;
    while d < 8
        invariant
            a < 64,
            d <= 8,
            forall|b: int, x: int|
                is_square(b) && is_square(x) ==> #[trigger] on(row@[b], x) == (exists|e: int|
                    0 <= e < d && #[trigger] on_ray(a as int, e, b) && on_ray(a as int, e, x)
                        && dist(a as int, x) < dist(a as int, b)),
        decreases 8 - d,
    {
        let ghost start = row;
        let (df, dr) = DIRS[d];
        let mut path: u64 = 0;
        let mut nf: i32 = (a % 8) as i32 + df;
        let mut nr: i32 = (a / 8) as i32 + dr;
        let ghost mut k: int = 1;
        while 0 <= nf && nf < 8 && 0 <= nr && nr < 8
            invariant
                d < 8,
                a < 64,
                (df, dr) == DIRS@[d as int],
                1 <= k <= 8,
                nf == ray_file(a as int, d as int, k),
                nr == ray_rank(a as int, d as int, k),
                forall|x: int|
                    is_square(x) ==> #[trigger] on(path, x) == (on_ray(a as int, d as int, x)
                        && dist(a as int, x) < k),
                forall|b: int, x: int|
                    is_square(b) && is_square(x) ==> #[trigger] on(row@[b], x) == if on_ray(
                        a as int,
                        d as int,
                        b,
                    ) && dist(a as int, b) < k {
                        on_ray(a as int, d as int, x) && dist(a as int, x) < dist(a as int, b)
                    } else {
                        on(start@[b], x)
                    },
            decreases 8 - k,
        {
            let ghost before = path;
            let ghost prev = row;
            let b: usize = (nr * 8 + nf) as usize;
            row[b] = path;
            path = path | (1u64 << (b as u32));
            proof {
                lemma_ray_square(a as int, d as int, k);
                assert forall|x: int| is_square(x) implies #[trigger] on(path, x) == (on_ray(
                    a as int,
                    d as int,
                    x,
                ) && dist(a as int, x) < k + 1) by {
                    assert(on(before, x) == (on_ray(a as int, d as int, x) && dist(a as int, x)
                        < k));
                    if on_ray(a as int, d as int, x) {
                        lemma_on_ray(a as int, d as int, x);
                    }
                }
                assert forall|y: int, x: int| is_square(y) && is_square(x) implies #[trigger] on(
                    row@[y],
                    x,
                ) == if on_ray(a as int, d as int, y) && dist(a as int, y) < k + 1 {
                    on_ray(a as int, d as int, x) && dist(a as int, x) < dist(a as int, y)
                } else {
                    on(start@[y], x)
                } by {
                    if on_ray(a as int, d as int, y) {
                        lemma_on_ray(a as int, d as int, y);
                    }
                    if y != b {
                        assert(row@[y] == prev@[y]);
                    } else {
                        assert(on(before, x) == (on_ray(a as int, d as int, x) && dist(a as int, x)
                            < k));
                    }
                }
                k = k + 1;
            }
            nf = nf + df;
            nr = nr + dr;
        }
        assert forall|b: int, x: int| is_square(b) && is_square(x) implies #[trigger] on(row@[b], x)
            == (exists|e: int|
            0 <= e < d + 1 && #[trigger] on_ray(a as int, e, b) && on_ray(a as int, e, x) && dist(
                a as int,
                x,
            ) < dist(a as int, b)) by {
            if on_ray(a as int, d as int, b) {
                lemma_on_ray(a as int, d as int, b);
                if dist(a as int, b) >= k {
                    assert(ray_inside(a as int, d as int, k));
                }
                assert forall|e: int| 0 <= e < d implies !#[trigger] on_ray(a as int, e, b) by {
                    if on_ray(a as int, e, b) {
                        lemma_on_ray(a as int, e, b);
                    }
                }
            }
        }
        d = d + 1;
    }
    row
}

/// Builds the tables.
pub fn init_tables() -> (t: Tables)
    ensures
        t.wf(),
{
    let mut t = Tables {
        knight: [0u64;64],
        king: [0u64;64],
        pawn: [[0u64;64];2],
        ray: [[0u64;64];8],
        between: [[0u64;64];64],
    };
    let mut sq: usize = 0;
    while sq < 64
        invariant
            sq <= 64,
            forall|s: int, x: int|
                0 <= s < sq && is_square(x) ==> #[trigger] on(t.knight@[s], x) == knight_step(s, x),
            forall|s: int, x: int|
                0 <= s < sq && is_square(x) ==> #[trigger] on(t.king@[s], x) == king_step(s, x),
            forall|c: int, s: int, x: int|
                0 <= c < 2 && 0 <= s < sq && is_square(x) ==> #[trigger] on(t.pawn@[c]@[s], x)
                    == pawn_step(c, s, x),
            forall|d: int, s: int, x: int|
                0 <= d < 8 && 0 <= s < sq && is_square(x) ==> #[trigger] on(t.ray@[d]@[s], x)
                    == on_ray(s, d, x),
            forall|a: int, b: int, x: int|
                0 <= a < sq && is_square(b) && is_square(x) ==> #[trigger] on(
                    t.between@[a]@[b],
                    x,
                ) == strictly_between(a, b, x),
        decreases 64 - sq,
    {
        t.knight[sq] = knight_set(sq);
        t.king[sq] = king_set(sq);
        t.pawn[0][sq] = pawn_set(0, sq);
        t.pawn[1][sq] = pawn_set(1, sq);
        t.between[sq] = between_row(sq);
        let ghost mid = t;
        let mut d: usize = 0;
        while d < 8
            invariant
                d <= 8,
                sq < 64,
                forall|e: int, s: int|
                    0 <= e < 8 && 0 <= s < 64 && s != sq ==> #[trigger] t.ray@[e]@[s]
                        == mid.ray@[e]@[s],
                t.knight == mid.knight,
                t.king == mid.king,
                t.pawn == mid.pawn,
                t.between == mid.between,
                forall|e: int, x: int|
                    0 <= e < d && is_square(x) ==> #[trigger] on(t.ray@[e]@[sq as int], x)
                        == on_ray(sq as int, e, x),
            decreases 8 - d,
        {
            t.ray[d][sq] = ray_set(d, sq);
            d = d + 1;
        }
        sq = sq + 1;
    }
    t
}

/// Whether a rook on `sq` reaches `x` over the occupied squares `occ`.
pub open spec fn rook_reaches(occ: spec_fn(int) -> bool, sq: int, x: int) -> bool {
    slides(occ, sq, 0, x) || slides(occ, sq, 2, x) || slides(occ, sq, 4, x) || slides(occ, sq, 6, x)
}

/// Whether a bishop on `sq` reaches `x` over the occupied squares `occ`.
pub open spec fn bishop_reaches(occ: spec_fn(int) -> bool, sq: int, x: int) -> bool {
    slides(occ, sq, 1, x) || slides(occ, sq, 3, x) || slides(occ, sq, 5, x) || slides(occ, sq, 7, x)
}

/// The squares of a bitboard as a predicate.
pub open spec fn squares(bb: u64) -> spec_fn(int) -> bool {
    |s: int| on(bb, s)
}

/// The squares that a slider on `sq` reaches in direction `d`: those of the ray up to and
/// including the first occupied one.
pub fn ray_att(t: &Tables, d: usize, sq: u32, occ: u64) -> (att: u64)
    requires
        t.wf(),
        d < 8,
        sq < 64,
    ensures
        forall|x: int|
            is_square(x) ==> #[trigger] on(att, x) == slides(
                squares(occ),
                sq as int,
                d as int,
                x,
            ),
{
    let att = t.ray[d][sq as usize];
    let blockers = att & occ;
    let ghost s = sq as int;
    let ghost e = d as int;
    proof {
        lemma_zero(blockers);
    }
    if blockers == 0 {
        assert forall|x: int| is_square(x) implies #[trigger] on(att, x) == slides(
            squares(occ),
            s,
            e,
            x,
        ) by {
            if on_ray(s, e, x) {
                lemma_on_ray(s, e, x);
                assert forall|j: int| 1 <= j < dist(s, x) implies !squares(occ)(
                    #[trigger] ray_square(s, e, j),
                ) by {
                    assert(ray_inside(s, e, j));
                    lemma_ray_square(s, e, j);
                    assert(!on(blockers, ray_square(s, e, j)));
                }
            }
        }
        return att;
    }
    // Directions 0, 1, 2 and 7 raise the square number.
    let first: u32 = if d <= 2 || d == 7 {
        proof {
            lemma_lowest(blockers);
        }
        blockers.trailing_zeros()
    } else {
        proof {
            lemma_highest(blockers);
        }
        63 - blockers.leading_zeros()
    };
    let ghost f = first as int;
    let rest = t.ray[d][first as usize];
    let cut = att ^ rest;
    assert forall|x: int| is_square(x) implies #[trigger] on(cut, x) == slides(
        squares(occ),
        s,
        e,
        x,
    ) by {
        assert(on(blockers, f));
        lemma_ray_tail(s, e, f, x);
        lemma_on_ray(s, e, f);
        if on_ray(s, e, x) {
            lemma_on_ray(s, e, x);
            if dist(s, x) <= dist(s, f) {
                assert forall|j: int| 1 <= j < dist(s, x) implies !squares(occ)(
                    #[trigger] ray_square(s, e, j),
                ) by {
                    assert(ray_inside(s, e, j));
                    lemma_ray_square(s, e, j);
                    let y = ray_square(s, e, j);
                    lemma_ray_order(s, e, y, f);
                    assert(!on(blockers, y));
                }
            } else {
                assert(squares(occ)(ray_square(s, e, dist(s, f))));
            }
        }
    }
    cut
}

/// The squares that a rook on `sq` reaches.
pub fn rook_att(t: &Tables, sq: u32, occ: u64) -> (att: u64)
    requires
        t.wf(),
        sq < 64,
    ensures
        forall|x: int|
            is_square(x) ==> #[trigger] on(att, x) == rook_reaches(squares(occ), sq as int, x),
{
    ray_att(t, 0, sq, occ) | ray_att(t, 2, sq, occ) | ray_att(t, 4, sq, occ) | ray_att(
        t,
        6,
        sq,
        occ,
    )
}

/// The squares that a bishop on `sq` reaches.
pub fn bishop_att(t: &Tables, sq: u32, occ: u64) -> (att: u64)
    requires
        t.wf(),
        sq < 64,
    ensures
        forall|x: int|
            is_square(x) ==> #[trigger] on(att, x) == bishop_reaches(squares(occ), sq as int, x),
{
    ray_att(t, 1, sq, occ) | ray_att(t, 3, sq, occ) | ray_att(t, 5, sq, occ) | ray_att(
        t,
        7,
        sq,
        occ,
    )
}

/// The squares that a queen on `sq` reaches.
pub fn queen_att(t: &Tables, sq: u32, occ: u64) -> (att: u64)
    requires
        t.wf(),
        sq < 64,
    ensures
        forall|x: int|
            is_square(x) ==> #[trigger] on(att, x) == (rook_reaches(squares(occ), sq as int, x)
                || bishop_reaches(squares(occ), sq as int, x)),
{
    rook_att(t, sq, occ) | bishop_att(t, sq, occ)
}

} // verus!
