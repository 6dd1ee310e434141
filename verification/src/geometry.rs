//! The geometry of the board. Square `0` is a1, `7` is h1 and `63` is h8.
use vstd::prelude::*;

verus! {

pub open spec fn is_square(sq: int) -> bool {
    0 <= sq < 64
}

/// Files are numbered from `0` for the a-file.
pub open spec fn file_of(sq: int) -> int {
    sq % 8
}

/// Ranks are numbered from `0` for White's first rank.
pub open spec fn rank_of(sq: int) -> int {
    sq / 8
}

pub open spec fn square_at(file: int, rank: int) -> int {
    rank * 8 + file
}

pub open spec fn on_board(file: int, rank: int) -> bool {
    0 <= file < 8 && 0 <= rank < 8
}

pub open spec fn abs_diff(a: int, b: int) -> int {
    if a <= b {
        b - a
    } else {
        a - b
    }
}

/// The number of king steps from `a` to `b` on an empty board.
pub open spec fn dist(a: int, b: int) -> int {
    let df = abs_diff(file_of(a), file_of(b));
    let dr = abs_diff(rank_of(a), rank_of(b));
    if df <= dr {
        dr
    } else {
        df
    }
}

/// The file reached from `sq` by `k` steps in direction `d`. The directions are
/// numbered clockwise from north: N NE E SE S SW W NW.
pub open spec fn ray_file(sq: int, d: int, k: int) -> int {
    if 1 <= d <= 3 {
        file_of(sq) + k
    } else if 5 <= d <= 7 {
        file_of(sq) - k
    } else {
        file_of(sq)
    }
}

/// The rank reached from `sq` by `k` steps in direction `d`.
pub open spec fn ray_rank(sq: int, d: int, k: int) -> int {
    if d == 0 || d == 1 || d == 7 {
        rank_of(sq) + k
    } else if 3 <= d <= 5 {
        rank_of(sq) - k
    } else {
        rank_of(sq)
    }
}

/// The square reached from `sq` by `k` steps in direction `d`.
pub open spec fn ray_square(sq: int, d: int, k: int) -> int {
    square_at(ray_file(sq, d, k), ray_rank(sq, d, k))
}

/// Whether `k` steps from `sq` in direction `d` stay on the board.
pub open spec fn ray_inside(sq: int, d: int, k: int) -> bool {
    on_board(ray_file(sq, d, k), ray_rank(sq, d, k))
}

/// Whether `x` lies on the ray that leaves `sq` in direction `d`.
pub open spec fn on_ray(sq: int, d: int, x: int) -> bool {
    &&& is_square(x)
    &&& dist(sq, x) >= 1
    &&& ray_file(sq, d, dist(sq, x)) == file_of(x)
    &&& ray_rank(sq, d, dist(sq, x)) == rank_of(x)
}

/// Whether a slider on `sq` that moves in direction `d` reaches `x`: every square
/// strictly between the two is free.
pub open spec fn slides(occ: spec_fn(int) -> bool, sq: int, d: int, x: int) -> bool {
    &&& on_ray(sq, d, x)
    &&& forall|j: int| 1 <= j < dist(sq, x) ==> !occ(#[trigger] ray_square(sq, d, j))
}

/// Whether `x` lies strictly between `a` and `b` on a shared line.
pub open spec fn strictly_between(a: int, b: int, x: int) -> bool {
    exists|d: int|
        0 <= d < 8 && #[trigger] on_ray(a, d, b) && on_ray(a, d, x) && dist(a, x) < dist(a, b)
}

pub open spec fn opposite(d: int) -> int {
    (d + 4) % 8
}

pub open spec fn knight_step(a: int, b: int) -> bool {
    let df = abs_diff(file_of(a), file_of(b));
    let dr = abs_diff(rank_of(a), rank_of(b));
    (df == 1 && dr == 2) || (df == 2 && dr == 1)
}

pub open spec fn king_step(a: int, b: int) -> bool {
    dist(a, b) == 1
}

/// The rank that a pawn of colour `c` advances by.
pub open spec fn forward(c: int) -> int {
    if c == 0 {
        1
    } else {
        -1
    }
}

/// Whether a pawn of colour `c` on `a` attacks `b`.
pub open spec fn pawn_step(c: int, a: int, b: int) -> bool {
    rank_of(b) == rank_of(a) + forward(c) && abs_diff(file_of(a), file_of(b)) == 1
}

/// `k` steps along a ray end at distance `k`, on that ray.
pub proof fn lemma_ray_square(sq: int, d: int, k: int)
    requires
        is_square(sq),
        0 <= d < 8,
        k >= 1,
        ray_inside(sq, d, k),
    ensures
        is_square(ray_square(sq, d, k)),
        file_of(ray_square(sq, d, k)) == ray_file(sq, d, k),
        rank_of(ray_square(sq, d, k)) == ray_rank(sq, d, k),
        dist(sq, ray_square(sq, d, k)) == k,
        on_ray(sq, d, ray_square(sq, d, k)),
{
}

/// A square on a ray is where the ray is after that many steps.
pub proof fn lemma_on_ray(sq: int, d: int, x: int)
    requires
        is_square(sq),
        0 <= d < 8,
        on_ray(sq, d, x),
    ensures
        ray_inside(sq, d, dist(sq, x)),
        ray_square(sq, d, dist(sq, x)) == x,
        1 <= dist(sq, x) <= 7,
        forall|j: int| 1 <= j <= dist(sq, x) ==> #[trigger] ray_inside(sq, d, j),
{
}

/// A ray that starts further along a ray is the rest of it.
pub proof fn lemma_ray_tail(sq: int, d: int, y: int, x: int)
    requires
        is_square(sq),
        is_square(x),
        0 <= d < 8,
        on_ray(sq, d, y),
    ensures
        on_ray(y, d, x) == (on_ray(sq, d, x) && dist(sq, x) > dist(sq, y)),
{
}

/// Directions N, NE, E and NW raise the square number, the other four lower it.
pub proof fn lemma_ray_order(sq: int, d: int, x: int, y: int)
    requires
        is_square(sq),
        0 <= d < 8,
        on_ray(sq, d, x),
        on_ray(sq, d, y),
    ensures
        (d <= 2 || d == 7) ==> (x < y <==> dist(sq, x) < dist(sq, y)),
        !(d <= 2 || d == 7) ==> (x < y <==> dist(sq, x) > dist(sq, y)),
        x == y <==> dist(sq, x) == dist(sq, y),
{
}

/// A slider reaches `x` from `sq` exactly when one on `x` reaches `sq` going back.
pub proof fn lemma_slides_back(occ: spec_fn(int) -> bool, sq: int, d: int, x: int)
    requires
        is_square(sq),
        is_square(x),
        0 <= d < 8,
        slides(occ, sq, d, x),
    ensures
        slides(occ, x, opposite(d), sq),
{
    let e = opposite(d);
    let n = dist(sq, x);
    lemma_on_ray(sq, d, x);
    assert(dist(x, sq) == n);
    assert forall|j: int| 1 <= j < n implies !occ(#[trigger] ray_square(x, e, j)) by {
        assert(ray_square(x, e, j) == ray_square(sq, d, n - j));
    }
}

} // verus!
