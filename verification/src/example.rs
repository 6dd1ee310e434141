//! A minimal engine: it looks one ply ahead and counts material.
use vstd::prelude::*;

use crate::board::Board;
use crate::budget::{deadline_of, stands_at, Budget, Clock};
use crate::fen::{count_men, men_count};
use crate::legality::lemma_filter_step;
use crate::moves::WHITE;
use crate::ordering::is_first_best;
use crate::pacing::{all_early, extends};
use crate::position::Pos;
use crate::tables::Tables;
use crate::trial::{candidate, fair, lemma_fair_moves, take_back, try_move};

verus! {

/// The part of the budget, in hundredths, that may be used.
pub const SAFETY: u64 = 94;

/// What each kind is worth, in hundredths of a pawn.
pub const VALUE: [i32; 6] = [100, 320, 330, 500, 900, 0];

impl Pos {
    /// White's material less Black's, over the kinds below `n`.
    pub open spec fn material_balance(self, n: int) -> int
        decreases n,
    {
        if n <= 0 {
            0
        } else {
            self.material_balance(n - 1) + VALUE@[n - 1] * (men_count(self.at, 0, n - 1, 64)
                - men_count(self.at, 1, n - 1, 64))
        }
    }

    /// The material of the side to move less that of the other.
    pub open spec fn material(self) -> int {
        if self.stm == 0 {
            self.material_balance(5)
        } else {
            -self.material_balance(5)
        }
    }

    /// What a move leaves the side that makes it with.
    pub open spec fn greed(self) -> spec_fn(u16) -> int {
        |m: u16| -self.after(m).material()
    }
}

/// The material of the side to move less that of the other.
pub fn material(b: &Board) -> (r: i32)
    requires
        b.wf(),
    ensures
        r == b@.material(),
        -300_000 <= r <= 300_000,
{
    let ghost p = b@;
    let mut s: i32 = 0;
    let mut k: usize = 0;
    while k < 5
        invariant
            b.wf(),
            p == b@,
            k <= 5,
            s == p.material_balance(k as int),
            -60_000 * k <= s <= 60_000 * k,
        decreases 5 - k,
    {
        let w = count_men(b, 0, k) as i32;
        let x = count_men(b, 1, k) as i32;
        let v = VALUE[k];
        assert(0 <= v <= 900);
        assert(-57_600 <= v * (w - x) <= 57_600) by (nonlinear_arith)
            requires
                0 <= v <= 900,
                -64 <= w - x <= 64,
        ;
        s = s + v * (w - x);
        k = k + 1;
    }
    if b.stm == WHITE {
        s
    } else {
        -s
    }
}

/// Whether `k` is the first of the best among the first `n` legal moves.
pub open spec fn is_greedy_choice(p: Pos, n: int, k: int) -> bool {
    is_first_best(p.legal_list().take(n), p.greed(), k)
}

/// Whether `m` is the first of the best among the first `n` legal moves.
pub open spec fn chosen_among(p: Pos, n: int, m: u16) -> bool {
    exists|k: int|
        #![trigger is_greedy_choice(p, n, k)]
        is_greedy_choice(p, n, k) && m == p.legal_list()[k]
}

/// What looks at the clock make of the choice, when its readings grow from `log` to `after`:
/// there is one look for each legal move but the first. The first that shows that the deadline
/// has passed is the last, and the moves scored by then are chosen from.
pub open spec fn greedy_within(p: Pos, deadline: int, log: Seq<u64>, after: Seq<u64>, m: u16) -> bool {
    let scored = after.len() - log.len() + 1;
    &&& 1 <= scored <= p.legal_list().len()
    &&& all_early(after, log.len() as int, after.len() - 1, deadline)
    &&& scored < p.legal_list().len() ==> scored > 1 && after.last() >= deadline
    &&& chosen_among(p, scored, m)
}

/// Plays the first of the legal moves that leave the most material, among as many as the
/// budget allows; none when the position has none.
pub fn hfc_play<F: Fn() -> u64>(
    t: &Tables,
    clock: &mut Clock<F>,
    board: &Board,
    budget: &Budget,
) -> (m: u16)
    requires
        t.wf(),
        board.wf(),
        board@.legal_position(),
        old(clock).wf(),
    ensures
        final(clock).wf(),
        final(clock).now == old(clock).now,
        board@.legal_list().len() == 0 <==> m == 0,
        m != 0 ==> board@.legal(m),
        ({
            let log = old(clock).readings@;
            let start = final(clock).readings@[log.len() as int];
            &&& extends(log.push(start), final(clock).readings@)
            &&& m == 0 ==> final(clock).readings@ == log.push(start)
            &&& m != 0 ==> greedy_within(
                board@,
                deadline_of(start, budget.cycles, SAFETY),
                log.push(start),
                final(clock).readings@,
                m,
            )
        }),
        forall|c: u64|
            #![trigger stands_at(old(clock).now, c)]
            stands_at(old(clock).now, c) && m != 0 ==> chosen_among(
                board@,
                if deadline_of(c, budget.cycles, SAFETY) > c || board@.legal_list().len() < 2 {
                    board@.legal_list().len() as int
                } else {
                    2
                },
                m,
            ),
{
    reveal(fair);
    let m = greedy(t, clock, board, budget);
    proof {
        board@.lemma_sound();
        board@.law_legal_list_is_legal(m);
        reveal(Clock::wf);
        let log = old(clock).readings@;
        let after = clock.readings@;
        assert(call_ensures(clock.now, (), after[log.len() as int]));
        if after.len() > log.len() + 1 {
            assert(call_ensures(clock.now, (), after[log.len() as int + 1]));
            assert(call_ensures(clock.now, (), after[after.len() - 1]));
        }
    }
    m
}

fn greedy<F: Fn() -> u64>(
    t: &Tables,
    clock: &mut Clock<F>,
    board: &Board,
    budget: &Budget,
) -> (m: u16)
    requires
        t.wf(),
        board.wf(),
        fair(board@),
        old(clock).wf(),
    ensures
        final(clock).wf(),
        final(clock).now == old(clock).now,
        board@.legal_list().len() == 0 <==> m == 0,
        ({
            let log = old(clock).readings@;
            let start = final(clock).readings@[log.len() as int];
            &&& extends(log.push(start), final(clock).readings@)
            &&& m == 0 ==> final(clock).readings@ == log.push(start)
            &&& m != 0 ==> greedy_within(
                board@,
                deadline_of(start, budget.cycles, SAFETY),
                log.push(start),
                final(clock).readings@,
                m,
            )
        }),
{
    let start = clock.read();
    let ghost log = clock.readings@;
    let deadline = budget.deadline(start, SAFETY);
    let ghost p = board@;
    let ghost pred = |m: u16| p.keeps_king_safe(m);
    let mut b = *board;
    proof {
        lemma_fair_moves(p);
    }
    let all = b.gen_list::<false>(t);
    let mut best: u16 = 0;
    let mut best_score: i32 = i32::MIN;
    let ghost mut k: int = 0;
    let ghost mut seen = Seq::<u16>::empty();
    let mut i: usize = 0;
    proof {
        assert(all@.take(0).filter(pred) =~= seen) by {
            reveal(Seq::filter);
        }
    }
    let mut late: bool = false;
    while i < all.len() && !late
        invariant
            t.wf(),
            board.wf(),
            b == *board,
            p == board@,
            fair(p),
            clock.wf(),
            clock.now == old(clock).now,
            log == old(clock).readings@.push(start),
            log.len() <= clock.readings@.len(),
            clock.readings@.take(log.len() as int) =~= log,
            clock.readings@.len() - log.len() == if seen.len() > 1 {
                seen.len() - 1
            } else {
                0
            },
            all_early(
                clock.readings@,
                log.len() as int,
                clock.readings@.len() - if late {
                    1int
                } else {
                    0
                },
                deadline as int,
            ),
            pred == (|m: u16| p.keeps_king_safe(m)),
            all@ == p.generated(false),
            forall|j: int|
                0 <= j < all@.len() ==> candidate(p, #[trigger] all@[j], false) && all@[j] != 0,
            i <= all@.len(),
            seen == all@.take(i as int).filter(pred),
            best == 0 <==> seen.len() == 0,
            best != 0 ==> {
                &&& is_first_best(seen, p.greed(), k)
                &&& best == seen[k]
                &&& best_score == p.greed()(best)
            },
            late ==> seen.len() > 1 && clock.readings@.last() >= deadline,
        decreases all@.len() - i,
    {
        let m = all[i];
        let ghost was = seen;
        let ghost k0 = k;
        assert(candidate(p, all@[i as int], false));
        proof {
            lemma_filter_step(all@, pred, i as int);
        }
        match try_move(t, &mut b, m, Ghost(false)) {
            None => {},
            Some(u) => {
                let score = -material(&b);
                take_back(&mut b, m, u, Ghost(*board));
                proof {
                    seen = seen.push(m);
                    assert(score == p.greed()(m));
                    assert forall|j: int| 0 <= j < was.len() implies seen[j] == was[j] by {}
                }
                if best == 0 {
                    best = m;
                    best_score = score;
                    proof {
                        k = 0;
                        assert(is_first_best(seen, p.greed(), 0));
                    }
                } else {
                    if score > best_score {
                        best_score = score;
                        best = m;
                        proof {
                            k = was.len() as int;
                            assert forall|j: int| 0 <= j < was.len() implies p.greed()(
                                #[trigger] seen[j],
                            ) < p.greed()(m) by {
                                assert(p.greed()(was[j]) <= p.greed()(was[k0]));
                            }
                        }
                    } else {
                        proof {
                            assert forall|j: int| 0 <= j < seen.len() implies p.greed()(
                                #[trigger] seen[j],
                            ) <= p.greed()(seen[k]) by {
                                if j < was.len() {
                                    assert(p.greed()(was[j]) <= p.greed()(was[k0]));
                                }
                            }
                            assert forall|j: int| 0 <= j < k implies p.greed()(#[trigger] seen[j])
                                < p.greed()(seen[k]) by {
                                assert(p.greed()(was[j]) < p.greed()(was[k0]));
                            }
                        }
                    }
                    let ghost before = clock.readings@;
                    if clock.read() >= deadline {
                        late = true;
                    }
                    proof {
                        assert(clock.readings@.take(log.len() as int) =~= before.take(
                            log.len() as int,
                        ));
                    }
                }
            },
        }
        i = i + 1;
    }
    proof {
        let list = p.legal_list();
        lemma_filter_prefix(all@, pred, i as int);
        assert(seen =~= list.take(seen.len() as int));
        if best != 0 {
            assert(is_greedy_choice(p, seen.len() as int, k));
            assert(best == list[k]);
        }
        assert(all@.take(all@.len() as int) =~= all@);
        assert(clock.readings@.take(log.len() as int)[log.len() - 1] == start);
        assert(log.take(log.len() as int) =~= log);
        if clock.readings@.len() == log.len() {
            assert(clock.readings@ =~= log);
        }
    }
    best
}

/// What is kept of a prefix is a prefix of what is kept.
proof fn lemma_filter_prefix<A>(s: Seq<A>, pred: spec_fn(A) -> bool, i: int)
    requires
        0 <= i <= s.len(),
    ensures
        s.take(i).filter(pred).len() <= s.filter(pred).len(),
        s.filter(pred).take(s.take(i).filter(pred).len() as int) == s.take(i).filter(pred),
{
    broadcast use Seq::filter_distributes_over_add;

    assert(s =~= s.take(i) + s.skip(i));
    assert(s.filter(pred) =~= s.take(i).filter(pred) + s.skip(i).filter(pred));
}

} // verus!
