//! The reference engine: iterative deepening over the search, with a move in hand from the
//! start.
use vstd::arithmetic::div_mod::{
    lemma_basic_div, lemma_div_is_ordered, lemma_fundamental_div_mod,
    lemma_fundamental_div_mod_converse,
};
use vstd::prelude::*;

use crate::board::Board;
use crate::budget::{deadline_of, stands_at, Budget, Clock};
use crate::evaluation::eval;
use crate::game::{count_of, occurrences};
use crate::legality::lemma_filter_step;
use crate::ordering::{best_first, lemma_best_first_contains, sort_desc};
use crate::pacing::{all_early, extends, lemma_spent_goes_on, lemma_spent_starts, spent};
use crate::position::Pos;
use crate::searcher::{check_interval, interval_of, is_choice, settled, Searcher, INFINITE};
use crate::tables::Tables;
use crate::trial::{
    candidate, fair, lemma_fair_moves, lemma_open_legal, lemma_open_move, open_move, take_back,
    try_move,
};

verus! {

/// The part of the budget, in hundredths, that may be used: overrunning forfeits the game,
/// so a few percent of search are worth giving up.
pub const SAFETY: u64 = 94;

/// The first move after loading runs on cold caches and gets a wider margin.
pub const FIRST_MOVE_SAFETY: u64 = 88;

/// The depth of the deepest iteration.
pub const DEEPEST: i32 = 63;

impl Pos {
    /// How often the position after `m` has occurred; a history too short to hold a
    /// repetition is not searched.
    pub open spec fn repeats(self, history: Seq<u64>, m: u16) -> nat {
        if history.len() > 2 {
            occurrences(history, self.after(m).hash())
        } else {
            0
        }
    }

    pub open spec fn root_move(self, history: Seq<u64>) -> spec_fn(u16) -> (u16, usize) {
        |m: u16| (m, self.repeats(history, m) as usize)
    }

    /// The value of a root move at a glance; a third occurrence is a draw.
    pub open spec fn glance(self) -> spec_fn((u16, usize)) -> int {
        |rep: (u16, usize)|
            if rep.1 >= 2 {
                0
            } else {
                -self.after(rep.0).eval()
            }
    }

    /// The legal moves with their repetition counts, best at a glance first.
    pub open spec fn root_moves(self, history: Seq<u64>) -> Seq<(u16, usize)> {
        best_first(self.legal_list().map_values(self.root_move(history)), self.glance())
    }

    /// Whether `m` is what a completed search of that depth chooses.
    pub open spec fn chosen_at(self, history: Seq<u64>, depth: int, m: u16) -> bool {
        exists|k: int|
            #![trigger self.root_moves(history)[k]]
            is_choice(self, depth, self.root_moves(history), k) && m == self.root_moves(
                history,
            )[k].0
    }
}

impl Pos {
    /// The nodes of the first `d` iterations.
    pub open spec fn iterated_nodes(self, history: Seq<u64>, d: int) -> nat
        decreases d,
    {
        if d <= 0 {
            0
        } else {
            self.iterated_nodes(history, d - 1) + self.root_nodes(
                d,
                self.root_moves(history),
                0,
                (-INFINITE) as int,
            )
        }
    }

    /// Whether `m` is the move in hand after `d` iterations: the best at a glance, and then
    /// the choice of the last.
    pub open spec fn kept_after(self, history: Seq<u64>, d: int, m: u16) -> bool {
        if d <= 0 {
            m == self.root_moves(history)[0].0
        } else {
            self.chosen_at(history, d, m)
        }
    }

    /// How often the clock is looked at while the root moves are gathered: once every
    /// `interval` moves.
    pub open spec fn gathering_looks(self, interval: int) -> int {
        (self.generated(false).len() - 1) / interval
    }
}

/// Whether a clock was looked at `n` times, and the last look, with `late`, was the first to
/// show that the deadline has passed.
pub open spec fn looked(
    log: Seq<u64>,
    after: Seq<u64>,
    n: int,
    late: bool,
    deadline: int,
) -> bool {
    &&& extends(log, after)
    &&& after.len() - log.len() == n
    &&& if late {
        &&& n > 0
        &&& all_early(after, log.len() as int, after.len() - 1, deadline)
        &&& after.last() >= deadline
    } else {
        all_early(after, log.len() as int, after.len() as int, deadline)
    }
}

/// What looks at the clock make of the choice, when its readings grow from `log` to `after`.
/// The looks come while the root moves are gathered, once before the search, and once every
/// `interval` nodes of it. The first that shows that the deadline has passed is the last, and
/// ends the choice with what is in hand: the first legal move, the best at a glance, or the
/// choice of the last iteration that could be completed.
pub open spec fn decided(
    p: Pos,
    history: Seq<u64>,
    interval: int,
    deadline: int,
    log: Seq<u64>,
    after: Seq<u64>,
    m: u16,
) -> bool {
    let looks = after.len() - log.len();
    let searching = looks - p.gathering_looks(interval) - 1;
    if looks > 0 && after.last() >= deadline {
        &&& looked(log, after, looks, true, deadline)
        &&& if searching < 0 {
            m == p.legal_list()[0]
        } else if searching == 0 {
            m == p.root_moves(history)[0].0
        } else {
            exists|d: int|
                0 <= d < DEEPEST && p.iterated_nodes(history, d) as int / interval < searching
                    <= p.iterated_nodes(history, d + 1) as int / interval
                    && #[trigger] p.kept_after(history, d, m)
        }
    } else {
        &&& looked(log, after, looks, false, deadline)
        &&& searching == p.iterated_nodes(history, DEEPEST as int) as int / interval
        &&& p.chosen_at(history, DEEPEST as int, m)
    }
}

/// The root moves in the order in which they are generated, with their scores.
struct Roots {
    items: Vec<(u16, usize)>,
    scores: Vec<i32>,
}

impl Roots {
    /// The items are those of `moves`, in order.
    spec fn are(&self, p: Pos, history: Seq<u64>, moves: Seq<u16>) -> bool {
        &&& self.items@ == moves.map_values(p.root_move(history))
        &&& self.scores@.len() == self.items@.len()
        &&& forall|i: int|
            0 <= i < self.items@.len() ==> #[trigger] self.scores@[i] == p.glance()(self.items@[i])
    }

    /// Adds the legal move `m`, which has been made on `b`.
    fn push(&mut self, b: &Board, history: &Vec<u64>, m: u16, p: Ghost<Pos>, moves: Ghost<Seq<u16>>)
        requires
            old(self).are(p@, history@, moves@),
            b.wf(),
            b@ == p@.after(m),
        ensures
            final(self).are(p@, history@, moves@.push(m)),
    {
        let count = if history.len() > 2 {
            count_of(history, b.hash())
        } else {
            0
        };
        let score = if count >= 2 {
            0
        } else {
            let e = eval(b);
            proof {
                crate::evaluation::lemma_eval_bound(b@);
            }
            -e
        };
        let ghost was = *self;
        self.items.push((m, count));
        self.scores.push(score);
        proof {
            assert(self.items@ =~= moves@.push(m).map_values(p@.root_move(history@)));
            assert forall|i: int| 0 <= i < self.items@.len() implies #[trigger] self.scores@[i]
                == p@.glance()(self.items@[i]) by {
                if i < was.items@.len() {
                    assert(self.scores@[i] == was.scores@[i]);
                    assert(self.items@[i] == was.items@[i]);
                }
            }
        }
    }
}

/// The same as [`looked`], kept folded.
#[verifier::opaque]
spec fn looks_made(log: Seq<u64>, after: Seq<u64>, n: int, late: bool, deadline: int) -> bool {
    looked(log, after, n, late, deadline)
}

proof fn lemma_no_looks(log: Seq<u64>, deadline: int)
    ensures
        looks_made(log, log, 0, false, deadline),
{
    reveal(looks_made);
    assert(log.take(log.len() as int) =~= log);
}

/// One more look.
proof fn lemma_look(log: Seq<u64>, before: Seq<u64>, n: int, x: u64, deadline: int)
    requires
        looks_made(log, before, n, false, deadline),
    ensures
        looks_made(log, before.push(x), n + 1, x >= deadline, deadline),
        before.len() == log.len() + n,
{
    reveal(looks_made);
    assert(before.push(x).take(log.len() as int) =~= before.take(log.len() as int));
}

/// How many looks come before root move `i` is due for one.
spec fn looks_before(i: int, interval: int) -> int {
    if i <= 0 {
        0
    } else {
        (i - 1) / interval
    }
}

proof fn lemma_looks_before(i: int, interval: int, n: int)
    requires
        0 <= i < n,
        interval > 0,
    ensures
        looks_before(i + 1, interval) == looks_before(i, interval) + if i > 0 && i % interval == 0 {
            1int
        } else {
            0
        },
        looks_before(i + 1, interval) <= (n - 1) / interval,
{
    if i > 0 {
        let q = i / interval;
        let r = i % interval;
        lemma_fundamental_div_mod(i, interval);
        if r == 0 {
            assert(i - 1 == (q - 1) * interval + (interval - 1)) by (nonlinear_arith)
                requires
                    i == interval * q + r,
                    r == 0,
            ;
            lemma_fundamental_div_mod_converse(i - 1, interval, q - 1, interval - 1);
        } else {
            assert(i - 1 == q * interval + (r - 1)) by (nonlinear_arith)
                requires
                    i == interval * q + r,
            ;
            lemma_fundamental_div_mod_converse(i - 1, interval, q, r - 1);
        }
    } else {
        lemma_basic_div(0, interval);
    }
    lemma_div_is_ordered(i, n - 1, interval);
}

/// Builds the root moves; `None` when the time ran out.
fn roots<F: Fn() -> u64>(
    t: &Tables,
    clock: &mut Clock<F>,
    board: &Board,
    history: &Vec<u64>,
    deadline: u64,
    interval: u32,
    all: &Vec<u16>,
    first: usize,
) -> (r: Option<Roots>)
    requires
        t.wf(),
        old(clock).wf(),
        board.wf(),
        fair(board@),
        interval > 0,
        all@ == board@.generated(false),
        first < all@.len(),
        board@.keeps_king_safe(all@[first as int]),
        forall|j: int| 0 <= j < first ==> !board@.keeps_king_safe(#[trigger] all@[j]),
    ensures
        final(clock).wf(),
        final(clock).now == old(clock).now,
        match r {
            Some(roots) => {
                &&& roots.are(board@, history@, board@.legal_list())
                &&& looks_made(
                    old(clock).readings@,
                    final(clock).readings@,
                    board@.gathering_looks(interval as int),
                    false,
                    deadline as int,
                )
            },
            None => {
                let n = final(clock).readings@.len() - old(clock).readings@.len();
                &&& n <= board@.gathering_looks(interval as int)
                &&& looks_made(
                    old(clock).readings@,
                    final(clock).readings@,
                    n,
                    true,
                    deadline as int,
                )
            },
        },
{
    let ghost p = board@;
    let ghost pred = |m: u16| p.keeps_king_safe(m);
    let ghost log = clock.readings@;
    let mut b = *board;
    let mut r = Roots { items: Vec::new(), scores: Vec::new() };
    let mut i: usize = 0;
    proof {
        lemma_fair_moves(p);
        lemma_no_looks(log, deadline as int);
        assert(all@.take(0).filter(pred) =~= Seq::<u16>::empty()) by {
            reveal(Seq::filter);
        }
        assert(r.items@ =~= all@.take(0).filter(pred).map_values(p.root_move(history@)));
    }
    while i < all.len()
        invariant
            t.wf(),
            clock.wf(),
            clock.now == old(clock).now,
            log == old(clock).readings@,
            looks_made(
                log,
                clock.readings@,
                looks_before(i as int, interval as int),
                false,
                deadline as int,
            ),
            board.wf(),
            p == board@,
            fair(p),
            interval > 0,
            b == *board,
            pred == (|m: u16| p.keeps_king_safe(m)),
            all@ == p.generated(false),
            first < all@.len(),
            p.keeps_king_safe(all@[first as int]),
            forall|j: int| 0 <= j < first ==> !p.keeps_king_safe(#[trigger] all@[j]),
            forall|j: int| 0 <= j < all@.len() ==> candidate(p, #[trigger] all@[j], false),
            i <= all@.len(),
            r.are(p, history@, all@.take(i as int).filter(pred)),
        decreases all@.len() - i,
    {
        proof {
            lemma_looks_before(i as int, interval as int, all@.len() as int);
        }
        if i > 0 && i % (interval as usize) == 0 {
            let ghost before = clock.readings@;
            let x = clock.read();
            proof {
                lemma_look(log, before, looks_before(i as int, interval as int), x, deadline as int);
            }
            if x >= deadline {
                return None;
            }
        }
        let m = all[i];
        proof {
            lemma_filter_step(all@, pred, i as int);
            assert(candidate(p, all@[i as int], false));
        }
        if i >= first {
            match try_move(t, &mut b, m, Ghost(false)) {
                None => {},
                Some(u) => {
                    r.push(&b, history, m, Ghost(p), Ghost(all@.take(i as int).filter(pred)));
                    take_back(&mut b, m, u, Ghost(*board));
                },
            }
        } else {
            assert(!p.keeps_king_safe(all@[i as int]));
        }
        i = i + 1;
    }
    assert(all@.take(i as int) =~= all@);
    Some(r)
}

/// The index of the first legal move; the length of the list without one.
fn first_legal(t: &Tables, board: &Board, all: &Vec<u16>) -> (i: usize)
    requires
        t.wf(),
        board.wf(),
        fair(board@),
        all@ == board@.generated(false),
    ensures
        i <= all@.len(),
        forall|j: int| 0 <= j < i ==> !board@.keeps_king_safe(#[trigger] all@[j]),
        i < all@.len() ==> board@.keeps_king_safe(all@[i as int]),
{
    let ghost p = board@;
    let mut b = *board;
    let mut i: usize = 0;
    proof {
        lemma_fair_moves(p);
    }
    while i < all.len()
        invariant
            t.wf(),
            board.wf(),
            p == board@,
            fair(p),
            b == *board,
            all@ == p.generated(false),
            forall|j: int| 0 <= j < all@.len() ==> candidate(p, #[trigger] all@[j], false),
            i <= all@.len(),
            forall|j: int| 0 <= j < i ==> !p.keeps_king_safe(#[trigger] all@[j]),
        decreases all@.len() - i,
    {
        let m = all[i];
        assert(candidate(p, all@[i as int], false));
        match try_move(t, &mut b, m, Ghost(false)) {
            None => {},
            Some(u) => {
                take_back(&mut b, m, u, Ghost(*board));
                return i;
            },
        }
        i = i + 1;
    }
    i
}

proof fn lemma_first_legal(p: Pos, i: int)
    requires
        fair(p),
        0 <= i <= p.generated(false).len(),
        forall|j: int| 0 <= j < i ==> !p.keeps_king_safe(#[trigger] p.generated(false)[j]),
        i < p.generated(false).len() ==> p.keeps_king_safe(p.generated(false)[i]),
    ensures
        i == p.generated(false).len() <==> p.legal_list().len() == 0,
        i < p.generated(false).len() ==> p.legal_list()[0] == p.generated(false)[i],
{
    let all = p.generated(false);
    let pred = |m: u16| p.keeps_king_safe(m);
    lemma_skip_unsafe(all, pred, i);
    if i == all.len() {
        assert(all.take(i) =~= all);
    } else {
        lemma_filter_step(all, pred, i);
        lemma_filter_starts(all, pred, i + 1);
        assert(all.take(i + 1).filter(pred)[0] == all[i]);
    }
}

proof fn lemma_skip_unsafe(s: Seq<u16>, pred: spec_fn(u16) -> bool, i: int)
    requires
        0 <= i <= s.len(),
        forall|j: int| 0 <= j < i ==> !pred(#[trigger] s[j]),
    ensures
        s.take(i).filter(pred) == Seq::<u16>::empty(),
    decreases i,
{
    if i > 0 {
        lemma_skip_unsafe(s, pred, i - 1);
        lemma_filter_step(s, pred, i - 1);
    } else {
        reveal(Seq::filter);
    }
}

proof fn lemma_filter_starts(s: Seq<u16>, pred: spec_fn(u16) -> bool, i: int)
    requires
        0 <= i <= s.len(),
    ensures
        s.filter(pred).len() >= s.take(i).filter(pred).len(),
        forall|j: int|
            0 <= j < s.take(i).filter(pred).len() ==> s.filter(pred)[j] == #[trigger] s.take(
                i,
            ).filter(pred)[j],
{
    broadcast use Seq::filter_distributes_over_add;

    assert(s =~= s.take(i) + s.skip(i));
    assert(s.filter(pred) =~= s.take(i).filter(pred) + s.skip(i).filter(pred));
}

/// The engine between moves.
pub struct Player {
    pub moves_played: u32,
}

impl Player {
    pub fn new() -> (r: Player)
        ensures
            r.moves_played == 0,
    {
        Player { moves_played: 0 }
    }

    /// The margin for the next move, which is counted.
    fn margin(&mut self) -> (percent: u64)
        ensures
            percent == margin_of(old(self).moves_played),
            final(self).moves_played == if old(self).moves_played < u32::MAX {
                (old(self).moves_played + 1) as u32
            } else {
                u32::MAX
            },
    {
        let first = self.moves_played == 0;
        self.moves_played = self.moves_played.saturating_add(1);
        if first {
            FIRST_MOVE_SAFETY
        } else {
            SAFETY
        }
    }

    /// Chooses a move within the budget, or none when the position has none. The readings of
    /// the clock decide which: the first starts the budget, and the first after it that
    /// shows that the margin is used up ends the choice.
    pub fn hfc_play<F: Fn() -> u64>(
        &mut self,
        t: &Tables,
        clock: &mut Clock<F>,
        board: &Board,
        history: &Vec<u64>,
        budget: &Budget,
    ) -> (m: u16)
        requires
            t.wf(),
            old(clock).wf(),
            board.wf(),
            board@.legal_position(),
        ensures
            final(clock).wf(),
            final(clock).now == old(clock).now,
            board@.legal_list().len() == 0 <==> m == 0,
            m != 0 ==> board@.legal(m),
            ({
                let log = old(clock).readings@;
                let start = final(clock).readings@[log.len() as int];
                &&& extends(log.push(start), final(clock).readings@)
                &&& m == 0 ==> final(clock).readings@ == log.push(start)
                &&& m != 0 ==> decided(
                    board@,
                    history@,
                    interval_of(budget.cycles) as int,
                    deadline_of(start, budget.cycles, margin_of(old(self).moves_played)),
                    log.push(start),
                    final(clock).readings@,
                    m,
                )
            }),
            forall|c: u64|
                #![trigger stands_at(old(clock).now, c)]
                stands_at(old(clock).now, c) && m != 0 ==> if deadline_of(
                    c,
                    budget.cycles,
                    margin_of(old(self).moves_played),
                ) > c {
                    board@.chosen_at(history@, DEEPEST as int, m)
                } else {
                    m == board@.legal_list()[0] || m == board@.root_moves(history@)[0].0
                },
            m != 0 && !board@.chosen_at(history@, DEEPEST as int, m) ==> exists|c: u64, x: u64|
                #![trigger call_ensures(old(clock).now, (), c), call_ensures(old(clock).now, (), x)]
                call_ensures(old(clock).now, (), c) && call_ensures(old(clock).now, (), x) && x
                    >= deadline_of(c, budget.cycles, margin_of(old(self).moves_played)),
            final(self).moves_played == if old(self).moves_played < u32::MAX {
                (old(self).moves_played + 1) as u32
            } else {
                u32::MAX
            },
    {
        reveal(fair);
        let start = clock.read();
        let ghost log = clock.readings@;
        let percent = self.margin();
        let m = play(t, clock, board, history, budget, start, percent);
        proof {
            board@.lemma_sound();
            board@.law_legal_list_is_legal(m);
            reveal(settled_by);
            reveal(Clock::wf);
            let after = clock.readings@;
            assert(after.take(log.len() as int) == log);
            assert(after[log.len() - 1] == after.take(log.len() as int)[log.len() - 1]);
            if m != 0 && !board@.chosen_at(history@, DEEPEST as int, m) {
                let x = after.last();
                assert(call_ensures(clock.now, (), after[after.len() - 1]));
                assert(call_ensures(clock.now, (), start));
            }
            if after.len() > log.len() {
                assert(call_ensures(clock.now, (), after[log.len() as int]));
                assert(call_ensures(clock.now, (), after[after.len() - 1]));
            }
        }
        m
    }
}

/// The part of the budget that a move may use after `moves_played` others.
pub open spec fn margin_of(moves_played: u32) -> u64 {
    if moves_played == 0 {
        FIRST_MOVE_SAFETY
    } else {
        SAFETY
    }
}

/// What a completed search chooses, kept folded.
#[verifier::opaque]
spec fn picked(p: Pos, history: Seq<u64>, depth: int, m: u16) -> bool {
    p.chosen_at(history, depth, m)
}

proof fn lemma_picked(p: Pos, history: Seq<u64>, depth: int, r: (u16, i32))
    requires
        fair(p),
        settled(p, depth, p.root_moves(history), r),
    ensures
        picked(p, history, depth, r.0),
        p.legal_list().contains(r.0),
        r.0 != 0,
{
    reveal(settled);
    reveal(picked);
    lemma_roots(p, history);
    let reps = p.root_moves(history);
    let k = choose|k: int|
        #![trigger reps[k]]
        is_choice(p, depth, reps, k) && r.0 == reps[k].0;
    assert(p.root_moves(history)[k].0 == r.0);
    lemma_open_move(p, reps[k].0);
}

proof fn lemma_roots(p: Pos, history: Seq<u64>)
    requires
        fair(p),
    ensures
        p.root_moves(history).len() == p.legal_list().len(),
        forall|k: int|
            0 <= k < p.root_moves(history).len() ==> p.legal_list().contains(
                (#[trigger] p.root_moves(history)[k]).0,
            ) && open_move(p, p.root_moves(history)[k].0),
{
    reveal(fair);
    p.lemma_sound();
    let list = p.legal_list();
    let items = list.map_values(p.root_move(history));
    let r = p.root_moves(history);
    lemma_best_first_contains(items, p.glance(), (0u16, 0usize));
    assert forall|k: int| 0 <= k < r.len() implies list.contains((#[trigger] r[k]).0) && open_move(
        p,
        r[k].0,
    ) by {
        assert(r.contains(r[k]));
        lemma_best_first_contains(items, p.glance(), r[k]);
        let i = choose|i: int| 0 <= i < items.len() && items[i] == r[k];
        assert(list[i] == r[k].0);
        assert(list.contains(list[i]));
        p.law_legal_list_is_legal(list[i]);
        lemma_open_legal(p, list[i]);
    }
}

proof fn lemma_first_roots(p: Pos, history: Seq<u64>)
    requires
        fair(p),
        p.legal_list().len() > 0,
    ensures
        p.root_moves(history).len() > 0,
        p.legal_list()[0] != 0,
        p.legal_list().contains(p.legal_list()[0]),
        p.root_moves(history)[0].0 != 0,
        p.legal_list().contains(p.root_moves(history)[0].0),
{
    lemma_roots(p, history);
    lemma_open_move(p, p.root_moves(history)[0].0);
    let m = p.legal_list()[0];
    assert(p.legal_list().contains(m));
    reveal(fair);
    p.lemma_sound();
    p.law_legal_list_is_legal(m);
    lemma_open_legal(p, m);
    lemma_open_move(p, m);
}

fn candidates(t: &Tables, board: &Board) -> (r: Vec<u16>)
    requires
        t.wf(),
        board.wf(),
        fair(board@),
    ensures
        r@ == board@.generated(false),
{
    proof {
        lemma_fair_moves(board@);
    }
    board.gen_list::<false>(t)
}

/// The same as [`decided`], kept folded.
#[verifier::opaque]
spec fn settled_by(
    p: Pos,
    history: Seq<u64>,
    interval: int,
    deadline: int,
    log: Seq<u64>,
    after: Seq<u64>,
    m: u16,
) -> bool {
    decided(p, history, interval, deadline, log, after, m)
}

fn play<F: Fn() -> u64>(
    t: &Tables,
    clock: &mut Clock<F>,
    board: &Board,
    history: &Vec<u64>,
    budget: &Budget,
    start: u64,
    percent: u64,
) -> (m: u16)
    requires
        t.wf(),
        old(clock).wf(),
        board.wf(),
        fair(board@),
        percent <= 100,
    ensures
        final(clock).wf(),
        final(clock).now == old(clock).now,
        board@.legal_list().len() == 0 <==> m == 0,
        m != 0 ==> board@.legal_list().contains(m),
        extends(old(clock).readings@, final(clock).readings@),
        m == 0 ==> final(clock).readings == old(clock).readings,
        m != 0 ==> settled_by(
            board@,
            history@,
            interval_of(budget.cycles) as int,
            deadline_of(start, budget.cycles, percent),
            old(clock).readings@,
            final(clock).readings@,
            m,
        ),
{
    let ghost p = board@;
    let ghost log = clock.readings@;
    let deadline = budget.deadline(start, percent);
    let interval = check_interval(budget.cycles);
    let all = candidates(t, board);
    let first = first_legal(t, board, &all);
    proof {
        lemma_first_legal(p, first as int);
        assert(log.take(log.len() as int) =~= log);
    }
    if first == all.len() {
        return 0;
    }
    let in_hand = all[first];
    proof {
        lemma_first_roots(p, history@);
    }
    let r = match roots(t, clock, board, history, deadline, interval, &all, first) {
        None => {
            proof {
                reveal(settled_by);
                reveal(looks_made);
            }
            return in_hand;
        },
        Some(r) => r,
    };
    let reps = sort_desc(&r.items, &r.scores, Ghost(p.glance()));
    assert(reps@ == p.root_moves(history@));
    let ghost gathered = clock.readings@;
    let x = clock.read();
    proof {
        lemma_look(log, gathered, p.gathering_looks(interval as int), x, deadline as int);
    }
    if x >= deadline {
        proof {
            reveal(settled_by);
            reveal(looks_made);
        }
        return reps[0].0;
    }
    let ghost ready = clock.readings@;
    let m = deepen(t, clock, board, history, deadline, interval, &reps);
    proof {
        lemma_decided(
            p,
            history@,
            interval as int,
            deadline as int,
            log,
            ready,
            clock.readings@,
            m,
        );
    }
    m
}

/// What the looks during the search make of the choice, kept folded.
#[verifier::opaque]
spec fn deepened(
    p: Pos,
    history: Seq<u64>,
    interval: int,
    deadline: int,
    log: Seq<u64>,
    after: Seq<u64>,
    m: u16,
) -> bool {
    let looks = after.len() - log.len();
    if looks > 0 && after.last() >= deadline {
        &&& looked(log, after, looks, true, deadline)
        &&& exists|d: int|
            0 <= d < DEEPEST && p.iterated_nodes(history, d) as int / interval < looks
                <= p.iterated_nodes(history, d + 1) as int / interval && #[trigger] p.kept_after(
                history,
                d,
                m,
            )
    } else {
        &&& looked(log, after, looks, false, deadline)
        &&& looks == p.iterated_nodes(history, DEEPEST as int) as int / interval
        &&& p.chosen_at(history, DEEPEST as int, m)
    }
}

proof fn lemma_decided(
    p: Pos,
    history: Seq<u64>,
    interval: int,
    deadline: int,
    log: Seq<u64>,
    ready: Seq<u64>,
    after: Seq<u64>,
    m: u16,
)
    requires
        looks_made(log, ready, p.gathering_looks(interval) + 1, false, deadline),
        deepened(p, history, interval, deadline, ready, after, m),
        p.gathering_looks(interval) >= 0,
    ensures
        settled_by(p, history, interval, deadline, log, after, m),
        extends(log, after),
{
    reveal(looks_made);
    reveal(deepened);
    reveal(settled_by);
    assert forall|i: int| 0 <= i < ready.len() implies after[i] == ready[i] by {
        assert(after.take(ready.len() as int)[i] == after[i]);
    }
    assert(after.take(log.len() as int) =~= ready.take(log.len() as int));
    assert(forall|i: int| log.len() <= i < ready.len() ==> (#[trigger] after[i]) == ready[i]);
}

/// The move in hand, kept folded.
#[verifier::opaque]
spec fn in_hand_after(p: Pos, history: Seq<u64>, d: int, m: u16) -> bool {
    p.kept_after(history, d, m)
}

/// A completed iteration replaces the move in hand.
proof fn lemma_iterated(p: Pos, history: Seq<u64>, d: int, m: u16)
    requires
        d > 0,
        picked(p, history, d, m),
    ensures
        in_hand_after(p, history, d, m),
{
    reveal(picked);
    reveal(in_hand_after);
}

proof fn lemma_iterated_nodes(p: Pos, history: Seq<u64>, d: int)
    requires
        d > 0,
    ensures
        p.iterated_nodes(history, d) == p.iterated_nodes(history, d - 1) + p.root_nodes(
            d,
            p.root_moves(history),
            0,
            (-INFINITE) as int,
        ),
{
}

/// The iteration after `d` was aborted.
proof fn lemma_cut_short(
    p: Pos,
    history: Seq<u64>,
    first: Searcher,
    log: Seq<u64>,
    mid: Searcher,
    halfway: Seq<u64>,
    later: Searcher,
    after: Seq<u64>,
    d: int,
    m: u16,
)
    requires
        first.wf(),
        !first.aborted,
        first.check == 0,
        !mid.aborted,
        mid.deadline == first.deadline,
        later.aborted,
        0 <= d < DEEPEST,
        spent(first, log, mid, halfway, p.iterated_nodes(history, d) as int),
        spent(
            mid,
            halfway,
            later,
            after,
            p.root_nodes(d + 1, p.root_moves(history), 0, (-INFINITE) as int) as int,
        ),
        spent(first, log, later, after, p.iterated_nodes(history, d + 1) as int),
        in_hand_after(p, history, d, m),
    ensures
        deepened(p, history, first.interval as int, first.deadline as int, log, after, m),
{
    reveal(spent);
    reveal(deepened);
    reveal(in_hand_after);
    assert(p.kept_after(history, d, m));
}

proof fn lemma_completed(
    p: Pos,
    history: Seq<u64>,
    first: Searcher,
    log: Seq<u64>,
    later: Searcher,
    after: Seq<u64>,
    m: u16,
)
    requires
        first.wf(),
        !first.aborted,
        first.check == 0,
        !later.aborted,
        spent(first, log, later, after, p.iterated_nodes(history, DEEPEST as int) as int),
        in_hand_after(p, history, DEEPEST as int, m),
    ensures
        deepened(p, history, first.interval as int, first.deadline as int, log, after, m),
{
    reveal(spent);
    reveal(deepened);
    reveal(in_hand_after);
}

/// Iterative deepening: every completed iteration replaces the choice of the one before.
fn deepen<F: Fn() -> u64>(
    t: &Tables,
    clock: &mut Clock<F>,
    board: &Board,
    history: &Vec<u64>,
    deadline: u64,
    interval: u32,
    reps: &Vec<(u16, usize)>,
) -> (m: u16)
    requires
        t.wf(),
        old(clock).wf(),
        board.wf(),
        fair(board@),
        interval > 0,
        reps@ == board@.root_moves(history@),
        reps@.len() > 0,
    ensures
        final(clock).wf(),
        final(clock).now == old(clock).now,
        m != 0,
        board@.legal_list().contains(m),
        deepened(
            board@,
            history@,
            interval as int,
            deadline as int,
            old(clock).readings@,
            final(clock).readings@,
            m,
        ),
{
    let ghost p = board@;
    let ghost log = clock.readings@;
    let mut b = *board;
    let mut s = Searcher::until(deadline, interval);
    let ghost first = s;
    let mut best = reps[0].0;
    let mut depth: i32 = 1;
    proof {
        lemma_roots(p, history@);
        lemma_open_move(p, reps@[0].0);
        lemma_spent_starts(first, log);
        reveal(in_hand_after);
    }
    while depth <= DEEPEST
        invariant
            t.wf(),
            clock.wf(),
            clock.now == old(clock).now,
            log == old(clock).readings@,
            board.wf(),
            p == board@,
            fair(p),
            b == *board,
            s.wf(),
            !s.aborted,
            first.wf(),
            !first.aborted,
            first.check == 0,
            first.deadline == deadline,
            first.interval == interval,
            first.goes_on_as(&s),
            reps@ == p.root_moves(history@),
            reps@.len() > 0,
            forall|k: int|
                0 <= k < reps@.len() ==> p.legal_list().contains((#[trigger] reps@[k]).0)
                    && open_move(p, reps@[k].0),
            1 <= depth <= DEEPEST + 1,
            best != 0,
            p.legal_list().contains(best),
            in_hand_after(p, history@, depth - 1, best),
            spent(
                first,
                log,
                s,
                clock.readings@,
                p.iterated_nodes(history@, depth - 1) as int,
            ),
        decreases DEEPEST + 1 - depth,
    {
        let ghost mid = s;
        let ghost halfway = clock.readings@;
        let (m, score) = s.root(t, clock, &mut b, depth, reps);
        proof {
            lemma_iterated_nodes(p, history@, depth as int);
            lemma_spent_goes_on(
                first,
                log,
                mid,
                halfway,
                s,
                clock.readings@,
                p.iterated_nodes(history@, depth - 1) as int,
                p.root_nodes(depth as int, reps@, 0, (-INFINITE) as int) as int,
                p.iterated_nodes(history@, depth as int) as int,
            );
        }
        if s.aborted {
            proof {
                lemma_cut_short(
                    p,
                    history@,
                    first,
                    log,
                    mid,
                    halfway,
                    s,
                    clock.readings@,
                    depth - 1,
                    best,
                );
            }
            return best;
        }
        proof {
            lemma_picked(p, history@, depth as int, (m, score));
            lemma_iterated(p, history@, depth as int, m);
        }
        if m != 0 {
            best = m;
        }
        depth = depth + 1;
    }
    proof {
        lemma_completed(p, history@, first, log, s, clock.readings@, best);
    }
    best
}

} // verus!
