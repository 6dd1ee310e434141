//! What engines choose, and how long they may take over it.
use vstd::arithmetic::div_mod::{lemma_fundamental_div_mod, lemma_mod_bound};
use vstd::prelude::*;

use crate::budget::deadline_of;
use crate::effort::larger;
use crate::example::{chosen_among, greedy_within, is_greedy_choice, SAFETY};
use crate::field_laws::stands_alone;
use crate::geometry::is_square;
use crate::native::{INIT_TICKS, MOVE_CYCLES};
use crate::order_laws::{law_legal_moves_come_in_order, turn_of};
use crate::ordering::{law_best_first_is_a_stable_sort, lemma_best_first_contains};
use crate::pacing::paced;
use crate::position::{Man, Pos};
use crate::reference::{decided, margin_of, DEEPEST};
use crate::reference_laws::{first_look, law_the_best_move_is_played, lemma_rep, outlook};
use crate::search::clamp;
use crate::searcher::{root_value, Searcher};
use crate::trial::{candidate, fair, lemma_candidate};

verus! {

/// The example engine, given time for all of them, plays the legal move that leaves it the most
/// material, and of several the one that is listed first.
pub proof fn law_the_greediest_move_is_played(p: Pos, m: u16, o: u16)
    requires
        p.legal_position(),
        chosen_among(p, p.legal_list().len() as int, m),
        p.legal(o),
    ensures
        p.legal(m),
        p.after(m).material() <= p.after(o).material(),
        o != m && p.after(m).material() == p.after(o).material() ==> turn_of(p, m) < turn_of(p, o),
{
    let list = p.legal_list();
    let n = list.len() as int;
    let k = choose|k: int|
        #![trigger is_greedy_choice(p, n, k)]
        is_greedy_choice(p, n, k) && m == list[k];
    assert(list.take(n) =~= list);
    p.lemma_sound();
    assert(list.contains(m));
    p.law_legal_list_is_legal(m);
    p.law_legal_list_is_legal(o);
    let j = choose|j: int| 0 <= j < list.len() && list[j] == o;
    assert(p.greed()(list[j]) <= p.greed()(list[k]));
    if o != m && p.after(m).material() == p.after(o).material() {
        if j < k {
            assert(p.greed()(list[j]) < p.greed()(list[k]));
        }
        law_legal_moves_come_in_order(p, k, j);
    }
}

/// The reference engine plays a legal move however early it is stopped. Stopped before it has
/// looked at all moves it plays the first there is, stopped before it has searched the one that
/// looks best at first sight; not stopped at all, one that no legal move is better than when
/// looked at sixty-three plies deep.
pub proof fn law_the_reference_engine_plays_well(
    p: Pos,
    history: Seq<u64>,
    interval: int,
    deadline: int,
    log: Seq<u64>,
    after: Seq<u64>,
    m: u16,
    o: u16,
)
    requires
        p.legal_position(),
        history.len() <= usize::MAX,
        interval > 0,
        decided(p, history, interval, deadline, log, after, m),
        p.legal(o),
    ensures
        p.legal(m),
        !(after.len() > log.len() && after.last() >= deadline) ==> outlook(p, history, 63, o)
            <= outlook(p, history, 63, m),
        ({
            let spare = after.len() - log.len() - 1 - (p.generated(false).len() - 1) / interval;
            let late = after.len() > log.len() && after.last() >= deadline;
            &&& late && spare < 0 ==> m == o || turn_of(p, m) < turn_of(p, o)
            &&& late && spare == 0 ==> first_look(p, history, o) <= first_look(p, history, m)
        }),
{
    let list = p.legal_list();
    p.lemma_sound();
    p.law_legal_list_is_legal(o);
    let j = choose|j: int| 0 <= j < list.len() && list[j] == o;
    lemma_first_glance(p, history, o);
    let late = after.len() > log.len() && after.last() >= deadline;
    let searching = after.len() - log.len() - p.gathering_looks(interval) - 1;
    if late {
        if searching < 0 {
            assert(list.contains(list[0]));
            p.law_legal_list_is_legal(list[0]);
            if j > 0 {
                law_legal_moves_come_in_order(p, 0, j);
            }
        } else if searching > 0 {
            let d = choose|d: int|
                0 <= d < DEEPEST && p.iterated_nodes(history, d) as int
                    / interval < searching <= p.iterated_nodes(history, d + 1) as int / interval
                    && #[trigger] p.kept_after(history, d, m);
            if d > 0 {
                law_the_best_move_is_played(p, history, d, m, o);
            }
        }
    } else {
        law_the_best_move_is_played(p, history, 63, m, o);
    }
}

proof fn lemma_first_glance(p: Pos, history: Seq<u64>, o: u16)
    requires
        p.legal_position(),
        history.len() <= usize::MAX,
        p.legal(o),
    ensures
        p.root_moves(history).len() > 0,
        p.legal(p.root_moves(history)[0].0),
        first_look(p, history, o) <= first_look(p, history, p.root_moves(history)[0].0),
{
    let list = p.legal_list();
    let f = p.root_move(history);
    let reps = list.map_values(f);
    let sorted = p.root_moves(history);
    p.lemma_sound();
    p.law_legal_list_is_legal(o);
    law_best_first_is_a_stable_sort(reps, p.glance(), 0);
    let j = choose|j: int| 0 <= j < list.len() && list[j] == o;
    assert(reps[j] == f(o));
    assert(reps.contains(f(o)));
    lemma_best_first_contains(reps, p.glance(), f(o));
    let n = choose|n: int| 0 <= n < sorted.len() && sorted[n] == f(o);
    assert(sorted.contains(sorted[0]));
    lemma_best_first_contains(reps, p.glance(), sorted[0]);
    let i = choose|i: int| 0 <= i < reps.len() && reps[i] == sorted[0];
    let m = list[i];
    assert(list.contains(m));
    p.law_legal_list_is_legal(m);
    assert(sorted[0] == f(m));
    lemma_rep(p, history, 1, m);
    lemma_rep(p, history, 1, o);
    assert(p.glance()(sorted[0]) >= p.glance()(sorted[n]));
}

/// What a search within a window finds: the value itself where it lies inside, and else the
/// bound that it lies beyond; but a side without a legal move is told its value exactly.
pub proof fn law_a_window_cuts_off(p: Pos, depth: int, ply: int, lo: int, hi: int)
    requires
        lo < hi,
    ensures
        ({
            let v = p.deep_value(depth, ply);
            let w = p.window_value(depth, ply, lo, hi);
            &&& lo <= v <= hi ==> w == v
            &&& depth > 0 && p.legal_list().len() == 0 ==> w == v
            &&& (depth <= 0 || p.legal_list().len() > 0) && v < lo ==> w == lo
            &&& (depth <= 0 || p.legal_list().len() > 0) && v > hi ==> w == hi
        }),
{
}

/// The same without plies to go.
pub proof fn law_a_bound_holds(x: int, lo: int, hi: int)
    requires
        lo < hi,
    ensures
        lo <= clamp(x, lo, hi) <= hi,
        lo <= x <= hi ==> clamp(x, lo, hi) == x,
        x < lo ==> clamp(x, lo, hi) == lo,
        x > hi ==> clamp(x, lo, hi) == hi,
{
}

/// A search looks at one node at least. It looks at no more where it may stop at once: without
/// depth where the position is already worth the upper bound, with depth where there is no
/// legal move.
pub proof fn law_every_search_counts_its_node(p: Pos, depth: int, ply: int, lo: int, hi: int)
    requires
        p.legal_position(),
    ensures
        p.quiet_nodes(lo, hi) >= 1,
        p.deep_nodes(depth, ply, lo, hi) >= 1,
        p.deep_nodes(0, ply, lo, hi) == p.quiet_nodes(lo, hi),
        p.eval() >= hi ==> p.quiet_nodes(lo, hi) == 1,
        (forall|m: u16| #[trigger] p.legal(m) ==> (m as int / 4096) < 4) ==> p.quiet_nodes(lo, hi)
            == 1,
        depth > 0 && (forall|m: u16| !p.legal(m)) ==> p.deep_nodes(depth, ply, lo, hi) == 1,
{
    reveal_with_fuel(Pos::quiet_nodes, 2);
    reveal_with_fuel(Pos::quiet_rest, 2);
    reveal_with_fuel(Pos::deep_nodes, 2);
    reveal_with_fuel(Pos::deep_rest, 2);
    p.lemma_sound();
    if forall|m: u16| #[trigger] p.legal(m) ==> (m as int / 4096) < 4 {
        assert forall|i: int| 0 <= i < p.ordered(true).len() implies !p.keeps_king_safe(
            #[trigger] p.ordered(true)[i],
        ) by {
            lemma_ordered(p, true, i);
            let m = p.ordered(true)[i];
            if p.keeps_king_safe(m) {
                assert(p.legal(m));
            }
        }
        lemma_quiet_rest(p, 0, larger(lo, p.eval()), hi);
    }
    if depth > 0 && forall|m: u16| !p.legal(m) {
        assert forall|i: int| 0 <= i < p.ordered(false).len() implies !p.keeps_king_safe(
            #[trigger] p.ordered(false)[i],
        ) by {
            lemma_ordered(p, false, i);
            let m = p.ordered(false)[i];
            assert(!p.legal(m));
        }
        lemma_deep_rest(p, depth, ply, 0, lo, hi);
    }
}

proof fn lemma_ordered(p: Pos, caps: bool, i: int)
    requires
        p.movable(),
        0 <= i < p.ordered(caps).len(),
    ensures
        p.pseudo_legal(p.ordered(caps)[i]),
        caps ==> p.ordered(caps)[i] as int / 4096 >= 4,
{
    reveal(candidate);
    lemma_candidate(p, p.generated(caps), p.ordered(caps), i, caps);
}

proof fn lemma_quiet_rest(p: Pos, i: int, low: int, hi: int)
    requires
        0 <= i,
        forall|j: int|
            0 <= j < p.ordered(true).len() ==> !p.keeps_king_safe(#[trigger] p.ordered(true)[j]),
    ensures
        p.quiet_rest(i, low, hi) == 0,
    decreases p.ordered(true).len() - i,
{
    reveal(Pos::quiet_rest);
    if i < p.ordered(true).len() {
        let m = p.ordered(true)[i];
        lemma_quiet_rest(p, i + 1, low, hi);
    }
}

proof fn lemma_deep_rest(p: Pos, depth: int, ply: int, i: int, low: int, hi: int)
    requires
        0 <= i,
        forall|j: int|
            0 <= j < p.ordered(false).len() ==> !p.keeps_king_safe(#[trigger] p.ordered(false)[j]),
    ensures
        p.deep_rest(depth, ply, i, low, hi) == 0,
    decreases p.ordered(false).len() - i,
{
    reveal(Pos::deep_rest);
    if i < p.ordered(false).len() {
        let m = p.ordered(false)[i];
        lemma_deep_rest(p, depth, ply, i + 1, low, hi);
    }
}

/// The moves that are tried are those that may be made, each that is more promising before each
/// that is less.
pub proof fn law_promising_moves_are_tried_first(p: Pos, caps: bool, i: int, j: int, m: u16)
    requires
        p.movable(),
        0 <= i < j < p.ordered(caps).len(),
    ensures
        p.promise(p.ordered(caps)[i]) >= p.promise(p.ordered(caps)[j]),
        p.ordered(caps).contains(m) <==> p.pseudo_legal(m) && (caps ==> m as int / 4096 >= 4),
{
    let key = |m: u16| p.promise(m);
    law_best_first_is_a_stable_sort(p.generated(caps), key, 0);
    lemma_best_first_contains(p.generated(caps), key, m);
    p.lemma_kings_home();
    p.law_generated_is_pseudo_legal(caps, m);
    assert(key(p.ordered(caps)[i]) >= key(p.ordered(caps)[j]));
}

/// An engine keeps twelve hundredths of its budget back on its first move and six on every
/// other.
pub proof fn law_a_part_of_the_budget_is_kept_back(moves_played: u32, start: u64, cycles: u64)
    requires
        start + cycles <= u64::MAX,
    ensures
        ({
            let left = start + cycles - deadline_of(start, cycles, margin_of(moves_played));
            let kept = if moves_played == 0 {
                12 * cycles
            } else {
                6 * cycles
            };
            kept <= 100 * left < kept + 100
        }),
        ({
            let left = start + cycles - deadline_of(start, cycles, SAFETY);
            6 * cycles <= 100 * left < 6 * cycles + 100
        }),
{
    let percent = margin_of(moves_played);
    if moves_played == 0 {
        assert(cycles * percent == cycles * 88);
    } else {
        assert(cycles * percent == cycles * 94);
    }
}

/// Setting up may take ten times what a move may.
pub proof fn law_setting_up_is_worth_ten_moves(ticks: u64)
    ensures
        ticks <= INIT_TICKS <==> ticks <= 10 * MOVE_CYCLES,
        ticks <= MOVE_CYCLES <==> ticks <= 150_000,
{
}

/// A position is legal just when each side has one king, no pawn stands on an outer rank, the
/// king and the rook of every right to castle stand at home, a square for en passant is free
/// with a pawn beyond it that can have passed it, and the side that is not to move is not in
/// check.
pub proof fn law_positions_are_legal(p: Pos)
    requires
        p.wf(),
    ensures
        p.legal_position() <==> {
            &&& exists|k: int| stands_alone(p.at, Man { color: 0, kind: 5 }, 64, k)
            &&& exists|k: int| stands_alone(p.at, Man { color: 1, kind: 5 }, 64, k)
            &&& forall|s: int|
                is_square(s) && (s < 8 || s >= 56) && (#[trigger] p.at[s]) is Some
                    ==> p.at[s]->0.kind != 0
            &&& p.rights.wk || p.rights.wq ==> p.at[4] == Some(Man { color: 0, kind: 5 })
            &&& p.rights.wk ==> p.at[7] == Some(Man { color: 0, kind: 3 })
            &&& p.rights.wq ==> p.at[0] == Some(Man { color: 0, kind: 3 })
            &&& p.rights.bk || p.rights.bq ==> p.at[60] == Some(Man { color: 1, kind: 5 })
            &&& p.rights.bk ==> p.at[63] == Some(Man { color: 1, kind: 3 })
            &&& p.rights.bq ==> p.at[56] == Some(Man { color: 1, kind: 3 })
            &&& p.ep < 64 && p.stm == 0 ==> 40 <= p.ep < 48 && p.at[p.ep] is None && p.at[p.ep - 8]
                == Some(Man { color: 1, kind: 0 })
            &&& p.ep < 64 && p.stm == 1 ==> 16 <= p.ep < 24 && p.at[p.ep] is None && p.at[p.ep + 8]
                == Some(Man { color: 0, kind: 0 })
            &&& !p.in_check(1 - p.stm)
        },
{
    lemma_kings(p, 0);
    lemma_kings(p, 1);
    lemma_rights(p);
    lemma_outer(p);
}

proof fn lemma_kings(p: Pos, c: int)
    ensures
        p.one_king(c) <==> exists|k: int|
            stands_alone(p.at, Man { color: c, kind: 5 }, 64, k),
{
    if p.one_king(c) {
        let k = choose|k: int| p.is_only_king(c, k);
        assert(stands_alone(p.at, Man { color: c, kind: 5 }, 64, k));
    }
    if exists|k: int| stands_alone(p.at, Man { color: c, kind: 5 }, 64, k) {
        let k = choose|k: int|
            stands_alone(p.at, Man { color: c, kind: 5 }, 64, k);
        assert(p.is_only_king(c, k));
    }
}

proof fn lemma_rights(p: Pos)
    ensures
        p.rights_sound() <==> {
            &&& p.rights.wk || p.rights.wq ==> p.at[4] == Some(Man { color: 0, kind: 5 })
            &&& p.rights.wk ==> p.at[7] == Some(Man { color: 0, kind: 3 })
            &&& p.rights.wq ==> p.at[0] == Some(Man { color: 0, kind: 3 })
            &&& p.rights.bk || p.rights.bq ==> p.at[60] == Some(Man { color: 1, kind: 5 })
            &&& p.rights.bk ==> p.at[63] == Some(Man { color: 1, kind: 3 })
            &&& p.rights.bq ==> p.at[56] == Some(Man { color: 1, kind: 3 })
        },
{
    assert(p.may_castle(0, true) == p.rights.wk);
    assert(p.may_castle(0, false) == p.rights.wq);
    assert(p.may_castle(1, true) == p.rights.bk);
    assert(p.may_castle(1, false) == p.rights.bq);
}

proof fn lemma_outer(p: Pos)
    ensures
        p.pawns_between() <==> forall|s: int|
            is_square(s) && (s < 8 || s >= 56) && (#[trigger] p.at[s]) is Some ==> p.at[s]->0.kind
                != 0,
{
    if forall|s: int|
        is_square(s) && (s < 8 || s >= 56) && (#[trigger] p.at[s]) is Some ==> p.at[s]->0.kind
            != 0 {
        assert forall|s: int|
            is_square(s) && (#[trigger] p.at[s]) is Some && p.at[s]->0.kind == 0 implies 1 <= s / 8
            <= 6 by {}
    }
}

/// A search that is not stopped reads the clock once for every interval of nodes, counted on
/// from before, and every reading is early. One that is stopped has just read that it is late,
/// for the first time. One that was stopped before reads nothing.
pub proof fn law_the_clock_is_read_at_intervals(
    first: Searcher,
    log: Seq<u64>,
    later: Searcher,
    after: Seq<u64>,
    n: int,
    i: int,
)
    requires
        paced(first, log, later, after, n),
        first.interval > 0,
        n >= 0,
        log.len() <= i < after.len(),
    ensures
        !first.aborted,
        forall|j: int| 0 <= j < log.len() ==> #[trigger] after[j] == log[j],
        !later.aborted ==> {
            &&& first.interval * (after.len() - log.len()) <= first.check + n < first.interval * (
            after.len() - log.len() + 1)
            &&& after[i] < first.deadline
            &&& later.check == first.check + n - first.interval * (after.len() - log.len())
            &&& first.nodes + n <= u64::MAX ==> later.nodes == first.nodes + n
        },
        later.aborted ==> (after[i] >= first.deadline <==> i == after.len() - 1) && first.interval
            * (after.len() - log.len()) <= first.check + n,
{
    let k = first.interval as int;
    let x = first.check + n;
    let looks = after.len() - log.len();
    lemma_fundamental_div_mod(x, k);
    lemma_mod_bound(x, k);
    assert forall|j: int| 0 <= j < log.len() implies #[trigger] after[j] == log[j] by {
        assert(after.take(log.len() as int)[j] == log[j]);
    }
    let due = x / k;
    assert(k * (due + 1) == k * due + k) by (nonlinear_arith);
    assert(looks <= due ==> k * looks <= k * due) by (nonlinear_arith)
        requires
            k > 0,
    ;
}

/// The example engine reads the clock after every legal move but the first, until all are
/// scored or the time is up: it then chooses among as many as it has scored.
pub proof fn law_the_example_engine_watches_the_clock(
    p: Pos,
    deadline: int,
    log: Seq<u64>,
    after: Seq<u64>,
    m: u16,
    i: int,
)
    requires
        greedy_within(p, deadline, log, after, m),
    ensures
        ({
            let scored = after.len() - log.len() + 1;
            &&& chosen_among(p, scored, m)
            &&& log.len() <= i < after.len() - 1 ==> after[i] < deadline
            &&& scored <= p.legal_list().len()
            &&& scored == p.legal_list().len() || after.last() >= deadline
        }),
{
}

/// Root moves are searched in turn: one that would repeat a position for the third time costs
/// nothing, and any other what its search costs within the best found before.
pub proof fn law_root_moves_are_searched_in_turn(
    p: Pos,
    depth: int,
    reps: Seq<(u16, usize)>,
    i: int,
    low: int,
)
    requires
        0 <= i < reps.len(),
    ensures
        p.root_nodes(depth, reps, reps.len() as int, low) == 0,
        p.root_nodes(depth, reps, i, low) == (if reps[i].1 >= 2 {
            0
        } else {
            p.after(reps[i].0).deep_nodes(depth - 1, 1, -60000, -low) as int
        }) + p.root_nodes(
            depth,
            reps,
            i + 1,
            if root_value(p, depth, reps[i]) > low {
                root_value(p, depth, reps[i])
            } else {
                low
            },
        ),
{
    reveal_with_fuel(Pos::root_nodes, 2);
}

/// Playing captures out tries them in turn, each within the best found before and the upper
/// bound, and goes on to the next unless what it finds reaches that bound.
pub proof fn law_captures_are_tried_within_the_best_so_far(p: Pos, i: int, low: int, hi: int)
    requires
        p.legal_position(),
        0 <= i < p.ordered(true).len(),
    ensures
        ({
            let m = p.ordered(true)[i];
            let q = p.after(m);
            let found = -q.quiet_value();
            let below = q.quiet_nodes(-hi, -low) as int;
            let rest = p.quiet_rest(i, low, hi) as int;
            &&& p.quiet_rest(p.ordered(true).len() as int, low, hi) == 0
            &&& !p.legal(m) ==> rest == p.quiet_rest(i + 1, low, hi)
            &&& p.legal(m) && low < hi && found >= hi ==> rest == below
            &&& p.legal(m) && low < found < hi ==> rest == below + p.quiet_rest(i + 1, found, hi)
            &&& p.legal(m) && low < hi && found <= low ==> rest == below + p.quiet_rest(
                i + 1,
                low,
                hi,
            )
        }),
{
    reveal_with_fuel(Pos::quiet_nodes, 2);
    reveal_with_fuel(Pos::quiet_rest, 2);
    reveal(fair);
    p.lemma_sound();
    lemma_ordered(p, true, i);
}

/// Looking ahead tries the moves in the same way, one ply less deep.
pub proof fn law_moves_are_tried_within_the_best_so_far(
    p: Pos,
    depth: int,
    ply: int,
    i: int,
    low: int,
    hi: int,
)
    requires
        p.legal_position(),
        depth > 0,
        0 <= i < p.ordered(false).len(),
    ensures
        ({
            let m = p.ordered(false)[i];
            let q = p.after(m);
            let found = -q.window_value(depth - 1, ply + 1, -hi, -low);
            let below = q.deep_nodes(depth - 1, ply + 1, -hi, -low) as int;
            let rest = p.deep_rest(depth, ply, i, low, hi) as int;
            &&& p.deep_rest(depth, ply, p.ordered(false).len() as int, low, hi) == 0
            &&& p.deep_nodes(depth, ply, low, hi) == 1 + p.deep_rest(depth, ply, 0, low, hi)
            &&& !p.legal(m) ==> rest == p.deep_rest(depth, ply, i + 1, low, hi)
            &&& p.legal(m) && found >= hi ==> rest == below
            &&& p.legal(m) && low < found < hi ==> rest == below + p.deep_rest(
                depth,
                ply,
                i + 1,
                found,
                hi,
            )
            &&& p.legal(m) && found <= low && found < hi ==> rest == below + p.deep_rest(
                depth,
                ply,
                i + 1,
                low,
                hi,
            )
        }),
{
    reveal_with_fuel(Pos::deep_nodes, 2);
    reveal_with_fuel(Pos::deep_rest, 2);
    p.lemma_sound();
    lemma_ordered(p, false, i);
}

} // verus!
