//! The search: it finds the value of a position unless its budget runs out first.
use vstd::arithmetic::div_mod::{
    lemma_basic_div, lemma_div_by_self, lemma_mod_self_0, lemma_small_mod,
};
use vstd::prelude::*;

use crate::board::Board;
use crate::budget::Clock;
use crate::effort::larger;
use crate::evaluation::eval;
use crate::ordering::{best_first, lemma_best_first_contains, order};
use crate::pacing::{
    always_late, can_be_late, lemma_abort_due, lemma_last_look, lemma_spent_goes_on,
    lemma_spent_nothing,
    lemma_spent_starts, lemma_spent_widens, paced, spent,
};
use crate::position::Pos;
use crate::search::{clamp, weight, MATE};
use crate::tables::Tables;
use crate::trial::{
    candidate, fair, lemma_candidate, lemma_open_legal, lemma_open_move, lemma_safe_move,
    open_move, take_back, try_move,
};

verus! {

/// No score reaches this.
pub const INFINITE: i32 = 60000;

/// How many nodes between looks at the clock: that many can elapse past the deadline, so
/// the interval grows with the budget.
pub open spec fn interval_of(budget: u64) -> u32 {
    if budget <= 200_000 {
        1
    } else if budget <= 1_000_000 {
        4
    } else {
        8
    }
}

/// How many nodes between looks at the clock, for a budget.
pub fn check_interval(budget: u64) -> (r: u32)
    ensures
        r == interval_of(budget),
{
    if budget <= 200_000 {
        1
    } else if budget <= 1_000_000 {
        4
    } else {
        8
    }
}

/// A search under way.
pub struct Searcher {
    pub nodes: u64,
    pub deadline: u64,
    pub aborted: bool,
    /// Nodes since the last look at the clock.
    pub check: u32,
    /// Nodes between looks at the clock.
    pub interval: u32,
}

/// The number of nodes after one more. It stays at the largest number.
pub open spec fn counted(nodes: u64) -> u64 {
    if nodes < u64::MAX {
        (nodes + 1) as u64
    } else {
        u64::MAX
    }
}

impl Searcher {
    pub open spec fn wf(&self) -> bool {
        self.check < self.interval
    }

    /// A search without a deadline.
    pub fn new() -> (s: Searcher)
        ensures
            s.wf(),
            s.nodes == 0,
            s.deadline == u64::MAX,
            !s.aborted,
            s.check == 0,
            s.interval == 8,
    {
        Searcher { nodes: 0, deadline: u64::MAX, aborted: false, check: 0, interval: 8 }
    }

    /// A search that looks at the clock every `interval` nodes and stops at `deadline`.
    pub fn until(deadline: u64, interval: u32) -> (s: Searcher)
        requires
            interval > 0,
        ensures
            s.wf(),
            s.nodes == 0,
            s.deadline == deadline,
            !s.aborted,
            s.check == 0,
            s.interval == interval,
    {
        Searcher { nodes: 0, deadline, aborted: false, check: 0, interval }
    }

    /// Whether nothing but progress distinguishes `later` from `self`.
    pub open spec fn goes_on_as(&self, later: &Searcher) -> bool {
        &&& later.wf()
        &&& later.deadline == self.deadline
        &&& later.interval == self.interval
        &&& later.nodes >= self.nodes
        &&& self.aborted ==> later.aborted
    }

    /// Looks at the clock when it is time to, and remembers once the deadline has passed.
    fn out_of_budget<F: Fn() -> u64>(&mut self, clock: &mut Clock<F>) -> (r: bool)
        requires
            old(self).wf(),
            old(clock).wf(),
        ensures
            final(clock).wf(),
            final(clock).now == old(clock).now,
            r == final(self).aborted,
            if old(self).aborted {
                *final(self) == *old(self) && final(clock).readings == old(clock).readings
            } else if old(self).check + 1 < old(self).interval {
                &&& *final(self) == (Searcher { check: (old(self).check + 1) as u32, ..*old(self) })
                &&& final(clock).readings == old(clock).readings
            } else {
                let x = final(clock).readings@.last();
                &&& final(clock).readings@ == old(clock).readings@.push(x)
                &&& *final(self) == (Searcher {
                    check: 0,
                    aborted: x >= old(self).deadline,
                    ..*old(self)
                })
            },
    {
        if self.aborted {
            return true;
        }
        self.check = self.check + 1;
        if self.check >= self.interval {
            self.check = 0;
            let x = clock.read();
            if x >= self.deadline {
                self.aborted = true;
            }
        }
        self.aborted
    }

    /// Counts a node and looks at the clock when it is time to: whether to stop.
    fn enter<F: Fn() -> u64>(&mut self, clock: &mut Clock<F>) -> (r: bool)
        requires
            old(self).wf(),
            old(clock).wf(),
        ensures
            final(clock).wf(),
            final(clock).now == old(clock).now,
            old(self).goes_on_as(final(self)),
            r == final(self).aborted,
            final(self).nodes == counted(old(self).nodes),
            spent(*old(self), old(clock).readings@, *final(self), final(clock).readings@, 1),
    {
        if self.nodes < u64::MAX {
            self.nodes = self.nodes + 1;
        }
        let r = self.out_of_budget(clock);
        proof {
            reveal(spent);
            let first = *old(self);
            let log = old(clock).readings@;
            assert(clock.readings@.take(log.len() as int) =~= log);
            if first.check + 1 < first.interval {
                lemma_basic_div(first.check + 1, first.interval as int);
                lemma_small_mod((first.check + 1) as nat, first.interval as nat);
            } else {
                lemma_div_by_self(first.interval as int);
                lemma_mod_self_0(first.interval as int);
            }
        }
        r
    }

    /// Plays out captures and promotions from a legal position. Unless the search was
    /// aborted, the result is the quiet value of the position, brought into the window. The
    /// board comes back as it was.
    pub fn qsearch<F: Fn() -> u64>(
        &mut self,
        t: &Tables,
        clock: &mut Clock<F>,
        b: &mut Board,
        alpha: i32,
        beta: i32,
    ) -> (r: i32)
        requires
            old(self).wf(),
            t.wf(),
            old(clock).wf(),
            old(b).wf(),
            old(b)@.legal_position(),
            i32::MIN < alpha < beta,
        ensures
            *final(b) == *old(b),
            final(clock).wf(),
            final(clock).now == old(clock).now,
            old(self).goes_on_as(final(self)),
            final(self).nodes > old(self).nodes || old(self).nodes == u64::MAX,
            alpha <= r <= beta,
            !final(self).aborted ==> r == clamp(old(b)@.quiet_value(), alpha as int, beta as int),
            old(self).aborted ==> r == alpha && final(self).nodes == counted(old(self).nodes),
            old(self).check + 1 >= old(self).interval && always_late(
                old(clock).now,
                old(self).deadline,
            ) ==> final(self).aborted,
            final(self).aborted && !old(self).aborted ==> can_be_late(
                old(clock).now,
                old(self).deadline,
            ),
            paced(
                *old(self),
                old(clock).readings@,
                *final(self),
                final(clock).readings@,
                old(b)@.quiet_nodes(alpha as int, beta as int) as int,
            ),
    {
        reveal(fair);
        reveal(spent);
        let r = self.quiet(t, clock, b, alpha, beta);
        proof {
            b@.lemma_some_nodes(0, 0, alpha as int, beta as int);
            lemma_abort_due(
                *old(self),
                old(clock).readings@,
                *self,
                *clock,
                b@.quiet_nodes(alpha as int, beta as int) as int,
            );
        }
        r
    }

    fn quiet<F: Fn() -> u64>(
        &mut self,
        t: &Tables,
        clock: &mut Clock<F>,
        b: &mut Board,
        alpha: i32,
        beta: i32,
    ) -> (r: i32)
        requires
            old(self).wf(),
            t.wf(),
            old(clock).wf(),
            old(b).wf(),
            fair(old(b)@),
            i32::MIN < alpha < beta,
        ensures
            *final(b) == *old(b),
            final(clock).wf(),
            final(clock).now == old(clock).now,
            old(self).goes_on_as(final(self)),
            final(self).nodes > old(self).nodes || old(self).nodes == u64::MAX,
            alpha <= r <= beta,
            !final(self).aborted ==> r == clamp(old(b)@.quiet_value(), alpha as int, beta as int),
            old(self).aborted ==> r == alpha && final(self).nodes == counted(old(self).nodes),
            spent(
                *old(self),
                old(clock).readings@,
                *final(self),
                final(clock).readings@,
                old(b)@.quiet_nodes(alpha as int, beta as int) as int,
            ),
        decreases weight(old(b)@.at, 64),
    {
        let ghost start = *b;
        let ghost p = b@;
        let ghost first = *self;
        let ghost log = clock.readings@;
        let ghost whole = p.quiet_nodes(alpha as int, beta as int) as int;
        let ghost mut used: int = 1;
        proof {
            p.lemma_quiet_nodes(alpha as int, beta as int);
        }
        if self.enter(clock) {
            proof {
                lemma_spent_widens(first, log, *self, clock.readings@, 1, whole);
            }
            return alpha;
        }
        let mut low: i32 = alpha;
        let stand = eval(b);
        proof {
            reveal(fair);
            p.lemma_sound();
            p.lemma_quiet_best(p.legal_caps().len() as int);
        }
        if stand >= beta {
            return beta;
        }
        if stand > low {
            low = stand;
        }
        let all = b.gen_list::<true>(t);
        let moves = order(b, &all);
        let mut i: usize = 0;
        proof {
            reveal(fair);
            reveal(tried);
            assert forall|j: int| 0 <= j < moves@.len() implies candidate(
                p,
                #[trigger] moves@[j],
                true,
            ) by {
                lemma_candidate(p, all@, moves@, j, true);
            }
        }
        while i < moves.len()
            invariant
                self.wf(),
                first.goes_on_as(self),
                self.nodes > first.nodes || first.nodes == u64::MAX,
                t.wf(),
                clock.wf(),
                clock.now == old(clock).now,
                log == old(clock).readings@,
                *b == start,
                start.wf(),
                start == *old(b),
                first == *old(self),
                p == start@,
                fair(p),
                forall|j: int|
                    0 <= j < moves@.len() ==> candidate(p, #[trigger] moves@[j], true),
                i <= moves@.len(),
                i32::MIN < alpha <= low < beta,
                self.aborted ==> spent(first, log, *self, clock.readings@, whole),
                !self.aborted ==> spent(first, log, *self, clock.readings@, used) && used
                    + p.quiet_rest(i as int, low as int, beta as int) == whole,
                whole == p.quiet_nodes(alpha as int, beta as int),
                moves@ == p.ordered(true),
                first.wf(),
                !first.aborted,
                !self.aborted ==> tried(
                    p,
                    moves@,
                    i as int,
                    alpha as int,
                    low as int,
                    Some(p.eval()),
                    quiet_reply(p),
                ),
                weight(p.at, 64) == weight(start@.at, 64),
            decreases moves@.len() - i,
        {
            let m = moves[i];
            assert(candidate(p, moves@[i as int], true));
            let ghost before = low as int;
            proof {
                p.lemma_quiet_rest(i as int, low as int, beta as int);
            }
            let u = match try_move(t, b, m, Ghost(true)) {
                None => {
                    proof {
                        if !self.aborted {
                            lemma_tried_skip(
                                p,
                                moves@,
                                i as int,
                                alpha as int,
                                low as int,
                                Some(p.eval()),
                                quiet_reply(p),
                            );
                        }
                    }
                    i = i + 1;
                    continue;
                },
                Some(u) => u,
            };
            let ghost mid = *self;
            let ghost halfway = clock.readings@;
            let ghost below = b@.quiet_nodes(-beta as int, -low as int) as int;
            let r = self.quiet(t, clock, b, -beta, -low);
            proof {
                lemma_spent_goes_on(
                    first,
                    log,
                    mid,
                    halfway,
                    *self,
                    clock.readings@,
                    used,
                    below,
                    whole,
                );
                used = used + below;
            }
            let s = -r;
            take_back(b, m, u, Ghost(start));
            if s >= beta {
                proof {
                    if !self.aborted {
                        p.lemma_cutoff(m, alpha as int, beta as int);
                    }
                }
                return beta;
            }
            if s > low {
                low = s;
            }
            proof {
                if !self.aborted {
                    lemma_tried_step(
                        p,
                        moves@,
                        i as int,
                        alpha as int,
                        before,
                        beta as int,
                        low as int,
                        Some(p.eval()),
                        quiet_reply(p),
                    );
                }
            }
            i = i + 1;
        }
        proof {
            p.lemma_quiet_rest(i as int, low as int, beta as int);
            if !self.aborted {
                p.lemma_quiet_found(moves@, alpha as int, low as int, beta as int);
            }
        }
        low
    }
}

/// What a move is worth to the side that makes it when captures are played out after it.
spec fn quiet_reply(p: Pos) -> spec_fn(u16) -> int {
    |m: u16| -p.after(m).quiet_value()
}

/// The bound `alpha` is what the first `n` moves, and standing still at `stand`, have made
/// of `lo`: none of them is worth more, and it was raised only to what one is worth.
#[verifier::opaque]
spec fn tried(
    p: Pos,
    moves: Seq<u16>,
    n: int,
    lo: int,
    alpha: int,
    stand: Option<int>,
    reply: spec_fn(u16) -> int,
) -> bool {
    &&& stand is Some ==> stand->0 <= alpha
    &&& forall|j: int|
        0 <= j < n && p.keeps_king_safe(#[trigger] moves[j]) ==> reply(moves[j]) <= alpha
    &&& alpha == lo || stand == Some(alpha) || exists|j: int|
        0 <= j < n && p.keeps_king_safe(#[trigger] moves[j]) && reply(moves[j]) == alpha
}

proof fn lemma_tried_skip(
    p: Pos,
    moves: Seq<u16>,
    n: int,
    lo: int,
    alpha: int,
    stand: Option<int>,
    reply: spec_fn(u16) -> int,
)
    requires
        0 <= n < moves.len(),
        tried(p, moves, n, lo, alpha, stand, reply),
        !p.keeps_king_safe(moves[n]),
    ensures
        tried(p, moves, n + 1, lo, alpha, stand, reply),
{
    reveal(tried);
    if alpha != lo && stand != Some(alpha) {
        let j = choose|j: int|
            0 <= j < n && p.keeps_king_safe(#[trigger] moves[j]) && reply(moves[j]) == alpha;
        assert(reply(moves[j]) == alpha);
    }
}

proof fn lemma_tried_step(
    p: Pos,
    moves: Seq<u16>,
    n: int,
    lo: int,
    alpha: int,
    hi: int,
    raised: int,
    stand: Option<int>,
    reply: spec_fn(u16) -> int,
)
    requires
        0 <= n < moves.len(),
        lo <= alpha < hi,
        tried(p, moves, n, lo, alpha, stand, reply),
        clamp(reply(moves[n]), alpha, hi) < hi,
        raised == clamp(reply(moves[n]), alpha, hi),
        p.keeps_king_safe(moves[n]),
    ensures
        tried(p, moves, n + 1, lo, raised, stand, reply),
{
    reveal(tried);
    if raised > alpha {
        assert(reply(moves[n]) == raised);
    } else if alpha != lo && stand != Some(alpha) {
        let j = choose|j: int|
            0 <= j < n && p.keeps_king_safe(#[trigger] moves[j]) && reply(moves[j]) == alpha;
        assert(reply(moves[j]) == alpha);
    }
}

impl Pos {
    /// One capture that is worth at least `hi` brings the quiet value there.
    proof fn lemma_cutoff(self, m: u16, lo: int, hi: int)
        requires
            fair(self),
            self.legal(m),
            candidate(self, m, true),
            lo < hi,
            -self.after(m).quiet_value() >= hi,
        ensures
            clamp(self.quiet_value(), lo, hi) == hi,
    {
        reveal(fair);
        reveal(candidate);
        self.lemma_sound();
        self.lemma_legal_caps(m);
        self.lemma_quiet_best(self.legal_caps().len() as int);
        let j = choose|j: int| 0 <= j < self.legal_caps().len() && self.legal_caps()[j] == m;
        assert(-self.after(self.legal_caps()[j]).quiet_value() <= self.quiet_value());
    }

    /// When all captures have been tried, the bound they raised is the quiet value.
    proof fn lemma_quiet_found(self, moves: Seq<u16>, lo: int, alpha: int, hi: int)
        requires
            fair(self),
            lo <= alpha < hi,
            moves == best_first(self.generated(true), |m: u16| self.promise(m)),
            tried(
                self,
                moves,
                moves.len() as int,
                lo,
                alpha,
                Some(self.eval()),
                quiet_reply(self),
            ),
        ensures
            clamp(self.quiet_value(), lo, hi) == alpha,
    {
        reveal(fair);
        reveal(tried);
        let reply = quiet_reply(self);
        let caps = self.legal_caps();
        self.lemma_sound();
        self.lemma_quiet_best(caps.len() as int);
        assert forall|j: int| 0 <= j < caps.len() implies -self.after(
            #[trigger] caps[j],
        ).quiet_value() <= alpha by {
            let m = caps[j];
            assert(caps.contains(m));
            self.lemma_legal_caps(m);
            self.lemma_kings_home();
            self.law_generated_is_pseudo_legal(true, m);
            lemma_best_first_contains(self.generated(true), |m: u16| self.promise(m), m);
            let i = choose|i: int| 0 <= i < moves.len() && moves[i] == m;
            assert(self.keeps_king_safe(moves[i]));
            assert(reply(moves[i]) <= alpha);
        }
        if alpha != lo && alpha != self.eval() {
            let i = choose|j: int|
                0 <= j < moves.len() && self.keeps_king_safe(#[trigger] moves[j]) && reply(moves[j])
                    == alpha;
            let m = moves[i];
            assert(moves.contains(m));
            lemma_best_first_contains(self.generated(true), |m: u16| self.promise(m), m);
            self.lemma_kings_home();
            self.law_generated_is_pseudo_legal(true, m);
            self.lemma_legal_caps(m);
            let j = choose|j: int| 0 <= j < caps.len() && caps[j] == m;
            assert(-self.after(caps[j]).quiet_value() <= self.quiet_value());
        }
    }
}

// ------------------------------------------------------------------ looking ahead

/// `r` is what looking ahead finds, kept folded.
#[verifier::opaque]
spec fn found(p: Pos, depth: int, ply: int, lo: int, hi: int, r: int) -> bool {
    r == p.window_value(depth, ply, lo, hi)
}

/// `r` is within the bounds of a search, kept folded.
#[verifier::opaque]
spec fn bounded(p: Pos, depth: int, ply: int, lo: int, hi: int, r: int) -> bool {
    p.in_window(depth, ply, lo, hi, r)
}

proof fn lemma_bounded(p: Pos, depth: int, ply: int, lo: int, hi: int, r: int)
    requires
        lo <= r <= hi,
    ensures
        bounded(p, depth, ply, lo, hi, r),
{
    reveal(bounded);
}

proof fn lemma_found(p: Pos, depth: int, ply: int, lo: int, hi: int, r: int)
    requires
        p.legal_list().len() > 0,
        r == clamp(p.deep_value(depth, ply), lo, hi),
    ensures
        found(p, depth, ply, lo, hi, r),
{
    reveal(found);
}

/// What a move is worth to the side that makes it, looking `depth` plies ahead.
spec fn deep_reply(p: Pos, depth: int, ply: int) -> spec_fn(u16) -> int {
    |m: u16| -p.after(m).deep_value(depth - 1, ply + 1)
}

impl Pos {
    proof fn lemma_deep_cutoff(self, m: u16, depth: int, ply: int, lo: int, hi: int)
        requires
            fair(self),
            self.legal(m),
            depth > 0,
            lo < hi,
            -self.after(m).deep_value(depth - 1, ply + 1) >= hi,
        ensures
            clamp(self.deep_value(depth, ply), lo, hi) == hi,
            found(self, depth, ply, lo, hi, hi),
    {
        reveal(fair);
        reveal(found);
        let list = self.legal_list();
        self.lemma_sound();
        self.law_legal_list_is_legal(m);
        let j = choose|j: int| 0 <= j < list.len() && list[j] == m;
        self.lemma_deep_best(depth, ply, list.len() as int);
        assert(-self.after(list[j]).deep_value(depth - 1, ply + 1) <= self.deep_value(depth, ply));
    }

    /// The moves that keep the king safe, among those generated and ordered, are the legal
    /// moves.
    proof fn lemma_safe_is_legal(self, moves: Seq<u16>, m: u16)
        requires
            fair(self),
            moves == best_first(self.generated(false), |m: u16| self.promise(m)),
        ensures
            moves.contains(m) && self.keeps_king_safe(m) <==> self.legal_list().contains(m),
    {
        reveal(fair);
        self.lemma_sound();
        self.law_legal_list_is_legal(m);
        self.law_generated_is_pseudo_legal(false, m);
        lemma_best_first_contains(self.generated(false), |m: u16| self.promise(m), m);
    }

    proof fn lemma_deep_found(
        self,
        moves: Seq<u16>,
        depth: int,
        ply: int,
        lo: int,
        alpha: int,
        hi: int,
        k: int,
    )
        requires
            fair(self),
            depth > 0,
            lo <= alpha < hi,
            moves == best_first(self.generated(false), |m: u16| self.promise(m)),
            tried(
                self,
                moves,
                moves.len() as int,
                lo,
                alpha,
                None,
                deep_reply(self, depth, ply),
            ),
            0 <= k < moves.len(),
            self.keeps_king_safe(moves[k]),
        ensures
            clamp(self.deep_value(depth, ply), lo, hi) == alpha,
            found(self, depth, ply, lo, hi, alpha),
    {
        reveal(tried);
        let reply = deep_reply(self, depth, ply);
        let list = self.legal_list();
        assert(moves.contains(moves[k]));
        self.lemma_safe_is_legal(moves, moves[k]);
        assert(list.len() > 0);
        self.lemma_deep_best(depth, ply, list.len() as int);
        assert forall|j: int| 0 <= j < list.len() implies -self.after(#[trigger] list[j]).deep_value(
            depth - 1,
            ply + 1,
        ) <= alpha by {
            let m = list[j];
            assert(list.contains(m));
            self.lemma_safe_is_legal(moves, m);
            let i = choose|i: int| 0 <= i < moves.len() && moves[i] == m;
            assert(self.keeps_king_safe(moves[i]));
            assert(reply(moves[i]) <= alpha);
        }
        if alpha != lo {
            let i = choose|j: int|
                0 <= j < moves.len() && self.keeps_king_safe(#[trigger] moves[j]) && reply(moves[j])
                    == alpha;
            let m = moves[i];
            assert(moves.contains(m));
            self.lemma_safe_is_legal(moves, m);
            let j = choose|j: int| 0 <= j < list.len() && list[j] == m;
            assert(-self.after(list[j]).deep_value(depth - 1, ply + 1) <= self.deep_value(
                depth,
                ply,
            ));
        }
        lemma_found(self, depth, ply, lo, hi, alpha);
    }

    proof fn lemma_none_legal(self, moves: Seq<u16>)
        requires
            fair(self),
            moves == best_first(self.generated(false), |m: u16| self.promise(m)),
            forall|j: int| 0 <= j < moves.len() ==> !self.keeps_king_safe(#[trigger] moves[j]),
        ensures
            self.legal_list().len() == 0,
    {
        if self.legal_list().len() > 0 {
            let m = self.legal_list()[0];
            assert(self.legal_list().contains(m));
            self.lemma_safe_is_legal(moves, m);
            let i = choose|i: int| 0 <= i < moves.len() && moves[i] == m;
            assert(!self.keeps_king_safe(moves[i]));
        }
    }
}

impl Searcher {
    /// Looks `depth` plies ahead from a legal position. Unless the search was aborted, the
    /// result is the value of the position, brought into the window but for mates and
    /// stalemates on the spot; an aborted search stays within the same bounds. The board comes
    /// back as it was.
    pub fn alphabeta<F: Fn() -> u64>(
        &mut self,
        t: &Tables,
        clock: &mut Clock<F>,
        b: &mut Board,
        depth: i32,
        alpha: i32,
        beta: i32,
        ply: usize,
    ) -> (r: i32)
        requires
            old(self).wf(),
            t.wf(),
            old(clock).wf(),
            old(b).wf(),
            old(b)@.legal_position(),
            i32::MIN < alpha < beta,
            ply <= i32::MAX,
            ply + depth <= i32::MAX,
        ensures
            *final(b) == *old(b),
            final(clock).wf(),
            final(clock).now == old(clock).now,
            old(self).goes_on_as(final(self)),
            final(self).nodes > old(self).nodes || old(self).nodes == u64::MAX,
            old(b)@.in_window(depth as int, ply as int, alpha as int, beta as int, r as int),
            !final(self).aborted ==> r == old(b)@.window_value(
                depth as int,
                ply as int,
                alpha as int,
                beta as int,
            ),
            old(self).aborted ==> r == alpha && final(self).nodes == counted(old(self).nodes),
            old(self).check + 1 >= old(self).interval && always_late(
                old(clock).now,
                old(self).deadline,
            ) ==> final(self).aborted,
            final(self).aborted && !old(self).aborted ==> can_be_late(
                old(clock).now,
                old(self).deadline,
            ),
            paced(
                *old(self),
                old(clock).readings@,
                *final(self),
                final(clock).readings@,
                old(b)@.deep_nodes(
                    depth as int,
                    ply as int,
                    alpha as int,
                    beta as int,
                ) as int,
            ),
    {
        reveal(fair);
        reveal(spent);
        reveal(found);
        reveal(bounded);
        let r = self.deep(t, clock, b, depth, alpha, beta, ply);
        proof {
            b@.lemma_some_nodes(depth as int, ply as int, alpha as int, beta as int);
            lemma_abort_due(
                *old(self),
                old(clock).readings@,
                *self,
                *clock,
                b@.deep_nodes(depth as int, ply as int, alpha as int, beta as int) as int,
            );
        }
        r
    }

    fn deep<F: Fn() -> u64>(
        &mut self,
        t: &Tables,
        clock: &mut Clock<F>,
        b: &mut Board,
        depth: i32,
        alpha: i32,
        beta: i32,
        ply: usize,
    ) -> (r: i32)
        requires
            old(self).wf(),
            t.wf(),
            old(clock).wf(),
            old(b).wf(),
            fair(old(b)@),
            i32::MIN < alpha < beta,
            ply <= i32::MAX,
            ply + depth <= i32::MAX,
        ensures
            *final(b) == *old(b),
            final(clock).wf(),
            final(clock).now == old(clock).now,
            old(self).goes_on_as(final(self)),
            final(self).nodes > old(self).nodes || old(self).nodes == u64::MAX,
            r > i32::MIN,
            bounded(
                old(b)@,
                depth as int,
                ply as int,
                alpha as int,
                beta as int,
                r as int,
            ),
            !final(self).aborted ==> clamp(r as int, alpha as int, beta as int) == clamp(
                old(b)@.deep_value(depth as int, ply as int),
                alpha as int,
                beta as int,
            ),
            !final(self).aborted ==> found(
                old(b)@,
                depth as int,
                ply as int,
                alpha as int,
                beta as int,
                r as int,
            ),
            old(self).aborted ==> r == alpha && final(self).nodes == counted(old(self).nodes),
            spent(
                *old(self),
                old(clock).readings@,
                *final(self),
                final(clock).readings@,
                old(b)@.deep_nodes(
                    depth as int,
                    ply as int,
                    alpha as int,
                    beta as int,
                ) as int,
            ),
        decreases if depth > 0 {
            depth as int
        } else {
            0
        },
    {
        let ghost start = *b;
        let ghost p = b@;
        let ghost first = *self;
        let ghost log = clock.readings@;
        let ghost whole = p.deep_nodes(depth as int, ply as int, alpha as int, beta as int) as int;
        let ghost mut used: int = 1;
        proof {
            p.lemma_deep_nodes(depth as int, ply as int, alpha as int, beta as int);
        }
        if depth <= 0 {
            reveal(found);
            reveal(bounded);
            return self.quiet(t, clock, b, alpha, beta);
        }
        if self.enter(clock) {
            proof {
                lemma_spent_widens(first, log, *self, clock.readings@, 1, whole);
                lemma_bounded(p, depth as int, ply as int, alpha as int, beta as int, alpha as int);
            }
            return alpha;
        }
        let mut low: i32 = alpha;
        proof {
            reveal(fair);
            p.lemma_sound();
        }
        let all = b.gen_list::<false>(t);
        let moves = order(b, &all);
        let mut legal: bool = false;
        let ghost mut at: int = 0;
        let mut i: usize = 0;
        proof {
            reveal(tried);
            assert forall|j: int| 0 <= j < moves@.len() implies candidate(
                p,
                #[trigger] moves@[j],
                false,
            ) by {
                lemma_candidate(p, all@, moves@, j, false);
            }
        }
        while i < moves.len()
            invariant
                self.wf(),
                first.goes_on_as(self),
                self.nodes > first.nodes || first.nodes == u64::MAX,
                t.wf(),
                clock.wf(),
                clock.now == old(clock).now,
                log == old(clock).readings@,
                *b == start,
                start.wf(),
                start == *old(b),
                first == *old(self),
                p == start@,
                fair(p),
                depth > 0,
                ply <= i32::MAX,
                ply + depth <= i32::MAX,
                forall|j: int|
                    0 <= j < moves@.len() ==> candidate(p, #[trigger] moves@[j], false),
                i <= moves@.len(),
                i32::MIN < alpha <= low < beta,
                self.aborted ==> spent(first, log, *self, clock.readings@, whole),
                !self.aborted ==> spent(first, log, *self, clock.readings@, used) && used
                    + p.deep_rest(depth as int, ply as int, i as int, low as int, beta as int)
                    == whole,
                whole == p.deep_nodes(depth as int, ply as int, alpha as int, beta as int),
                moves@ == p.ordered(false),
                first.wf(),
                !first.aborted,
                !self.aborted ==> tried(
                    p,
                    moves@,
                    i as int,
                    alpha as int,
                    low as int,
                    None,
                    deep_reply(p, depth as int, ply as int),
                ),
                legal ==> 0 <= at < i && p.keeps_king_safe(moves@[at]),
                !legal ==> forall|j: int|
                    0 <= j < i ==> !p.keeps_king_safe(#[trigger] moves@[j]),
            decreases moves@.len() - i,
        {
            let m = moves[i];
            assert(candidate(p, moves@[i as int], false));
            let ghost before = low as int;
            proof {
                p.lemma_deep_rest(depth as int, ply as int, i as int, low as int, beta as int);
            }
            let u = match try_move(t, b, m, Ghost(false)) {
                None => {
                    proof {
                        if !self.aborted {
                            lemma_tried_skip(
                                p,
                                moves@,
                                i as int,
                                alpha as int,
                                low as int,
                                None,
                                deep_reply(p, depth as int, ply as int),
                            );
                        }
                    }
                    i = i + 1;
                    continue;
                },
                Some(u) => u,
            };
            legal = true;
            proof {
                at = i as int;
            }
            let ghost mid = *self;
            let ghost halfway = clock.readings@;
            let ghost below = b@.deep_nodes(
                depth - 1,
                ply + 1,
                -beta as int,
                -low as int,
            ) as int;
            let r = self.deep(t, clock, b, depth - 1, -beta, -low, ply + 1);
            proof {
                reveal(found);
                lemma_spent_goes_on(
                    first,
                    log,
                    mid,
                    halfway,
                    *self,
                    clock.readings@,
                    used,
                    below,
                    whole,
                );
                used = used + below;
            }
            let s = -r;
            take_back(b, m, u, Ghost(start));
            if s >= beta {
                proof {
                    lemma_bounded(p, depth as int, ply as int, alpha as int, beta as int, beta as int);
                    if !self.aborted {
                        p.lemma_deep_cutoff(
                            m,
                            depth as int,
                            ply as int,
                            alpha as int,
                            beta as int,
                        );
                    }
                }
                return beta;
            }
            if s > low {
                low = s;
            }
            proof {
                if !self.aborted {
                    lemma_tried_step(
                        p,
                        moves@,
                        i as int,
                        alpha as int,
                        before,
                        beta as int,
                        low as int,
                        None,
                        deep_reply(p, depth as int, ply as int),
                    );
                }
            }
            i = i + 1;
        }
        proof {
            p.lemma_deep_rest(depth as int, ply as int, i as int, low as int, beta as int);
        }
        if !legal {
            proof {
                p.lemma_none_legal(moves@);
                p.lemma_has_kings();
                reveal(found);
                reveal(bounded);
            }
            return if b.in_check(t, b.stm) {
                -MATE + ply as i32
            } else {
                0
            };
        }
        proof {
            lemma_bounded(p, depth as int, ply as int, alpha as int, beta as int, low as int);
            if !self.aborted {
                p.lemma_deep_found(
                    moves@,
                    depth as int,
                    ply as int,
                    alpha as int,
                    low as int,
                    beta as int,
                    at,
                );
            }
        }
        low
    }
}

impl Pos {
    proof fn lemma_has_kings(self)
        requires
            fair(self),
        ensures
            self.has_king(self.stm),
    {
        reveal(fair);
        self.lemma_sound();
    }
}

// ------------------------------------------------------------------------ the root

/// What a root move is worth: the third occurrence of a position is a draw, and any other
/// move is worth what looking ahead finds.
pub open spec fn root_value(p: Pos, depth: int, rep: (u16, usize)) -> int {
    if rep.1 >= 2 {
        0
    } else {
        -p.after(rep.0).deep_value(depth - 1, 1)
    }
}

/// Whether `k` is the first of the best root moves.
pub open spec fn is_choice(p: Pos, depth: int, reps: Seq<(u16, usize)>, k: int) -> bool {
    &&& 0 <= k < reps.len()
    &&& forall|j: int|
        0 <= j < reps.len() ==> root_value(p, depth, #[trigger] reps[j]) <= root_value(
            p,
            depth,
            reps[k],
        )
    &&& forall|j: int|
        0 <= j < k ==> root_value(p, depth, #[trigger] reps[j]) < root_value(p, depth, reps[k])
}

/// `r` is the first of the best root moves with its value, kept folded.
#[verifier::opaque]
pub open spec fn settled(p: Pos, depth: int, reps: Seq<(u16, usize)>, r: (u16, i32)) -> bool {
    exists|k: int|
        #![trigger reps[k]]
        is_choice(p, depth, reps, k) && r.0 == reps[k].0 && r.1 == root_value(p, depth, reps[k])
}

impl Searcher {
    /// Searches the root moves, which are legal and come with how often the position after
    /// each has occurred. Unless the search was aborted, the result is the first of the best
    /// moves and its value; without any move it is no move at all. An aborted search gives the
    /// best so far. The depth is such that every mate lies within the window of the root. The
    /// board comes back as it was.
    pub fn search_root<F: Fn() -> u64>(
        &mut self,
        t: &Tables,
        clock: &mut Clock<F>,
        b: &mut Board,
        depth: i32,
        reps: &Vec<(u16, usize)>,
    ) -> (r: (u16, i32))
        requires
            old(self).wf(),
            t.wf(),
            old(clock).wf(),
            old(b).wf(),
            old(b)@.legal_position(),
            i32::MIN < depth <= 80000,
            forall|i: int| 0 <= i < reps@.len() ==> old(b)@.legal((#[trigger] reps@[i]).0),
        ensures
            *final(b) == *old(b),
            final(clock).wf(),
            final(clock).now == old(clock).now,
            old(self).goes_on_as(final(self)),
            r.0 == 0 || exists|i: int| 0 <= i < reps@.len() && r.0 == (#[trigger] reps@[i]).0,
            reps@.len() == 0 ==> r == (0u16, (-INFINITE) as i32),
            !final(self).aborted && reps@.len() > 0 ==> exists|k: int|
                #![trigger reps@[k]]
                {
                    &&& is_choice(old(b)@, depth as int, reps@, k)
                    &&& r.0 == reps@[k].0
                    &&& r.1 == root_value(old(b)@, depth as int, reps@[k])
                },
            final(self).aborted && !old(self).aborted ==> cut_short(
                old(b)@,
                depth as int,
                reps@,
                *old(self),
                looks_of(old(clock).readings@, final(clock).readings@),
                r,
            ),
            old(self).aborted ==> r == (0u16, (-INFINITE) as i32),
            old(self).aborted || (forall|i: int| 0 <= i < reps@.len() ==> (#[trigger] reps@[i]).1 >= 2)
                ==> *final(self) == *old(self) && final(clock).readings == old(clock).readings,
            old(self).check + 1 >= old(self).interval && always_late(
                old(clock).now,
                old(self).deadline,
            ) && (exists|i: int|
                0 <= i < reps@.len() && (#[trigger] reps@[i]).1 < 2) ==> final(self).aborted,
            final(self).aborted && !old(self).aborted ==> can_be_late(
                old(clock).now,
                old(self).deadline,
            ),
            paced(
                *old(self),
                old(clock).readings@,
                *final(self),
                final(clock).readings@,
                old(b)@.root_nodes(depth as int, reps@, 0, (-INFINITE) as int) as int,
            ),
    {
        proof {
            lemma_open_roots(b@, reps@);
            reveal(settled);
            reveal(halted);
        }
        let r = self.root(t, clock, b, depth, reps);
        proof {
            if !old(self).aborted && forall|i: int|
                0 <= i < reps@.len() ==> (#[trigger] reps@[i]).1 >= 2 {
                b@.lemma_no_root_nodes(depth as int, reps@, 0, (-INFINITE) as int);
                lemma_spent_nothing(*old(self), old(clock).readings@, *self, clock.readings@);
            }
            reveal(spent);
            if exists|i: int| 0 <= i < reps@.len() && (#[trigger] reps@[i]).1 < 2 {
                let k = choose|i: int| 0 <= i < reps@.len() && (#[trigger] reps@[i]).1 < 2;
                b@.lemma_some_root_nodes(depth as int, reps@, 0, (-INFINITE) as int, k);
                lemma_abort_due(
                    *old(self),
                    old(clock).readings@,
                    *self,
                    *clock,
                    b@.root_nodes(depth as int, reps@, 0, (-INFINITE) as int) as int,
                );
            }
        }
        r
    }

    pub(crate) fn root<F: Fn() -> u64>(
        &mut self,
        t: &Tables,
        clock: &mut Clock<F>,
        b: &mut Board,
        depth: i32,
        reps: &Vec<(u16, usize)>,
    ) -> (r: (u16, i32))
        requires
            old(self).wf(),
            t.wf(),
            old(clock).wf(),
            old(b).wf(),
            fair(old(b)@),
            i32::MIN < depth <= 80000,
            forall|i: int|
                0 <= i < reps@.len() ==> open_move(old(b)@, (#[trigger] reps@[i]).0),
        ensures
            *final(b) == *old(b),
            final(clock).wf(),
            final(clock).now == old(clock).now,
            old(self).goes_on_as(final(self)),
            r.0 == 0 || exists|i: int| 0 <= i < reps@.len() && r.0 == (#[trigger] reps@[i]).0,
            reps@.len() == 0 ==> r == (0u16, (-INFINITE) as i32),
            !final(self).aborted && reps@.len() > 0 ==> settled(old(b)@, depth as int, reps@, r),
            final(self).aborted && !old(self).aborted ==> halted(
                old(b)@,
                depth as int,
                reps@,
                *old(self),
                looks_of(old(clock).readings@, final(clock).readings@),
                r,
            ),
            old(self).aborted ==> r == (0u16, (-INFINITE) as i32),
            old(self).aborted ==> *final(self) == *old(self) && final(clock).readings
                == old(clock).readings,
            spent(
                *old(self),
                old(clock).readings@,
                *final(self),
                final(clock).readings@,
                old(b)@.root_nodes(depth as int, reps@, 0, (-INFINITE) as int) as int,
            ),
    {
        let ghost start = *b;
        let ghost p = b@;
        let ghost first = *self;
        let ghost log = clock.readings@;
        let ghost whole = p.root_nodes(depth as int, reps@, 0, (-INFINITE) as int) as int;
        let ghost mut used: int = 0;
        let mut best: u16 = 0;
        let mut alpha: i32 = -INFINITE;
        let ghost mut k: int = 0;
        let mut i: usize = 0;
        proof {
            lemma_spent_starts(first, log);
        }
        while i < reps.len()
            invariant
                self.wf(),
                first.wf(),
                first.goes_on_as(self),
                t.wf(),
                clock.wf(),
                clock.now == old(clock).now,
                log == old(clock).readings@,
                whole == p.root_nodes(depth as int, reps@, 0, (-INFINITE) as int),
                *b == start,
                start.wf(),
                start == *old(b),
                first == *old(self),
                p == start@,
                fair(p),
                i32::MIN < depth <= 80000,
                forall|j: int| 0 <= j < reps@.len() ==> open_move(p, (#[trigger] reps@[j]).0),
                i <= reps@.len(),
                i == 0 ==> best == 0 && alpha == -INFINITE,
                i > 0 ==> 0 <= k < i && best == reps@[k].0 && best != 0,
                -INFINITE <= alpha <= INFINITE,
                first.aborted ==> i == 0 && *self == first && clock.readings@ == log,
                !first.aborted && self.aborted ==> spent(first, log, *self, clock.readings@, whole)
                    && halted(
                    p,
                    depth as int,
                    reps@,
                    first,
                    looks_of(log, clock.readings@),
                    (best, alpha),
                ),
                !self.aborted ==> spent(first, log, *self, clock.readings@, used) && used
                    + p.root_nodes(depth as int, reps@, i as int, alpha as int) == whole,
                !self.aborted && i > 0 ==> leading(p, depth as int, reps@, i as int, k, alpha as int),
            ensures
                self.wf(),
                clock.wf(),
                clock.now == old(clock).now,
                first.goes_on_as(self),
                *b == start,
                i <= reps@.len(),
                self.aborted || i == reps@.len(),
                i == 0 ==> best == 0 && alpha == -INFINITE,
                i > 0 ==> 0 <= k < i && best == reps@[k].0,
                first.aborted ==> i == 0 && *self == first && clock.readings@ == log,
                !first.aborted && self.aborted ==> spent(first, log, *self, clock.readings@, whole)
                    && halted(
                    p,
                    depth as int,
                    reps@,
                    first,
                    looks_of(log, clock.readings@),
                    (best, alpha),
                ),
                !self.aborted ==> spent(first, log, *self, clock.readings@, used) && used
                    + p.root_nodes(depth as int, reps@, i as int, alpha as int) == whole,
                !self.aborted && i > 0 ==> leading(p, depth as int, reps@, i as int, k, alpha as int),
            decreases reps@.len() - i,
        {
            if self.aborted {
                break;
            }
            let (m, count) = reps[i];
            proof {
                assert(open_move(p, reps@[i as int].0));
                lemma_open_move(p, m);
                lemma_root_range(p, depth as int, reps@[i as int]);
                lemma_leading_range(p, depth as int, reps@, i as int, k, alpha as int);
                p.lemma_root_nodes(depth as int, reps@, i as int, alpha as int);
            }
            let ghost mid = *self;
            let ghost halfway = clock.readings@;
            let ghost before = used;
            let ghost was = (best, alpha);
            let ghost lead = k;
            let ghost below = p.after(m).deep_nodes(depth - 1, 1, (-INFINITE) as int, -alpha) as int;
            let s = self.root_score(t, clock, b, depth, alpha, m, count);
            proof {
                if count < 2 {
                    lemma_spent_goes_on(
                        first,
                        log,
                        mid,
                        halfway,
                        *self,
                        clock.readings@,
                        used,
                        below,
                        whole,
                    );
                    used = used + below;
                }
                if !self.aborted {
                    lemma_leading_step(
                        p,
                        depth as int,
                        reps@,
                        i as int,
                        k,
                        alpha as int,
                        s as int,
                    );
                }
            }
            if best == 0 || s > alpha {
                alpha = s;
                best = m;
                proof {
                    k = i as int;
                }
            }
            proof {
                if self.aborted {
                    lemma_halted(
                        p,
                        depth as int,
                        reps@,
                        i as int,
                        lead,
                        first,
                        log,
                        mid,
                        halfway,
                        *self,
                        clock.readings@,
                        before,
                        was,
                        (best, alpha),
                    );
                }
            }
            i = i + 1;
        }
        proof {
            if first.aborted {
                reveal(spent);
                assert(log.take(log.len() as int) =~= log);
            } else if !self.aborted {
                p.lemma_root_nodes(depth as int, reps@, i as int, alpha as int);
                if reps@.len() > 0 {
                    lemma_leading_settled(p, depth as int, reps@, k, (best, alpha));
                }
            }
        }
        (best, alpha)
    }

    /// The score of one root move against the bound `alpha`.
    fn root_score<F: Fn() -> u64>(
        &mut self,
        t: &Tables,
        clock: &mut Clock<F>,
        b: &mut Board,
        depth: i32,
        alpha: i32,
        m: u16,
        count: usize,
    ) -> (s: i32)
        requires
            old(self).wf(),
            !old(self).aborted,
            t.wf(),
            old(clock).wf(),
            old(b).wf(),
            fair(old(b)@),
            open_move(old(b)@, m),
            i32::MIN < depth <= 80000,
            -INFINITE <= alpha < INFINITE,
        ensures
            *final(b) == *old(b),
            final(clock).wf(),
            final(clock).now == old(clock).now,
            old(self).goes_on_as(final(self)),
            -INFINITE <= s <= INFINITE,
            !final(self).aborted ==> clamp(s as int, alpha as int, INFINITE as int) == clamp(
                root_value(old(b)@, depth as int, (m, count)),
                alpha as int,
                INFINITE as int,
            ),
            count >= 2 ==> *final(self) == *old(self) && final(clock).readings
                == old(clock).readings,
            count < 2 ==> spent(
                *old(self),
                old(clock).readings@,
                *final(self),
                final(clock).readings@,
                old(b)@.after(m).deep_nodes(depth - 1, 1, (-INFINITE) as int, -alpha) as int,
            ),
    {
        let ghost start = *b;
        if count >= 2 {
            return 0;
        }
        proof {
            reveal(open_move);
            lemma_safe_move(b@, m);
            lemma_root_range(b@, depth as int, (m, count));
            reveal(bounded);
        }
        let s = match try_move(t, b, m, Ghost(false)) {
            None => 0,
            Some(u) => {
                let r = self.deep(t, clock, b, depth - 1, -INFINITE, -alpha, 1);
                take_back(b, m, u, Ghost(start));
                -r
            },
        };
        s
    }
}

/// How many looks at the clock there were.
pub open spec fn looks_of(log: Seq<u64>, after: Seq<u64>) -> int {
    after.len() - log.len()
}

/// How a search of root moves was stopped at its last look: in root move `n`, when the best of
/// those before it was worth `v`. The result is the first of those, or move `n` if the part of
/// its search that was done put it above them; with none before it, it is move `n`.
pub open spec fn stopped_in(
    p: Pos,
    depth: int,
    reps: Seq<(u16, usize)>,
    first: Searcher,
    looks: int,
    r: (u16, i32),
    n: int,
    v: int,
) -> bool {
    let whole = p.root_nodes(depth, reps, 0, (-INFINITE) as int);
    let before = whole - p.root_nodes(depth, reps, n, v);
    let through = whole - p.root_nodes(
        depth,
        reps,
        n + 1,
        larger(v, root_value(p, depth, reps[n])),
    );
    &&& 0 <= n < reps.len()
    &&& reps[n].1 < 2
    &&& (first.check + before) / (first.interval as int) < looks
    &&& looks <= (first.check + through) / (first.interval as int)
    &&& -INFINITE <= r.1 <= INFINITE
    &&& if n == 0 {
        v == -INFINITE && r.0 == reps[0].0
    } else {
        exists|k: int|
            #![trigger reps[k]]
            {
                &&& is_choice(p, depth, reps.take(n), k)
                &&& v == root_value(p, depth, reps[k])
                &&& r == (reps[k].0, v as i32) || (r.0 == reps[n].0 && r.1 > v)
            }
    }
}

/// Some root move was being searched when the search was stopped.
pub open spec fn cut_short(
    p: Pos,
    depth: int,
    reps: Seq<(u16, usize)>,
    first: Searcher,
    looks: int,
    r: (u16, i32),
) -> bool {
    exists|n: int, v: int|
        #![trigger stopped_in(p, depth, reps, first, looks, r, n, v)]
        stopped_in(p, depth, reps, first, looks, r, n, v)
}

/// The same, kept folded.
#[verifier::opaque]
pub open spec fn halted(
    p: Pos,
    depth: int,
    reps: Seq<(u16, usize)>,
    first: Searcher,
    looks: int,
    r: (u16, i32),
) -> bool {
    cut_short(p, depth, reps, first, looks, r)
}

proof fn lemma_halted(
    p: Pos,
    depth: int,
    reps: Seq<(u16, usize)>,
    n: int,
    k: int,
    first: Searcher,
    log: Seq<u64>,
    mid: Searcher,
    halfway: Seq<u64>,
    later: Searcher,
    after: Seq<u64>,
    used: int,
    was: (u16, i32),
    r: (u16, i32),
)
    requires
        0 <= n < reps.len(),
        reps[n].1 < 2,
        first.wf(),
        !first.aborted,
        first.goes_on_as(&mid),
        mid.goes_on_as(&later),
        !mid.aborted,
        later.aborted,
        n == 0 ==> was.1 == -INFINITE && r.0 == reps[0].0,
        n > 0 ==> leading(p, depth, reps, n, k, was.1 as int) && was.0 == reps[k].0,
        n > 0 ==> r == was || (r.0 == reps[n].0 && r.1 > was.1),
        -INFINITE <= r.1 <= INFINITE,
        used + p.root_nodes(depth, reps, n, was.1 as int) == p.root_nodes(
            depth,
            reps,
            0,
            (-INFINITE) as int,
        ),
        spent(first, log, mid, halfway, used),
        spent(
            mid,
            halfway,
            later,
            after,
            p.after(reps[n].0).deep_nodes(depth - 1, 1, (-INFINITE) as int, -was.1) as int,
        ),
    ensures
        halted(p, depth, reps, first, looks_of(log, after), r),
{
    reveal(halted);
    let below = p.after(reps[n].0).deep_nodes(depth - 1, 1, (-INFINITE) as int, -was.1) as int;
    p.lemma_root_nodes(depth, reps, n, was.1 as int);
    lemma_spent_goes_on(first, log, mid, halfway, later, after, used, below, used + below);
    lemma_last_look(first, log, mid, halfway, later, after, used, below);
    if n > 0 {
        reveal(leading);
        let shorter = reps.take(n);
        assert forall|j: int| 0 <= j < shorter.len() implies root_value(
            p,
            depth,
            #[trigger] shorter[j],
        ) <= was.1 by {
            assert(shorter[j] == reps[j]);
        }
        assert forall|j: int| 0 <= j < k implies root_value(p, depth, #[trigger] shorter[j])
            < was.1 by {
            assert(shorter[j] == reps[j]);
        }
        assert(shorter[k] == reps[k]);
        assert(is_choice(p, depth, shorter, k));
    }
    assert(stopped_in(p, depth, reps, first, looks_of(log, after), r, n, was.1 as int));
}

/// Root move `k` is the first of the best among the first `i`, and is worth `alpha`.
#[verifier::opaque]
spec fn leading(p: Pos, depth: int, reps: Seq<(u16, usize)>, i: int, k: int, alpha: int) -> bool {
    &&& 0 <= k < i <= reps.len()
    &&& -57000 <= alpha <= 57000
    &&& alpha == root_value(p, depth, reps[k])
    &&& forall|j: int| 0 <= j < i ==> root_value(p, depth, #[trigger] reps[j]) <= alpha
    &&& forall|j: int| 0 <= j < k ==> root_value(p, depth, #[trigger] reps[j]) < alpha
}

proof fn lemma_leading_range(
    p: Pos,
    depth: int,
    reps: Seq<(u16, usize)>,
    i: int,
    k: int,
    alpha: int,
)
    requires
        i > 0 ==> leading(p, depth, reps, i, k, alpha),
    ensures
        i > 0 ==> -57000 <= alpha <= 57000,
{
    if i > 0 {
        reveal(leading);
    }
}

/// The next root move, whose score against the bound is `s`.
proof fn lemma_leading_step(
    p: Pos,
    depth: int,
    reps: Seq<(u16, usize)>,
    i: int,
    k: int,
    alpha: int,
    s: int,
)
    requires
        0 <= i < reps.len(),
        i == 0 ==> alpha == -INFINITE,
        i > 0 ==> leading(p, depth, reps, i, k, alpha),
        -57000 <= root_value(p, depth, reps[i]) <= 57000,
        clamp(s, alpha, INFINITE as int) == clamp(
            root_value(p, depth, reps[i]),
            alpha,
            INFINITE as int,
        ),
    ensures
        i == 0 ==> s > alpha,
        s > alpha ==> s == root_value(p, depth, reps[i]) && leading(p, depth, reps, i + 1, i, s),
        s <= alpha ==> root_value(p, depth, reps[i]) <= alpha && leading(
            p,
            depth,
            reps,
            i + 1,
            k,
            alpha,
        ),
{
    reveal(leading);
}

proof fn lemma_leading_settled(
    p: Pos,
    depth: int,
    reps: Seq<(u16, usize)>,
    k: int,
    r: (u16, i32),
)
    requires
        leading(p, depth, reps, reps.len() as int, k, r.1 as int),
        r.0 == reps[k].0,
    ensures
        settled(p, depth, reps, r),
{
    reveal(leading);
    reveal(settled);
    assert(is_choice(p, depth, reps, k));
    assert(r.0 == reps[k].0 && r.1 == root_value(p, depth, reps[k]));
}

proof fn lemma_open_roots(p: Pos, reps: Seq<(u16, usize)>)
    requires
        p.legal_position(),
        forall|i: int| 0 <= i < reps.len() ==> p.legal((#[trigger] reps[i]).0),
    ensures
        fair(p),
        forall|i: int| 0 <= i < reps.len() ==> open_move(p, (#[trigger] reps[i]).0),
{
    reveal(fair);
    assert forall|i: int| 0 <= i < reps.len() implies open_move(p, (#[trigger] reps[i]).0) by {
        lemma_open_legal(p, reps[i].0);
    }
}

proof fn lemma_root_range(p: Pos, depth: int, rep: (u16, usize))
    requires
        fair(p),
        open_move(p, rep.0),
        depth <= 80000,
    ensures
        -57000 <= root_value(p, depth, rep) <= 57000,
{
    reveal(fair);
    reveal(open_move);
    p.lemma_legal_step(rep.0);
    p.after(rep.0).lemma_deep_range(depth - 1, 1);
}

} // verus!
