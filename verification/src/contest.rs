//! A match: pairs of games over an opening each, with the colours reversed, until they are
//! played or the match is abandoned.
use vstd::prelude::*;

use crate::arbiter::GameLog;
use crate::failure::bucket;
use crate::native::opt_text;
use crate::plan::save_due;
use crate::stats::total;
use crate::tables::Tables;
use crate::tally::{
    absorb, absorbed, close_pair, lemma_total_update, noted, points, should_stop, unplayable, Tally,
};

verus! {

/// A match under way.
pub struct Match {
    pub tally: Tally,
    /// The pairs that are to be played.
    pub pairs: usize,
    /// The pairs that have been played.
    pub done: usize,
    /// What the first game of an open pair was worth to A, in half points.
    pub first: Option<usize>,
    /// Whether the match has been abandoned.
    pub stopped: bool,
}

/// What is to be done next.
pub enum Task {
    /// A game of this pair is to be played, with A as White or as Black.
    Play(usize, bool),
    /// The match is over.
    Over,
}

/// What a game did to a match.
pub enum Step {
    /// The first game of a pair is in.
    Half,
    /// A pair is in, and the results may be due to be written down.
    Pair(bool),
    /// A pair is in, and the match is abandoned.
    Stopped,
}

impl Match {
    /// The score is one of whole pairs, but for the first game of an open pair, and no more
    /// games have failed than were played.
    pub open spec fn wf(&self) -> bool {
        &&& 2 * self.pairs <= u64::MAX
        &&& self.done <= self.pairs
        &&& self.tally.even()
        &&& total(self.tally.penta.counts@) == self.done
        &&& total(self.tally.failures@) <= self.tally.games
        &&& match self.first {
            None => self.tally.games == 2 * self.done,
            Some(p) => {
                &&& p <= 2
                &&& self.tally.games == 2 * self.done + 1
                &&& self.done < self.pairs
                &&& !self.stopped
            },
        }
    }

    /// Begins a match of so many pairs.
    pub fn new(pairs: usize) -> (m: Match)
        requires
            2 * pairs <= u64::MAX,
        ensures
            m.wf(),
            m.pairs == pairs,
            m.done == 0,
            m.first is None,
            !m.stopped,
            m.tally.whole(),
            m.tally.games == 0,
            m.tally.plies == 0,
            m.tally.cycles == 0,
            m.tally.moves == 0,
            m.tally.penta.counts@ == seq![0u64, 0, 0, 0, 0],
            m.tally.failures@ == seq![0u64, 0, 0, 0, 0, 0],
            m.tally.notes@ == Seq::<String>::empty(),
            m.tally.pgn@ == Seq::<String>::empty(),
            m.tally.game_lines@ == Seq::<String>::empty(),
    {
        let tally = Tally::new();
        proof {
            reveal_with_fuel(total, 7);
        }
        Match { tally, pairs, done: 0, first: None, stopped: false }
    }

    /// What is to be done next: each pair is played with A as White and then reversed.
    pub fn task(&self) -> (t: Task)
        requires
            self.wf(),
        ensures
            match t {
                Task::Play(i, a_is_white) => {
                    &&& !self.stopped
                    &&& self.done < self.pairs
                    &&& i == self.done
                    &&& a_is_white == (self.first is None)
                },
                Task::Over => self.stopped || self.done == self.pairs,
            },
            t is Over ==> self.tally.whole(),
    {
        if self.stopped || self.done == self.pairs {
            Task::Over
        } else {
            Task::Play(self.done, self.first.is_none())
        }
    }

    /// Whether the counters can take another game.
    pub open spec fn room_for(&self, log: GameLog) -> bool {
        &&& self.tally.plies + log.plies <= u64::MAX
        &&& self.tally.cycles + total(log.cycles@[0]@) + total(log.cycles@[1]@) <= u64::MAX
        &&& self.tally.moves + log.cycles@[0]@.len() + log.cycles@[1]@.len() <= u64::MAX
    }

    /// Takes the game that was to be played. With the names of A and B, the game itself is
    /// kept, in the round of its pair.
    pub fn record(&mut self, tables: &Tables, log: &GameLog, names: Option<(&str, &str)>) -> (r:
        Step)
        requires
            old(self).wf(),
            !old(self).stopped,
            old(self).done < old(self).pairs,
            tables.wf(),
            names is Some ==> log.wf(),
            old(self).room_for(*log),
        ensures
            final(self).wf(),
            final(self).pairs == old(self).pairs,
            absorbed(
                old(self).tally,
                (Tally { penta: old(self).tally.penta, ..final(self).tally }),
                *log,
                old(self).first is None,
                seats(names, old(self).first is None, old(self).done + 1),
            ),
            match old(self).first {
                None => {
                    &&& r is Half
                    &&& final(self).tally.penta == old(self).tally.penta
                    &&& final(self).done == old(self).done
                    &&& final(self).first is Some
                    &&& final(self).first->0 == points(log.outcome@, true)
                    &&& !final(self).stopped
                },
                Some(p) => {
                    let q = p + points(log.outcome@, false);
                    &&& final(self).tally.penta.counts@ == old(self).tally.penta.counts@.update(
                        q,
                        (old(self).tally.penta.counts@[q] + 1) as u64,
                    )
                    &&& final(self).done == old(self).done + 1
                    &&& final(self).first is None
                    &&& final(self).stopped == unplayable(final(self).tally)
                    &&& final(self).tally.whole()
                    &&& match r {
                        Step::Half => false,
                        Step::Stopped => final(self).stopped,
                        Step::Pair(save) => !final(self).stopped && save == (final(self).done
                            % 25 == 0 || final(self).done == final(self).pairs),
                    }
                },
            },
    {
        let a_is_white = self.first.is_none();
        let round = self.done + 1;
        let players = match names {
            None => None,
            Some((a, b)) => if a_is_white {
                Some((a, b, round))
            } else {
                Some((b, a, round))
            },
        };
        proof {
            lemma_parts(self.tally.failures@);
            lemma_parts(self.tally.penta.counts@);
        }
        let p = absorb(&mut self.tally, tables, log, a_is_white, players);
        proof {
            lemma_failed(old(self).tally, self.tally, *log);
        }
        match self.first {
            None => {
                self.first = Some(p);
                Step::Half
            },
            Some(q) => {
                let ghost mid = self.tally;
                close_pair(&mut self.tally, q, p);
                assert((Tally { penta: mid.penta, ..self.tally }) == mid);
                self.first = None;
                let i = self.done;
                self.done = i + 1;
                if should_stop(&self.tally) {
                    self.stopped = true;
                    Step::Stopped
                } else {
                    Step::Pair(save_due(i, self.pairs))
                }
            },
        }
    }
}

/// Who sat where: White, Black and the round.
pub open spec fn seats(names: Option<(&str, &str)>, a_is_white: bool, round: int) -> Option<
    (Seq<char>, Seq<char>, nat),
> {
    match names {
        None => None,
        Some((a, b)) => if a_is_white {
            Some((a@, b@, round as nat))
        } else {
            Some((b@, a@, round as nat))
        },
    }
}

proof fn lemma_parts(s: Seq<u64>)
    ensures
        0 <= total(s),
        forall|i: int| 0 <= i < s.len() ==> #[trigger] s[i] <= total(s),
    decreases s.len(),
{
    if s.len() > 0 {
        lemma_parts(s.drop_last());
        assert forall|i: int| 0 <= i < s.len() implies #[trigger] s[i] <= total(s) by {
            if i < s.len() - 1 {
                assert(s.drop_last()[i] == s[i]);
            }
        }
    }
}

/// A game adds at most one failure.
proof fn lemma_failed(before: Tally, after: Tally, log: GameLog)
    requires
        noted(before, after, opt_text(log.note)),
        forall|k: int| 0 <= k < 6 ==> #[trigger] before.failures@[k] < u64::MAX,
    ensures
        total(after.failures@) <= total(before.failures@) + 1,
{
    if let Some(n) = opt_text(log.note) {
        let k = bucket(n);
        assert(before.failures@[k] < u64::MAX);
        lemma_total_update(before.failures@, k);
    }
}

} // verus!
