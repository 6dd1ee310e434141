//! How many nodes a search takes: together with the interval between looks at the clock this
//! decides at which look a search ends.
use vstd::prelude::*;

use crate::ordering::best_first;
use crate::position::Pos;
use crate::search::{clamp, weight};
use crate::searcher::{root_value, INFINITE};
use crate::trial::{candidate, fair, lemma_candidate};

verus! {

/// The greater of two numbers.
pub open spec fn larger(a: int, b: int) -> int {
    if a > b {
        a
    } else {
        b
    }
}

impl Pos {
    /// The pseudo-legal moves in the order in which they are tried; with `caps` the captures
    /// and promotions alone.
    pub open spec fn ordered(self, caps: bool) -> Seq<u16> {
        best_first(self.generated(caps), |m: u16| self.promise(m))
    }

    pub proof fn lemma_lighter(self, i: int)
        requires
            fair(self),
            0 <= i < self.ordered(true).len(),
        ensures
            weight(self.after(self.ordered(true)[i]).at, 64) < weight(self.at, 64),
    {
        reveal(fair);
        reveal(candidate);
        self.lemma_sound();
        let m = self.ordered(true)[i];
        lemma_candidate(self, self.generated(true), self.ordered(true), i, true);
        self.lemma_weight_drops(m);
    }

    /// The nodes of playing captures out within a window.
    #[verifier::opaque]
    pub open spec fn quiet_nodes(self, lo: int, hi: int) -> nat
        decreases weight(self.at, 64), self.ordered(true).len() + 1,
    {
        if self.eval() >= hi {
            1
        } else {
            1 + self.quiet_rest(0, larger(lo, self.eval()), hi)
        }
    }

    /// The nodes below the captures from the `i`-th on, when those before it raised the lower
    /// bound to `low`.
    #[verifier::opaque]
    pub open spec fn quiet_rest(self, i: int, low: int, hi: int) -> nat
        decreases weight(self.at, 64), self.ordered(true).len() - i,
    {
        if !fair(self) || i < 0 || i >= self.ordered(true).len() {
            0
        } else {
            let m = self.ordered(true)[i];
            if !self.keeps_king_safe(m) {
                self.quiet_rest(i + 1, low, hi)
            } else {
                proof {
                    self.lemma_lighter(i);
                }
                let q = self.after(m);
                let below = q.quiet_nodes(-hi, -low);
                let v = -clamp(q.quiet_value(), -hi, -low);
                if v >= hi {
                    below
                } else {
                    below + self.quiet_rest(i + 1, larger(low, v), hi)
                }
            }
        }
    }

    /// The nodes of looking `depth` plies ahead from `ply` within a window.
    #[verifier::opaque]
    pub open spec fn deep_nodes(self, depth: int, ply: int, lo: int, hi: int) -> nat
        decreases depth, self.ordered(false).len() + 1,
    {
        if depth <= 0 {
            self.quiet_nodes(lo, hi)
        } else {
            1 + self.deep_rest(depth, ply, 0, lo, hi)
        }
    }

    /// The nodes below the moves from the `i`-th on, when those before it raised the lower
    /// bound to `low`.
    #[verifier::opaque]
    pub open spec fn deep_rest(self, depth: int, ply: int, i: int, low: int, hi: int) -> nat
        decreases depth, self.ordered(false).len() - i,
    {
        if depth <= 0 || i < 0 || i >= self.ordered(false).len() {
            0
        } else {
            let m = self.ordered(false)[i];
            if !self.keeps_king_safe(m) {
                self.deep_rest(depth, ply, i + 1, low, hi)
            } else {
                let q = self.after(m);
                let below = q.deep_nodes(depth - 1, ply + 1, -hi, -low);
                let v = -q.window_value(depth - 1, ply + 1, -hi, -low);
                if v >= hi {
                    below
                } else {
                    below + self.deep_rest(depth, ply, i + 1, larger(low, v), hi)
                }
            }
        }
    }

    /// The nodes below the root moves from the `i`-th on, when the best before it is worth
    /// `low`. A third occurrence is not searched.
    #[verifier::opaque]
    pub open spec fn root_nodes(
        self,
        depth: int,
        reps: Seq<(u16, usize)>,
        i: int,
        low: int,
    ) -> nat
        decreases reps.len() - i,
    {
        if i < 0 || i >= reps.len() {
            0
        } else {
            let below = if reps[i].1 >= 2 {
                0
            } else {
                self.after(reps[i].0).deep_nodes(depth - 1, 1, (-INFINITE) as int, -low)
            };
            below + self.root_nodes(
                depth,
                reps,
                i + 1,
                larger(low, root_value(self, depth, reps[i])),
            )
        }
    }

    pub proof fn lemma_root_nodes(self, depth: int, reps: Seq<(u16, usize)>, i: int, low: int)
        requires
            0 <= i <= reps.len(),
        ensures
            i == reps.len() ==> self.root_nodes(depth, reps, i, low) == 0,
            i < reps.len() ==> self.root_nodes(depth, reps, i, low) == if reps[i].1 >= 2 {
                0
            } else {
                self.after(reps[i].0).deep_nodes(depth - 1, 1, (-INFINITE) as int, -low)
            } + self.root_nodes(
                depth,
                reps,
                i + 1,
                larger(low, root_value(self, depth, reps[i])),
            ),
    {
        reveal(Pos::root_nodes);
    }

    /// Third occurrences alone take no node.
    pub proof fn lemma_no_root_nodes(self, depth: int, reps: Seq<(u16, usize)>, i: int, low: int)
        requires
            0 <= i <= reps.len(),
            forall|j: int| 0 <= j < reps.len() ==> (#[trigger] reps[j]).1 >= 2,
        ensures
            self.root_nodes(depth, reps, i, low) == 0,
        decreases reps.len() - i,
    {
        self.lemma_root_nodes(depth, reps, i, low);
        if i < reps.len() {
            assert(reps[i].1 >= 2);
            self.lemma_no_root_nodes(
                depth,
                reps,
                i + 1,
                larger(low, root_value(self, depth, reps[i])),
            );
        }
    }

    /// Every search takes a node.
    pub proof fn lemma_some_nodes(self, depth: int, ply: int, lo: int, hi: int)
        ensures
            self.quiet_nodes(lo, hi) >= 1,
            self.deep_nodes(depth, ply, lo, hi) >= 1,
    {
        self.lemma_quiet_nodes(lo, hi);
        self.lemma_deep_nodes(depth, ply, lo, hi);
    }

    /// A root move that is searched takes a node.
    pub proof fn lemma_some_root_nodes(
        self,
        depth: int,
        reps: Seq<(u16, usize)>,
        i: int,
        low: int,
        k: int,
    )
        requires
            0 <= i <= k < reps.len(),
            reps[k].1 < 2,
        ensures
            self.root_nodes(depth, reps, i, low) >= 1,
        decreases k - i,
    {
        self.lemma_root_nodes(depth, reps, i, low);
        if i < k {
            self.lemma_some_root_nodes(
                depth,
                reps,
                i + 1,
                larger(low, root_value(self, depth, reps[i])),
                k,
            );
        } else {
            self.after(reps[i].0).lemma_some_nodes(depth - 1, 1, (-INFINITE) as int, -low);
        }
    }

    /// What looking `depth` plies ahead from `ply` finds within a window: the value brought
    /// into it, and the value itself where the side to move has no move.
    pub open spec fn window_value(self, depth: int, ply: int, lo: int, hi: int) -> int {
        if depth > 0 && self.legal_list().len() == 0 {
            self.deep_value(depth, ply)
        } else {
            clamp(self.deep_value(depth, ply), lo, hi)
        }
    }

    /// The bounds of what a search returns, aborted or not: the window, but for a mate or a
    /// stalemate on the spot.
    pub open spec fn in_window(self, depth: int, ply: int, lo: int, hi: int, r: int) -> bool {
        ||| lo <= r <= hi
        ||| depth > 0 && self.legal_list().len() == 0 && r == self.deep_value(depth, ply)
    }

    pub proof fn lemma_quiet_nodes(self, lo: int, hi: int)
        ensures
            self.quiet_nodes(lo, hi) == if self.eval() >= hi {
                1
            } else {
                1 + self.quiet_rest(0, larger(lo, self.eval()), hi)
            },
    {
        reveal_with_fuel(Pos::quiet_nodes, 2);
        reveal_with_fuel(Pos::quiet_rest, 2);
    }

    pub proof fn lemma_quiet_rest(self, i: int, low: int, hi: int)
        requires
            fair(self),
            0 <= i <= self.ordered(true).len(),
        ensures
            i == self.ordered(true).len() ==> self.quiet_rest(i, low, hi) == 0,
            i < self.ordered(true).len() && !self.keeps_king_safe(self.ordered(true)[i])
                ==> self.quiet_rest(i, low, hi) == self.quiet_rest(i + 1, low, hi),
            i < self.ordered(true).len() && self.keeps_king_safe(self.ordered(true)[i]) ==> {
                let q = self.after(self.ordered(true)[i]);
                let v = -clamp(q.quiet_value(), -hi, -low);
                self.quiet_rest(i, low, hi) == q.quiet_nodes(-hi, -low) + if v >= hi {
                    0
                } else {
                    self.quiet_rest(i + 1, larger(low, v), hi)
                }
            },
    {
        reveal_with_fuel(Pos::quiet_nodes, 2);
        reveal_with_fuel(Pos::quiet_rest, 2);
    }

    pub proof fn lemma_deep_nodes(self, depth: int, ply: int, lo: int, hi: int)
        ensures
            self.deep_nodes(depth, ply, lo, hi) == if depth <= 0 {
                self.quiet_nodes(lo, hi)
            } else {
                1 + self.deep_rest(depth, ply, 0, lo, hi)
            },
    {
        reveal_with_fuel(Pos::deep_nodes, 2);
        reveal_with_fuel(Pos::deep_rest, 2);
    }

    pub proof fn lemma_deep_rest(self, depth: int, ply: int, i: int, low: int, hi: int)
        requires
            depth > 0,
            0 <= i <= self.ordered(false).len(),
        ensures
            i == self.ordered(false).len() ==> self.deep_rest(depth, ply, i, low, hi) == 0,
            i < self.ordered(false).len() && !self.keeps_king_safe(self.ordered(false)[i])
                ==> self.deep_rest(depth, ply, i, low, hi) == self.deep_rest(
                depth,
                ply,
                i + 1,
                low,
                hi,
            ),
            i < self.ordered(false).len() && self.keeps_king_safe(self.ordered(false)[i]) ==> {
                let q = self.after(self.ordered(false)[i]);
                let v = -q.window_value(depth - 1, ply + 1, -hi, -low);
                self.deep_rest(depth, ply, i, low, hi) == q.deep_nodes(
                    depth - 1,
                    ply + 1,
                    -hi,
                    -low,
                ) + if v >= hi {
                    0
                } else {
                    self.deep_rest(depth, ply, i + 1, larger(low, v), hi)
                }
            },
    {
        reveal_with_fuel(Pos::deep_nodes, 2);
        reveal_with_fuel(Pos::deep_rest, 2);
    }
}

} // verus!
