//! Alpha-beta search over the static evaluation, under a budget.
use vstd::prelude::*;

use crate::evaluation::lemma_eval_range;
use crate::legality::lemma_filter_keeps;
use crate::moves::{flag_of, from_of, to_of, F_EP, PAWN};
use crate::position::{castles, Man, Pos};

verus! {

/// The score of being mated at once.
pub const MATE: i32 = 30000;

// ----------------------------------------------------------------- what is searched

/// A man counts one, a pawn two: captures and promotions both bring the sum down.
pub open spec fn weight(at: Seq<Option<Man>>, n: int) -> nat
    decreases n,
{
    if n <= 0 {
        0
    } else {
        weight(at, n - 1) + match at[n - 1] {
            Some(m) => if m.kind == PAWN {
                2nat
            } else {
                1nat
            },
            None => 0nat,
        }
    }
}

spec fn cell_weight(cell: Option<Man>) -> int {
    match cell {
        Some(m) => if m.kind == PAWN {
            2
        } else {
            1
        },
        None => 0,
    }
}

proof fn lemma_weight_update(at: Seq<Option<Man>>, s: int, v: Option<Man>, n: int)
    requires
        0 <= s < at.len(),
        0 <= n <= at.len(),
    ensures
        weight(at.update(s, v), n) == weight(at, n) + if s < n {
            cell_weight(v) - cell_weight(at[s])
        } else {
            0
        },
    decreases n,
{
    if n > 0 {
        lemma_weight_update(at, s, v, n - 1);
    }
}

impl Pos {
    /// The legal captures and promotions in the order in which they are generated.
    pub open spec fn legal_caps(self) -> Seq<u16> {
        self.generated(true).filter(|m: u16| self.keeps_king_safe(m))
    }

    /// The captures and promotions among the legal moves.
    pub proof fn lemma_legal_caps(self, m: u16)
        requires
            self.movable(),
        ensures
            self.legal_caps().contains(m) <==> self.legal(m) && self.forcing(m),
    {
        self.lemma_kings_home();
        self.law_generated_is_pseudo_legal(true, m);
        lemma_filter_keeps(self.generated(true), |m: u16| self.keeps_king_safe(m), m);
    }

    pub proof fn lemma_weight_drops(self, m: u16)
        requires
            self.movable(),
            self.pseudo_legal(m),
            self.forcing(m),
        ensures
            weight(self.after(m).at, 64) < weight(self.at, 64),
    {
        self.law_pseudo_legal_is_playable(m);
        let from = from_of(m);
        let to = to_of(m);
        let victim = self.ep_victim(to);
        let cleared = if flag_of(m) == F_EP {
            self.at.update(victim, None)
        } else {
            self.at
        };
        if flag_of(m) == F_EP {
            lemma_weight_update(self.at, victim, None, 64);
            assert(cleared[from] == self.at[from]);
            assert(cleared[to] == self.at[to]);
        }
        lemma_weight_update(cleared, from, None, 64);
        lemma_weight_update(cleared.update(from, None), to, Some(self.landed(m)), 64);
        assert(!castles(m));
    }

    pub proof fn lemma_cap_step(self, i: int)
        requires
            self.legal_position(),
            0 <= i < self.legal_caps().len(),
        ensures
            self.legal(self.legal_caps()[i]),
            self.after(self.legal_caps()[i]).legal_position(),
            weight(self.after(self.legal_caps()[i]).at, 64) < weight(self.at, 64),
    {
        let m = self.legal_caps()[i];
        assert(self.legal_caps().contains(m));
        self.lemma_sound();
        self.lemma_legal_caps(m);
        self.lemma_weight_drops(m);
        self.lemma_legal_step(m);
    }

    /// The best that the side to move can get by stopping here or by one of its first `n`
    /// captures and promotions, when both sides may go on like that.
    pub open spec fn quiet_best(self, n: int) -> int
        decreases weight(self.at, 64), n,
    {
        if n <= 0 || n > self.legal_caps().len() || !self.legal_position() {
            self.eval()
        } else {
            proof {
                self.lemma_cap_step(n - 1);
            }
            let q = self.after(self.legal_caps()[n - 1]);
            let v = -q.quiet_best(q.legal_caps().len() as int);
            let rest = self.quiet_best(n - 1);
            if v > rest {
                v
            } else {
                rest
            }
        }
    }

    /// What the position is worth once captures and promotions are played out.
    pub open spec fn quiet_value(self) -> int {
        self.quiet_best(self.legal_caps().len() as int)
    }

    /// What the position is worth after looking `depth` plies ahead from `ply`.
    pub open spec fn deep_value(self, depth: int, ply: int) -> int
        decreases depth, self.legal_list().len() + 1,
    {
        if depth <= 0 {
            self.quiet_value()
        } else if self.legal_list().len() == 0 {
            if self.in_check(self.stm) {
                -MATE + ply
            } else {
                0
            }
        } else {
            self.deep_best(depth, ply, self.legal_list().len() as int)
        }
    }

    /// The best of the first `n` legal moves.
    pub open spec fn deep_best(self, depth: int, ply: int, n: int) -> int
        decreases depth, n,
    {
        if n <= 0 || depth <= 0 {
            0
        } else {
            let v = -self.after(self.legal_list()[n - 1]).deep_value(depth - 1, ply + 1);
            let rest = self.deep_best(depth, ply, n - 1);
            if n == 1 || v > rest {
                v
            } else {
                rest
            }
        }
    }
}

/// `x` brought into the window from `lo` to `hi`.
pub open spec fn clamp(x: int, lo: int, hi: int) -> int {
    if x <= lo {
        lo
    } else if x >= hi {
        hi
    } else {
        x
    }
}

impl Pos {
    /// The quiet best is the greatest of its candidates.
    pub proof fn lemma_quiet_best(self, n: int)
        requires
            self.legal_position(),
            0 <= n <= self.legal_caps().len(),
        ensures
            self.eval() <= self.quiet_best(n),
            forall|j: int|
                0 <= j < n ==> -self.after(#[trigger] self.legal_caps()[j]).quiet_value()
                    <= self.quiet_best(n),
            self.quiet_best(n) == self.eval() || exists|j: int|
                0 <= j < n && self.quiet_best(n) == -self.after(
                    #[trigger] self.legal_caps()[j],
                ).quiet_value(),
        decreases n,
    {
        if n > 0 {
            self.lemma_quiet_best(n - 1);
            let m = self.legal_caps()[n - 1];
            let rest = self.quiet_best(n - 1);
            if -self.after(m).quiet_value() > rest {
                assert(self.quiet_best(n) == -self.after(self.legal_caps()[n - 1]).quiet_value());
            } else {
                assert(self.quiet_best(n) == rest);
                if rest != self.eval() {
                    let j = choose|j: int|
                        0 <= j < n - 1 && rest == -self.after(
                            #[trigger] self.legal_caps()[j],
                        ).quiet_value();
                    assert(self.quiet_best(n) == -self.after(self.legal_caps()[j]).quiet_value());
                }
            }
        }
    }

    /// Quiet values stay well inside the bounds of a search.
    pub proof fn lemma_quiet_range(self, n: int)
        requires
            self.legal_position(),
        ensures
            -57000 <= self.quiet_best(n) <= 57000,
        decreases weight(self.at, 64), n,
    {
        lemma_eval_range(self);
        if 0 < n <= self.legal_caps().len() {
            self.lemma_cap_step(n - 1);
            let q = self.after(self.legal_caps()[n - 1]);
            q.lemma_quiet_range(q.legal_caps().len() as int);
            self.lemma_quiet_range(n - 1);
        }
    }

    pub proof fn lemma_legal_at(self, i: int)
        requires
            self.legal_position(),
            0 <= i < self.legal_list().len(),
        ensures
            self.legal(self.legal_list()[i]),
            self.after(self.legal_list()[i]).legal_position(),
    {
        let m = self.legal_list()[i];
        assert(self.legal_list().contains(m));
        self.lemma_sound();
        self.law_legal_list_is_legal(m);
        self.lemma_legal_step(m);
    }

    pub proof fn lemma_deep_best(self, depth: int, ply: int, n: int)
        requires
            depth > 0,
            1 <= n <= self.legal_list().len(),
        ensures
            forall|j: int|
                0 <= j < n ==> -self.after(#[trigger] self.legal_list()[j]).deep_value(
                    depth - 1,
                    ply + 1,
                ) <= self.deep_best(depth, ply, n),
            exists|j: int|
                0 <= j < n && self.deep_best(depth, ply, n) == -self.after(
                    #[trigger] self.legal_list()[j],
                ).deep_value(depth - 1, ply + 1),
        decreases n,
    {
        let m = self.legal_list()[n - 1];
        let v = -self.after(m).deep_value(depth - 1, ply + 1);
        if n == 1 {
            assert(self.deep_best(depth, ply, n) == -self.after(
                self.legal_list()[0],
            ).deep_value(depth - 1, ply + 1));
        } else {
            self.lemma_deep_best(depth, ply, n - 1);
            let rest = self.deep_best(depth, ply, n - 1);
            if v > rest {
                assert(self.deep_best(depth, ply, n) == -self.after(
                    self.legal_list()[n - 1],
                ).deep_value(depth - 1, ply + 1));
            } else {
                let j = choose|j: int|
                    0 <= j < n - 1 && rest == -self.after(
                        #[trigger] self.legal_list()[j],
                    ).deep_value(depth - 1, ply + 1);
                assert(self.deep_best(depth, ply, n) == -self.after(
                    self.legal_list()[j],
                ).deep_value(depth - 1, ply + 1));
            }
        }
    }

    /// Deep values stay well inside the bounds of a search.
    pub proof fn lemma_deep_range(self, depth: int, ply: int)
        requires
            self.legal_position(),
            0 <= ply <= 80000,
            ply + depth <= 80000,
        ensures
            -57000 <= self.deep_value(depth, ply) <= 57000,
        decreases depth, self.legal_list().len() + 1,
    {
        if depth <= 0 {
            self.lemma_quiet_range(self.legal_caps().len() as int);
        } else if self.legal_list().len() > 0 {
            self.lemma_deep_best_range(depth, ply, self.legal_list().len() as int);
        }
    }

    proof fn lemma_deep_best_range(self, depth: int, ply: int, n: int)
        requires
            self.legal_position(),
            depth > 0,
            0 <= ply,
            ply + depth <= 80000,
            1 <= n <= self.legal_list().len(),
        ensures
            -57000 <= self.deep_best(depth, ply, n) <= 57000,
        decreases depth, n,
    {
        self.lemma_legal_at(n - 1);
        self.after(self.legal_list()[n - 1]).lemma_deep_range(depth - 1, ply + 1);
        if n > 1 {
            self.lemma_deep_best_range(depth, ply, n - 1);
        }
    }
}

} // verus!
