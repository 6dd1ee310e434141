//! What values stand for in contracts: themselves, field by field.
use vstd::prelude::*;

use crate::board::{rights_of, Undo};
use crate::game::{Outcome, Verdict};
use crate::native::{Answer, LoadStep, MoveOut, Next};
use crate::results::{quoted_value, ResultsError};
use crate::sandbox::{filter_verdict, verdict_from, SockFilter};
use crate::stats::{Fault, Results};
use crate::tally::{names_of, Tally};

verus! {

/// An outcome stands for the verdict that it names, with the same colour and the same reason.
pub proof fn law_outcomes_stand_for_verdicts(o: Outcome, c: usize, why: &'static str)
    ensures
        o@ is Ongoing <==> o is Ongoing,
        o@ == Verdict::Win(c as int) <==> o == Outcome::Win(c),
        o == Outcome::Draw(why) ==> o@ == Verdict::Draw(why@),
        o is Draw <==> o@ is Draw,
        o == Outcome::Forfeit(c, why) ==> o@ == Verdict::Forfeit(c as int, why@),
        o is Forfeit <==> o@ is Forfeit,
{
}

/// An answer stands for the move word or the reason in it, and a step of loading for itself.
pub proof fn law_answers_stand_for_themselves(m: MoveOut, word: u16, s: LoadStep)
    ensures
        m@ == Answer::Move(word) <==> m == MoveOut::Move(word),
        m matches MoveOut::Forfeit(why) ==> m@ == Answer::Forfeit(why@),
        s is Done <==> s@ is Done,
        s is Wait <==> s@ is Wait,
        s matches LoadStep::Gone(why) ==> s@ == Next::Gone(why@),
        s matches LoadStep::Kill(why) ==> s@ == Next::Kill(why@),
{
}

/// Results stand for the record with their names, their numbers and their counts, each under
/// its own name.
pub proof fn law_results_stand_for_records(r: Results, i: int)
    ensures
        r@.a == r.a@ && r@.b == r.b@,
        r@.cycles_a == r.cycles_a && r@.cycles_b == r.cycles_b && r@.book == r.book,
        r@.wins_a == r.wins_a && r@.draws == r.draws && r@.wins_b == r.wins_b,
        r@.plies == r.plies && r@.games == r.games,
        r@.cycles_sum == r.cycles_sum && r@.cycles_n == r.cycles_n,
        r@.penta.len() == 5 && r@.failures.len() == 6,
        0 <= i < 5 ==> r@.penta[i] == r.penta.counts@[i],
        0 <= i < 6 ==> r@.failures[i] == r.failures@[i],
{
}

/// An error of reading stands for the fault that it names, with what it names it with; a value
/// is quoted where it is no number.
pub proof fn law_errors_stand_for_faults(e: ResultsError)
    ensures
        e matches ResultsError::NotANumber(k, v) ==> e@ == Fault::NotANumber(k@, v@)
            && quoted_value(e@) == v@,
        e matches ResultsError::WrongCount(k, n, want) ==> e@ == Fault::WrongCount(
            k@,
            n as nat,
            want as nat,
        ),
        e matches ResultsError::NotHex(v) ==> e@ == Fault::NotHex(v@) && quoted_value(e@) == v@,
        e matches ResultsError::Version(v) ==> e@ == Fault::Version(v@),
        e matches ResultsError::Missing(k) ==> e@ == Fault::Missing(k@),
        e is NoEngines ==> e@ == Fault::NoEngines,
        e is NoGames ==> e@ == Fault::NoGames,
        e matches ResultsError::Uneven(n, games) ==> e@ == Fault::Uneven(n as nat, games as nat),
        e matches ResultsError::Uncovered(n, games) ==> e@ == Fault::Uncovered(
            n as nat,
            games as nat,
        ),
{
}

/// What undoing a move needs stands for itself.
pub proof fn law_undos_stand_for_what_was_lost(u: Undo)
    ensures
        u@.captured == u.captured,
        u@.ep == u.ep,
        u@.halfmove == u.halfmove,
        u@.rights == rights_of(u.castle),
{
}

/// Players are named White first, and a tally is even when its wins, draws and losses come to
/// its games.
pub proof fn law_tallies_are_even(t: Tally, white: &str, black: &str, round: usize)
    ensures
        names_of(Some((white, black, round))) == Some((white@, black@, round as nat)),
        names_of(None) is None,
        t.even() <==> t.wins_a + t.draws + t.wins_b == t.games,
{
}

/// A filter is run from its first instruction. A load puts the number of the call in the
/// accumulator; a jump passes over as many instructions as it says for equal and for unequal; a
/// return ends with its value. Whatever else there is, and running off the end, gives nothing.
pub proof fn law_filters_are_run(prog: Seq<SockFilter>, nr: u32, pc: int, acc: u32)
    requires
        0 <= pc <= prog.len(),
    ensures
        filter_verdict(prog, nr) == verdict_from(prog, nr, 0, 0),
        pc == prog.len() ==> verdict_from(prog, nr, pc, acc) is None,
        pc < prog.len() ==> ({
            let i = prog[pc];
            &&& i.code == 0x20 && i.k == 0 ==> verdict_from(prog, nr, pc, acc) == verdict_from(
                prog,
                nr,
                pc + 1,
                nr,
            )
            &&& i.code == 0x15 && acc == i.k ==> verdict_from(prog, nr, pc, acc) == verdict_from(
                prog,
                nr,
                pc + 1 + i.jt,
                acc,
            )
            &&& i.code == 0x15 && acc != i.k ==> verdict_from(prog, nr, pc, acc) == verdict_from(
                prog,
                nr,
                pc + 1 + i.jf,
                acc,
            )
            &&& i.code == 0x06 ==> verdict_from(prog, nr, pc, acc) == Some(i.k)
        }),
{
}

} // verus!
