//! How failures are told, sorted and counted.
use vstd::prelude::*;

use crate::arbiter::{names, GameLog};
use crate::contest::seats;
use crate::failure::bucket;
use crate::native::{exit_text, opt_text, signal_text, Answer};
use crate::plan::case_fault;
use crate::referee_laws::law_the_first_named_move_is_taken;
use crate::tally::{absorbed, strings, Tally};
use crate::text::{contains, decimal};

verus! {

/// A failure is sorted by the first of these that its note speaks of: a crash, a hang, an
/// illegal move, an overrun, no move. One that speaks of none is sorted last.
pub proof fn law_failures_are_sorted_by_what_they_say(note: Seq<char>)
    ensures
        ({
            let crash = contains(note, "crashed with signal"@) || contains(
                note,
                "exited with status"@,
            );
            let hang = contains(note, "hung"@);
            let illegal = contains(note, "illegal move"@);
            let overrun = contains(note, "budget overrun"@);
            let no_move = contains(note, "returned move 0"@);
            &&& bucket(note) == 0 <==> crash
            &&& bucket(note) == 1 <==> !crash && hang
            &&& bucket(note) == 2 <==> !crash && !hang && illegal
            &&& bucket(note) == 3 <==> !crash && !hang && !illegal && overrun
            &&& bucket(note) == 4 <==> !crash && !hang && !illegal && !overrun && no_move
            &&& bucket(note) == 5 <==> !crash && !hang && !illegal && !overrun && !no_move
        }),
{
}

/// A process that ended by a signal is told by its number, which is what remains of its status
/// divided by a hundred and twenty-eight, unless that is nothing or all; any other by the second
/// byte of its status.
pub proof fn law_ends_are_told_by_status(status: i32)
    requires
        status >= 0,
    ensures
        ({
            let signal = status as int % 128;
            exit_text(status) == if 0 < signal < 127 {
                "crashed with signal "@ + decimal(signal as nat) + " ("@ + signal_text(signal)
                    + ")"@
            } else {
                "exited with status "@ + decimal((status as int / 256 % 256) as nat)
            }
        }),
{
    let w = status as u32;
    assert((status & 0x7f) == w % 128 && ((status >> 8) & 0xff) == w / 256 % 256) by (bit_vector)
        requires
            status >= 0,
            w == status as u32,
    ;
}

/// A note of a failure adds one to its kind and to no other, and is itself kept while there are
/// fewer than ten.
pub proof fn law_a_failure_is_noted(
    before: Tally,
    after: Tally,
    log: GameLog,
    a_is_white: bool,
    players: Option<(Seq<char>, Seq<char>, nat)>,
    k: int,
)
    requires
        absorbed(before, after, log, a_is_white, players),
        log.note is Some,
        forall|k: int| 0 <= k < 6 ==> #[trigger] before.failures@[k] < u64::MAX,
        0 <= k < 6,
    ensures
        after.failures@[k] == before.failures@[k] + if k == bucket(log.note->0@) {
            1int
        } else {
            0
        },
        before.notes@.len() < 10 ==> strings(after.notes@) == strings(before.notes@).push(
            log.note->0@,
        ),
        before.notes@.len() >= 10 ==> strings(after.notes@) == strings(before.notes@),
{
    assert(opt_text(log.note) == Some(log.note->0@));
    let b = bucket(log.note->0@);
    assert(0 <= b < 6);
    let x = before.failures@[b];
}

/// The first engine named has White in the first game of a pair, and the second in the other.
pub proof fn law_colours_are_swapped(a: &str, b: &str, round: int)
    requires
        round >= 0,
    ensures
        seats(Some((a, b)), true, round) == Some((a@, b@, round as nat)),
        seats(Some((a, b)), false, round) == Some((b@, a@, round as nat)),
        seats(None, true, round) is None,
        seats(None, false, round) is None,
{
}

/// An engine passes a case just when it names a move that is legal there, or, where none is,
/// forfeits for returning none.
pub proof fn law_a_case_is_passed_by_a_legal_move(
    name: Seq<char>,
    budget: u64,
    legal: Seq<u16>,
    m: u16,
    why: Seq<char>,
)
    ensures
        case_fault(name, budget, legal, Answer::Move(m)) is None <==> exists|i: int|
            0 <= i < legal.len() && names(m, #[trigger] legal[i]),
        case_fault(name, budget, legal, Answer::Forfeit(why)) is None <==> legal.len() == 0
            && contains(why, "returned move 0"@),
{
    law_the_first_named_move_is_taken(legal, m);
}

} // verus!
