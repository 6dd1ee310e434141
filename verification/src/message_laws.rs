//! What is said when something is refused or goes wrong, and of what.
use vstd::prelude::*;

use crate::arbiter::illegal_text;
use crate::book::{book_of, declared, lines_sum, openings_of};
use crate::failure::FAILURE_NAMES;
use crate::fen::{
    clock, en_passant, king_fault, men_count, placement, rank_cells, rank_row, rights_named, side,
};
use crate::field_laws::{lemma_widths, may_be_claimed, width_of};
use crate::native::{
    broken_text, exit_text, hung_text, judged, next_step, sibling_text, siblings, signal_text,
    slow_init_text, Answer, Next, Phase,
};
use crate::notation::uci;
use crate::plan::case_fault;
use crate::position::{Man, Pos, Rights};
use crate::results::{fault_text, merge_fault};
use crate::stats::{Fault, Record};
use crate::text::{decimal, hex, join, just, lines, split};

verus! {

/// A judged answer that does not stand is told why: an unreadable counter before one that ran
/// backwards, that before an overrun, and an overrun before no move.
pub proof fn law_forfeits_say_why(
    t0: u64,
    t1: u64,
    answer: u16,
    budget: u64,
    percent: Seq<char>,
)
    ensures
        t0 == u64::MAX || t1 == u64::MAX ==> judged(t0, t1, answer, budget, percent)
            == Answer::Forfeit(
            "cycle counter unreadable across the move (the PMU was time-shared)"@,
        ),
        t1 < t0 < u64::MAX ==> judged(t0, t1, answer, budget, percent) == Answer::Forfeit(
            "cycle counter went backwards ("@ + decimal(t0 as nat) + " -> "@ + decimal(t1 as nat)
                + ")"@,
        ),
        t0 <= t1 < u64::MAX && t1 - t0 > budget + 2000 ==> judged(
            t0,
            t1,
            answer,
            budget,
            percent,
        ) == Answer::Forfeit(
            "budget overrun: spent "@ + decimal((t1 - t0) as nat) + " cycles of "@ + decimal(
                budget as nat,
            ) + " ("@ + percent + "%, grace "@ + decimal(2000) + ")"@,
        ),
        t0 <= t1 < u64::MAX && t1 - t0 <= budget + 2000 && answer == 0 ==> judged(
            t0,
            t1,
            answer,
            budget,
            percent,
        ) == Answer::Forfeit("returned move 0 (no move chosen)"@),
{
}

/// An engine that hangs, breaks or plays what is not legal is named, and what it did is told.
pub proof fn law_engines_are_named_for_what_they_did(
    name: Seq<char>,
    status: i32,
    m: u16,
    p: Pos,
)
    ensures
        hung_text(name) == name + " hung: no reply within "@ + decimal(5000) + "ms"@,
        broken_text(name, Some(status)) == name + " "@ + exit_text(status),
        broken_text(name, None) == name + " stopped responding"@,
        illegal_text(name, m, p) == name + " played illegal move "@ + uci(m) + " (0x"@ + hex(
            m as nat,
            4,
        ) + ") in position "@ + p.fen(),
{
}

/// Loading that fails is told with the path, and with how the host ended or which phase it did
/// not finish.
pub proof fn law_failed_loads_are_told(path: Seq<char>, status: i32, late: bool, ticks: u64)
    ensures
        next_step(path, Phase::Starting, false, Some(status), late) == Next::Gone(
            path + ": engine host "@ + exit_text(status),
        ),
        next_step(path, Phase::Initialising, false, Some(status), late) == Next::Gone(
            path + ": engine host "@ + exit_text(status),
        ),
        next_step(path, Phase::Starting, false, None, true) == Next::Kill(
            path + ": engine host never started"@,
        ),
        next_step(path, Phase::Initialising, false, None, true) == Next::Kill(
            path + ": hfc_init did not finish within 30s"@,
        ),
        slow_init_text(path, ticks) == path + ": hfc_init spent "@ + decimal(ticks as nat)
            + " reference ticks, limit is "@ + decimal(1_500_000) + " ("@ + decimal(
            (ticks / 150_000) as nat,
        )
            + "x a move budget). Setup is for tables and weights, not for precomputing against the book."@,
{
}

/// Signals are named: those that a broken program dies of, and others are not known.
pub proof fn law_signals_are_named(s: int)
    ensures
        s == 11 ==> signal_text(s) == "SIGSEGV - bad pointer"@,
        s == 7 ==> signal_text(s) == "SIGBUS"@,
        s == 4 ==> signal_text(s) == "SIGILL"@,
        s == 8 ==> signal_text(s) == "SIGFPE"@,
        s == 6 ==> signal_text(s) == "SIGABRT - panic or assertion"@,
        s == 31 ==> signal_text(s) == "SIGSYS - blocked syscall (tried to fork or spawn a thread?)"@,
        s == 9 ==> signal_text(s) == "SIGKILL - killed, out of memory?"@,
        s != 11 && s != 7 && s != 4 && s != 8 && s != 6 && s != 31 && s != 9 ==> signal_text(s)
            == "unknown signal"@,
{
}

/// Kinds of failure have their names, by their numbers.
pub proof fn law_failures_have_their_names(k: int)
    requires
        0 <= k < 6,
    ensures
        FAILURE_NAMES@[k]@ == seq![
            "crash"@,
            "hang"@,
            "illegal move"@,
            "budget overrun"@,
            "no move returned"@,
            "other"@,
        ][k],
{
}

/// A shared core is warned of just when there is more than one sibling, and the others are
/// named.
pub proof fn law_shared_cores_are_warned_of(cpu: nat, list: Seq<char>)
    ensures
        sibling_text(cpu, list) is None <==> siblings(list).len() <= 1,
        siblings(list).len() > 1 ==> sibling_text(cpu, list) == Some(
            "CPU "@ + decimal(cpu) + " shares a physical core with CPU(s) "@ + join(
                siblings(list).filter(|x: Seq<char>| x != decimal(cpu)),
                ", "@,
            )
                + ". Identical work costs ~52% more cycles when a sibling is busy.\n  fix: echo off | sudo tee /sys/devices/system/cpu/smt/control"@,
        ),
{
}

/// What is wrong with a record is told with its key, its value and its numbers.
pub proof fn law_faults_are_told(k: Seq<char>, v: Seq<char>, n: nat, m: nat, quote: Seq<char>)
    ensures
        fault_text(Fault::NotANumber(k, v), quote) == k + ": "@ + quote + " is not a number"@,
        fault_text(Fault::WrongCount(k, n, m), quote) == k + ": "@ + decimal(n)
            + " values, expected "@ + decimal(m),
        fault_text(Fault::NotHex(v), quote) == "book: "@ + quote + " is not hex"@,
        fault_text(Fault::Version(v), quote) == "results version "@ + v + " is not understood"@,
        fault_text(Fault::Missing(k), quote) == "result file is missing "@ + k
            + "; it is probably truncated"@,
        fault_text(Fault::NoEngines, quote) == "result file names no engines"@,
        fault_text(Fault::NoGames, quote) == "result file has no games"@,
        fault_text(Fault::Uneven(n, m), quote) == "result file is inconsistent: "@ + decimal(n)
            + " wins/draws/losses over "@ + decimal(m) + " games"@,
        fault_text(Fault::Uncovered(n, m), quote)
            == "result file is inconsistent: pentanomial covers "@ + decimal(n) + " games, not "@
            + decimal(m),
{
}

/// A refused merge is told with what differs first: the engines, the budgets, the books.
pub proof fn law_refused_merges_are_told(r: Record, o: Record)
    requires
        r.games > 0,
    ensures
        r.a != o.a || r.b != o.b ==> merge_fault(r, o) == Some(
            "refusing to merge "@ + r.a + " vs "@ + r.b + " with "@ + o.a + " vs "@ + o.b,
        ),
        r.a == o.a && r.b == o.b && (r.cycles_a != o.cycles_a || r.cycles_b != o.cycles_b)
            ==> merge_fault(r, o) == Some("refusing to merge runs with different budgets"@),
        r.a == o.a && r.b == o.b && r.cycles_a == o.cycles_a && r.cycles_b == o.cycles_b && r.book
            != o.book ==> merge_fault(r, o) == Some(
            "refusing to merge runs with different books ("@ + hex(r.book as nat, 16) + " vs "@
                + hex(o.book as nat, 16) + ")"@,
        ),
{
}

/// A refused book is told with what it lacks: openings, a readable sum, or the right one.
pub proof fn law_refused_books_are_told(text: Seq<char>)
    ensures
        ({
            let openings = openings_of(lines(text));
            let sum = lines_sum(openings);
            let given = declared(lines(text));
            &&& openings.len() == 0 ==> book_of(text) == Err::<Seq<Seq<char>>, Seq<char>>(
                "book.txt"@ + " contains no openings"@,
            )
            &&& openings.len() > 0 && given is None ==> book_of(text) == Err::<
                Seq<Seq<char>>,
                Seq<char>,
            >(
                "book.txt"@
                    + " has no readable '# checksum=' header. The book is part of the              rules; restore it from git."@,
            )
            &&& openings.len() > 0 && given is Some && given->0 != sum ==> book_of(text) == Err::<
                Seq<Seq<char>>,
                Seq<char>,
            >(
                "book.txt"@ + " checksum mismatch: header says "@ + hex(given->0 as nat, 16)
                    + ", contents hash to "@ + hex(sum as nat, 16)
                    + ".\n  The book has been edited. Both players must use an identical book."@,
            )
        }),
{
}

/// What is wrong with a position's text is told with the word that says it.
pub proof fn law_unread_fields_are_told(at: Seq<Option<Man>>, stm: int, x: Seq<char>, s: Seq<char>)
    requires
        0 <= stm < 2,
    ensures
        side(Some(x)) is Err ==> side(Some(x))->Err_0 == "side to move is '"@ + x
            + "', expected w or b"@,
        clock(Some(x)) is Err ==> clock(Some(x))->Err_0 == "halfmove clock '"@ + x
            + "' is not a number"@,
        split(s, just('/')).len() != 8 ==> placement(s) == Err::<Seq<Option<Man>>, Seq<char>>(
            "placement has "@ + decimal(split(s, just('/')).len()) + " ranks, expected 8"@,
        ),
        ({
            let named = x.len() == 2 && 97 <= x[0] as int <= 104 && 49 <= x[1] as int <= 56;
            let there = x[1] == (if stm == 0 {
                '6'
            } else {
                '3'
            });
            let told = "en passant square '"@ + x;
            en_passant(at, stm, Some(x)) is Err ==> en_passant(at, stm, Some(x))->Err_0
                == if !named {
                told + "' is not a square"@
            } else if !there {
                told + "' is not on rank "@ + decimal(
                    if stm == 0 {
                        6
                    } else {
                        3
                    },
                )
            } else {
                told + "' with no pawn to capture"@
            }
        }),
{
}

/// A side with more or fewer kings than one is told by its colour and how many it has.
pub proof fn law_miscounted_kings_are_told(at: Seq<Option<Man>>, c: int)
    requires
        0 <= c < 2,
    ensures
        ({
            let n = men_count(at, c, 5, 64);
            king_fault(at, c) == if n == 1 {
                None
            } else {
                Some(
                    (if c == 0 {
                        "white"@
                    } else {
                        "black"@
                    }) + " has "@ + decimal(n as nat) + " kings, expected 1"@,
                )
            }
        }),
{
}

/// A rank that cannot be read is told by its number, counted from one, and by the first
/// character that is at fault.
pub proof fn law_unread_ranks_are_told(r: int, s: Seq<char>, ch: char)
    requires
        0 <= r < 8,
        rank_cells(r, s) is Ok,
    ensures
        ({
            let n = rank_cells(r, s)->Ok_0.len();
            let rank = "rank "@ + decimal((r + 1) as nat);
            let next = rank_cells(r, s.push(ch));
            let figure = 48 <= ch as int <= 57;
            let man = width_of(ch) == 1 && !figure;
            let pawn = ch == 'p' || ch == 'P';
            &&& ch == '0' || ch == '9' ==> next == Err::<Seq<Option<Man>>, Seq<char>>(
                (rank + ": '"@).push(ch) + "' is not a run of 1-8"@,
            )
            &&& !figure && !man ==> next == Err::<Seq<Option<Man>>, Seq<char>>(
                (rank + ": '"@).push(ch) + "' is not a piece"@,
            )
            &&& man && n > 7 ==> next == Err::<Seq<Option<Man>>, Seq<char>>(
                rank + " describes more than 8 squares"@,
            )
            &&& pawn && n <= 7 && (r == 0 || r == 7) ==> next == Err::<
                Seq<Option<Man>>,
                Seq<char>,
            >("a pawn on rank "@ + decimal((r + 1) as nat))
            &&& n != 8 ==> rank_row(r, s) == Err::<Seq<Option<Man>>, Seq<char>>(
                rank + " describes "@ + decimal(n) + " squares, expected 8"@,
            )
        }),
{
    assert(s.push(ch).drop_last() =~= s);
    lemma_widths(ch);
}

/// A right to castle that cannot be had is told by its side and wing, and a letter that names
/// none by itself.
pub proof fn law_unread_rights_are_told(at: Seq<Option<Man>>, s: Seq<char>, ch: char)
    requires
        rights_named(at, s) is Ok,
        !may_be_claimed(at, ch),
    ensures
        rights_named(at, s.push(ch)) == Err::<Rights, Seq<char>>(
            if ch == 'K' {
                "claims "@ + "white kingside"@ + " castling, but the king or rook has moved"@
            } else if ch == 'Q' {
                "claims "@ + "white queenside"@ + " castling, but the king or rook has moved"@
            } else if ch == 'k' {
                "claims "@ + "black kingside"@ + " castling, but the king or rook has moved"@
            } else if ch == 'q' {
                "claims "@ + "black queenside"@ + " castling, but the king or rook has moved"@
            } else {
                "'"@.push(ch) + "' is not a castling right"@
            },
        ),
{
    assert(s.push(ch).drop_last() =~= s);
}

/// A case that an engine fails is told with its name, its budget and what it did.
pub proof fn law_failed_cases_are_told(
    name: Seq<char>,
    budget: u64,
    legal: Seq<u16>,
    m: u16,
    why: Seq<char>,
)
    ensures
        ({
            let told = "  FAIL "@ + name + " @"@ + decimal(budget as nat) + ": "@;
            &&& case_fault(name, budget, legal, Answer::Forfeit(why)) is Some ==> case_fault(
                name,
                budget,
                legal,
                Answer::Forfeit(why),
            ) == Some(told + why)
            &&& legal.len() == 0 ==> case_fault(name, budget, legal, Answer::Move(m)) == Some(
                told + "returned "@ + uci(m) + " in a terminal position"@,
            )
            &&& legal.len() > 0 && case_fault(name, budget, legal, Answer::Move(m)) is Some
                ==> case_fault(name, budget, legal, Answer::Move(m)) == Some(
                told + "illegal move "@ + uci(m) + " (0x"@ + hex(m as nat, 4) + ")"@,
            )
        }),
{
}

} // verus!
