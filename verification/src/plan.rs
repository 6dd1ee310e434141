//! How long a match is, when it is saved, and what a smoke test makes of an answer.
use vstd::prelude::*;

use crate::arbiter::{find_named, named_in};
use crate::native::{opt_text, Answer, MoveOut};
use crate::notation::{move_to_uci, uci};
use crate::text::{
    chars, contains, cut, decimal, has_text, hex, is_text, push_decimal, push_hex, string,
};

verus! {

/// The length of a match.
pub struct Plan {
    pub pairs: usize,
    /// Whether the book holds fewer openings than were asked for.
    pub capped: bool,
}

/// The pairs that some games make.
pub open spec fn pairs_for(games: nat) -> nat {
    (games + 1) / 2
}

/// Plans a match of so many games over a book, from an offset on. Openings are not reused:
/// two games from one start are correlated.
pub fn plan_match(games: usize, openings: usize, offset: usize) -> (res: Result<Plan, String>)
    ensures
        match res {
            Err(e) => offset >= openings && e@ == "--book-offset "@ + decimal(offset as nat)
                + " is past the end of a "@ + decimal(openings as nat) + "-opening book"@,
            Ok(p) => {
                &&& offset < openings
                &&& p.capped == (openings - offset < pairs_for(games as nat))
                &&& p.pairs == if openings - offset < pairs_for(games as nat) {
                    openings - offset
                } else {
                    pairs_for(games as nat) as int
                }
            },
        },
{
    if offset >= openings {
        let mut e = "--book-offset ".to_owned();
        push_decimal(&mut e, offset as u128);
        e.append(" is past the end of a ");
        push_decimal(&mut e, openings as u128);
        e.append("-opening book");
        return Err(e);
    }
    let wanted = games / 2 + games % 2;
    let available = openings - offset;
    if available < wanted {
        Ok(Plan { pairs: available, capped: true })
    } else {
        Ok(Plan { pairs: wanted, capped: false })
    }
}

/// What is said of a match that the book cuts short.
pub fn capped_note(available: usize, offset: usize, games: usize) -> (s: String)
    ensures
        s@ == "note: "@ + decimal(available as nat) + " openings available from offset "@ + decimal(
            offset as nat,
        ) + ", "@ + decimal(pairs_for(games as nat))
            + " pairs requested; capping.\n      Openings are not reused: two games from the same start are correlated, which inflates the SPRT."@,
{
    let wanted = games / 2 + games % 2;
    let mut s = "note: ".to_owned();
    push_decimal(&mut s, available as u128);
    s.append(" openings available from offset ");
    push_decimal(&mut s, offset as u128);
    s.append(", ");
    push_decimal(&mut s, wanted as u128);
    s.append(
        " pairs requested; capping.\n      Openings are not reused: two games from the same start are correlated, which inflates the SPRT.",
    );
    s
}

/// Whether the results are written down after pair `i`: every so many pairs, and at the end.
pub fn save_due(i: usize, pairs: usize) -> (r: bool)
    requires
        i < pairs,
    ensures
        r == ((i + 1) % 25 == 0 || i + 1 == pairs),
{
    (i + 1) % 25 == 0 || i + 1 == pairs
}

/// The file beside a game record that holds the moves for machines.
pub open spec fn moves_file(pgn: Seq<char>) -> Seq<char> {
    if ends_in_pgn(pgn) {
        pgn.take(pgn.len() - 4) + ".moves"@
    } else {
        pgn + ".moves"@
    }
}

pub open spec fn ends_in_pgn(s: Seq<char>) -> bool {
    s.len() >= 4 && s.skip(s.len() - 4) == ".pgn"@
}

/// The file beside a game record that holds the moves for machines.
pub fn moves_path(pgn: &str) -> (r: String)
    ensures
        r@ == moves_file(pgn@),
{
    let s = chars(pgn);
    let n = s.len();
    if n >= 4 {
        let end = cut(&s, n - 4, n);
        assert(end@ =~= s@.skip(n - 4));
        if is_text(&end, ".pgn") {
            let stem = cut(&s, 0, n - 4);
            assert(stem@ =~= s@.take(n - 4));
            let mut r = string(&stem);
            r.append(".moves");
            return r;
        }
    }
    let mut r = pgn.to_owned();
    r.append(".moves");
    r
}

// ------------------------------------------------------------------------ smoke test

/// How a complaint about a case begins.
pub open spec fn fail_text(name: Seq<char>, budget: u64) -> Seq<char> {
    "  FAIL "@ + name + " @"@ + decimal(budget as nat) + ": "@
}

/// What is wrong with an answer in a position with these legal moves. Without legal moves,
/// no move is the only right answer; with some, the answer must name one.
pub open spec fn case_fault(
    name: Seq<char>,
    budget: u64,
    legal: Seq<u16>,
    out: Answer,
) -> Option<Seq<char>> {
    match out {
        Answer::Forfeit(why) => if legal.len() == 0 && contains(why, "returned move 0"@) {
            None
        } else {
            Some(fail_text(name, budget) + why)
        },
        Answer::Move(m) => if legal.len() == 0 {
            Some(fail_text(name, budget) + "returned "@ + uci(m) + " in a terminal position"@)
        } else if named_in(legal, m) is Some {
            None
        } else {
            Some(
                fail_text(name, budget) + "illegal move "@ + uci(m) + " (0x"@ + hex(m as nat, 4)
                    + ")"@,
            )
        },
    }
}

/// Checks an engine's answer: nothing, or what is wrong with it.
pub fn check_case(name: &str, budget: u64, legal: &Vec<u16>, out: &MoveOut) -> (r: Option<String>)
    ensures
        opt_text(r) == case_fault(name@, budget, legal@, out@),
{
    let mut s = "  FAIL ".to_owned();
    s.append(name);
    s.append(" @");
    push_decimal(&mut s, budget as u128);
    s.append(": ");
    match out {
        MoveOut::Forfeit(why) => {
            if legal.len() == 0 && has_text(&chars(why.as_str()), "returned move 0") {
                return None;
            }
            s.append(why.as_str());
        },
        MoveOut::Move(m) => {
            if legal.len() == 0 {
                s.append("returned ");
                s.append(move_to_uci(*m).as_str());
                s.append(" in a terminal position");
            } else {
                match find_named(legal, *m) {
                    Some(_) => {
                        return None;
                    },
                    None => {},
                }
                s.append("illegal move ");
                s.append(move_to_uci(*m).as_str());
                s.append(" (0x");
                push_hex(&mut s, *m as u64, 4);
                s.append(")");
            }
        },
    }
    Some(s)
}

} // verus!
