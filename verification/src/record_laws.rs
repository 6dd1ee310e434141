//! What results add up to: a game counts once, a merged record holds both runs, and a record
//! that is read is whole.
use vstd::prelude::*;

use crate::arbiter::GameLog;
use crate::game::Verdict;
use crate::notation::score_text;
use crate::results::{merge_fault, merged, sums_fit};
use crate::stats::{
    key_value, numbers_of, read_lines, record_fault, record_of, total, with_value, Record,
};
use crate::tally::{absorbed, points, strings, unplayable, white_points, Tally};
use crate::text::{just, lines, split};

verus! {

/// A sum grows by what is put behind, and starts at nothing.
pub proof fn law_sums_add_up(s: Seq<u64>, x: u64)
    ensures
        total(Seq::<u64>::empty()) == 0,
        total(s.push(x)) == total(s) + x,
        total(s) >= 0,
    decreases s.len(),
{
    assert(s.push(x).drop_last() =~= s);
    if s.len() > 0 {
        law_sums_add_up(s.drop_last(), x);
    }
}

proof fn lemma_total_five(s: Seq<u64>)
    requires
        s.len() == 5,
    ensures
        total(s) == s[0] + s[1] + s[2] + s[3] + s[4],
{
    let e = Seq::<u64>::empty();
    assert(s =~= e.push(s[0]).push(s[1]).push(s[2]).push(s[3]).push(s[4]));
    law_sums_add_up(e, s[0]);
    law_sums_add_up(e.push(s[0]), s[1]);
    law_sums_add_up(e.push(s[0]).push(s[1]), s[2]);
    law_sums_add_up(e.push(s[0]).push(s[1]).push(s[2]), s[3]);
    law_sums_add_up(e.push(s[0]).push(s[1]).push(s[2]).push(s[3]), s[4]);
}

proof fn lemma_total_six(s: Seq<u64>)
    requires
        s.len() == 6,
    ensures
        total(s) == s[0] + s[1] + s[2] + s[3] + s[4] + s[5],
{
    assert(s =~= s.take(5).push(s[5]));
    law_sums_add_up(s.take(5), s[5]);
    lemma_total_five(s.take(5));
}

/// The winner of a game has two half points and the loser none, whoever plays which colour; a
/// side that forfeits has lost; a drawn game and one left open are worth one to each.
pub proof fn law_points_go_to_the_winner(c: int, why: Seq<char>, a_is_white: bool)
    requires
        0 <= c < 2,
    ensures
        points(Verdict::Win(c), a_is_white) == if a_is_white == (c == 0) {
            2int
        } else {
            0
        },
        points(Verdict::Forfeit(c, why), a_is_white) == if a_is_white == (c == 0) {
            0int
        } else {
            2
        },
        points(Verdict::Draw(why), a_is_white) == 1,
        points(Verdict::Ongoing, a_is_white) == 1,
        white_points(Verdict::Win(c)) == 2 - 2 * c,
        white_points(Verdict::Forfeit(c, why)) == 2 * c,
        white_points(Verdict::Draw(why)) == 1,
        white_points(Verdict::Ongoing) == 1,
{
}

/// The score that a finished game is written down with says who has the points: White before
/// the stroke, Black behind it.
pub proof fn law_the_written_score_gives_the_points(v: Verdict)
    requires
        v != Verdict::Ongoing,
        v matches Verdict::Win(c) ==> 0 <= c < 2,
        v matches Verdict::Forfeit(c, _) ==> 0 <= c < 2,
    ensures
        points(v, true) == 2 <==> score_text(v) == seq!['1', '-', '0'],
        points(v, true) == 0 <==> score_text(v) == seq!['0', '-', '1'],
        points(v, true) == 1 <==> score_text(v) == seq!['1', '/', '2', '-', '1', '/', '2'],
        score_text(Verdict::Ongoing) == seq!['*'],
{
    reveal_strlit("1-0");
    reveal_strlit("0-1");
    reveal_strlit("1/2-1/2");
    reveal_strlit("*");
    assert("1-0"@ =~= seq!['1', '-', '0']);
    assert("0-1"@ =~= seq!['0', '-', '1']);
    assert("1/2-1/2"@ =~= seq!['1', '/', '2', '-', '1', '/', '2']);
    assert("*"@ =~= seq!['*']);
    assert("1-0"@[0] == '1' && "0-1"@[0] == '0');
}

/// Taking a game in adds one to the games and one to the wins of A, the wins of B or the draws,
/// as it ended; its plies, its cycles and its moves are added to theirs.
pub proof fn law_a_game_adds_to_its_score(
    before: Tally,
    after: Tally,
    log: GameLog,
    a_is_white: bool,
    players: Option<(Seq<char>, Seq<char>, nat)>,
)
    requires
        absorbed(before, after, log, a_is_white, players),
        log.outcome@ matches Verdict::Win(c) ==> 0 <= c < 2,
        log.outcome@ matches Verdict::Forfeit(c, _) ==> 0 <= c < 2,
    ensures
        after.games == before.games + 1,
        ({
            let a_won = match log.outcome@ {
                Verdict::Win(c) => a_is_white == (c == 0),
                Verdict::Forfeit(c, _) => a_is_white == (c == 1),
                _ => false,
            };
            let b_won = match log.outcome@ {
                Verdict::Win(c) => a_is_white == (c == 1),
                Verdict::Forfeit(c, _) => a_is_white == (c == 0),
                _ => false,
            };
            &&& a_won ==> after.wins_a == before.wins_a + 1 && after.wins_b == before.wins_b
                && after.draws == before.draws
            &&& b_won ==> after.wins_a == before.wins_a && after.wins_b == before.wins_b + 1
                && after.draws == before.draws
            &&& !a_won && !b_won ==> after.wins_a == before.wins_a && after.wins_b == before.wins_b
                && after.draws == before.draws + 1
        }),
        after.plies == before.plies + log.plies,
        after.cycles == before.cycles + total(log.cycles@[0]@) + total(log.cycles@[1]@),
        after.moves == before.moves + log.cycles@[0]@.len() + log.cycles@[1]@.len(),
        players is None ==> after.pgn == before.pgn && after.game_lines == before.game_lines,
        players is Some ==> after.pgn@.len() == before.pgn@.len() + 1 && after.game_lines@.len()
            == before.game_lines@.len() + 1,
        log.note is None ==> after.failures == before.failures && after.notes == before.notes,
{
    let s = strings(after.pgn@);
    let t = strings(after.game_lines@);
    assert(s.len() == after.pgn@.len());
    assert(t.len() == after.game_lines@.len());
}

/// A match is given up once two hundred games have failed, if they are at least a quarter of
/// those played.
pub proof fn law_a_match_is_given_up(t: Tally)
    ensures
        unplayable(t) <==> {
            let f = t.failures@;
            let failed = f[0] + f[1] + f[2] + f[3] + f[4] + f[5];
            failed >= 200 && 4 * failed >= t.games
        },
{
    lemma_total_six(t.failures@);
}

/// Sums fit just when every one of them does.
pub proof fn law_sums_fit_one_by_one(r: Record, o: Record)
    requires
        r.penta.len() == 5,
        o.penta.len() == 5,
        r.failures.len() == 6,
        o.failures.len() == 6,
    ensures
        sums_fit(r, o) <==> {
            &&& r.games + o.games <= u64::MAX
            &&& r.wins_a + o.wins_a <= u64::MAX
            &&& r.draws + o.draws <= u64::MAX
            &&& r.wins_b + o.wins_b <= u64::MAX
            &&& r.plies + o.plies <= u64::MAX
            &&& r.cycles_sum + o.cycles_sum <= u64::MAX
            &&& r.cycles_n + o.cycles_n <= u64::MAX
            &&& r.penta[0] + o.penta[0] <= u64::MAX
            &&& r.penta[1] + o.penta[1] <= u64::MAX
            &&& r.penta[2] + o.penta[2] <= u64::MAX
            &&& r.penta[3] + o.penta[3] <= u64::MAX
            &&& r.penta[4] + o.penta[4] <= u64::MAX
            &&& r.failures[0] + o.failures[0] <= u64::MAX
            &&& r.failures[1] + o.failures[1] <= u64::MAX
            &&& r.failures[2] + o.failures[2] <= u64::MAX
            &&& r.failures[3] + o.failures[3] <= u64::MAX
            &&& r.failures[4] + o.failures[4] <= u64::MAX
            &&& r.failures[5] + o.failures[5] <= u64::MAX
        },
{
}

/// A merged record holds the sum of everything that either run counted, and is named like the
/// first run, or like the second where the first holds no games.
pub proof fn law_merge_adds_everything(r: Record, o: Record)
    requires
        r.penta.len() == 5,
        o.penta.len() == 5,
        r.failures.len() == 6,
        o.failures.len() == 6,
        sums_fit(r, o),
    ensures
        merged(r, o).games == r.games + o.games,
        merged(r, o).wins_a == r.wins_a + o.wins_a,
        merged(r, o).draws == r.draws + o.draws,
        merged(r, o).wins_b == r.wins_b + o.wins_b,
        merged(r, o).plies == r.plies + o.plies,
        merged(r, o).cycles_sum == r.cycles_sum + o.cycles_sum,
        merged(r, o).cycles_n == r.cycles_n + o.cycles_n,
        merged(r, o).penta.len() == 5,
        forall|i: int| 0 <= i < 5 ==> #[trigger] merged(r, o).penta[i] == r.penta[i] + o.penta[i],
        merged(r, o).failures.len() == 6,
        forall|i: int|
            0 <= i < 6 ==> #[trigger] merged(r, o).failures[i] == r.failures[i] + o.failures[i],
        ({
            let named = if r.games == 0 {
                o
            } else {
                r
            };
            let m = merged(r, o);
            m.a == named.a && m.b == named.b && m.cycles_a == named.cycles_a && m.cycles_b
                == named.cycles_b && m.book == named.book
        }),
{
    assert forall|i: int| 0 <= i < 5 implies #[trigger] merged(r, o).penta[i] == r.penta[i]
        + o.penta[i] by {
        assert(r.penta[i] + o.penta[i] <= u64::MAX);
    }
    assert forall|i: int| 0 <= i < 6 implies #[trigger] merged(r, o).failures[i] == r.failures[i]
        + o.failures[i] by {
        assert(r.failures[i] + o.failures[i] <= u64::MAX);
    }
}

/// Runs are merged just when they are of the same engines, in the same order, with the same
/// budgets and the same book, or when the first holds no games.
pub proof fn law_like_is_merged_with_like(r: Record, o: Record)
    ensures
        merge_fault(r, o) is None <==> r.games == 0 || (r.a == o.a && r.b == o.b && r.cycles_a
            == o.cycles_a && r.cycles_b == o.cycles_b && r.book == o.book),
{
}

/// A record is at fault just when it names no engines, holds no games, or does not add up: its
/// wins, draws and losses must come to its games, and its pairs to half of them.
pub proof fn law_a_record_adds_up(r: Record)
    requires
        r.penta.len() == 5,
    ensures
        record_fault(r) is None <==> {
            &&& r.a.len() > 0
            &&& r.b.len() > 0
            &&& r.games > 0
            &&& r.wins_a + r.draws + r.wins_b == r.games
            &&& 2 * (r.penta[0] + r.penta[1] + r.penta[2] + r.penta[3] + r.penta[4]) == r.games
        },
{
    lemma_total_five(r.penta);
}

proof fn lemma_numbers(k: Seq<char>, parts: Seq<Seq<char>>)
    ensures
        numbers_of(k, parts) matches Ok(ns) ==> ns.len() == parts.len(),
    decreases parts.len(),
{
    if parts.len() > 0 {
        lemma_numbers(k, parts.drop_last());
    }
}

proof fn lemma_shapes(r: Record, k: Seq<char>, v: Seq<char>)
    requires
        r.penta.len() == 5,
        r.failures.len() == 6,
    ensures
        with_value(r, k, v) matches Ok(x) ==> x.penta.len() == 5 && x.failures.len() == 6,
{
    lemma_numbers(k, split(v, just(',')));
}

proof fn lemma_read_shapes(ls: Seq<Seq<char>>)
    ensures
        read_lines(ls) matches Ok((r, _)) ==> r.penta.len() == 5 && r.failures.len() == 6,
    decreases ls.len(),
{
    if ls.len() > 0 {
        lemma_read_shapes(ls.drop_last());
        if let Ok((r, seen)) = read_lines(ls.drop_last()) {
            if let Some((k, v)) = key_value(ls.last()) {
                lemma_shapes(r, k, v);
            }
        }
    }
}

/// A record that is read names its engines, holds games and adds up.
pub proof fn law_records_read_are_whole(t: Seq<char>)
    requires
        record_of(t) is Ok,
    ensures
        ({
            let r = record_of(t)->Ok_0;
            &&& r.penta.len() == 5
            &&& r.failures.len() == 6
            &&& r.a.len() > 0
            &&& r.b.len() > 0
            &&& r.games > 0
            &&& r.wins_a + r.draws + r.wins_b == r.games
            &&& 2 * (r.penta[0] + r.penta[1] + r.penta[2] + r.penta[3] + r.penta[4]) == r.games
        }),
{
    lemma_read_shapes(lines(t));
    law_a_record_adds_up(record_of(t)->Ok_0);
}

} // verus!
