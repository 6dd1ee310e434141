//! The running score of a match.
use vstd::prelude::*;

use crate::arbiter::GameLog;
use crate::failure::{bucket, failure_kind};
use crate::fen::position_of;
use crate::game::{Outcome, Verdict};
use crate::moves::WHITE;
use crate::native::opt_text;
use crate::notation::{move_to_uci, pgn, score_str, score_text, to_pgn, uci};
use crate::stats::{record_fault, sum, total, Penta, Record, Results};
use crate::tables::Tables;
use crate::text::{decimal, join, push_decimal};

verus! {

/// The failed games at which a match is abandoned; it takes a quarter of the games as well,
/// so that a rare fault is measured and not punished.
pub const FAILURE_CAP: u64 = 200;

/// How many failures are remembered in words.
pub const NOTES: usize = 10;

// -------------------------------------------------------------------------- one game

/// What a game is worth to White, in half points.
pub open spec fn white_points(v: Verdict) -> int {
    match v {
        Verdict::Win(c) => if c == 0 {
            2
        } else {
            0
        },
        Verdict::Forfeit(loser, _) => if loser == 0 {
            0
        } else {
            2
        },
        Verdict::Draw(_) => 1,
        Verdict::Ongoing => 1,
    }
}

/// What a game is worth to engine A.
pub open spec fn points(v: Verdict, a_is_white: bool) -> int {
    if a_is_white {
        white_points(v)
    } else {
        2 - white_points(v)
    }
}

/// What a game is worth to White, in half points.
pub fn white_score(o: Outcome) -> (r: usize)
    ensures
        r == white_points(o@),
        r <= 2,
{
    match o {
        Outcome::Win(c) => if c == WHITE {
            2
        } else {
            0
        },
        Outcome::Forfeit(loser, _) => if loser == WHITE {
            0
        } else {
            2
        },
        Outcome::Draw(_) => 1,
        Outcome::Ongoing => 1,
    }
}

/// How a game ended, in words.
pub open spec fn ending(v: Verdict) -> Seq<char> {
    match v {
        Verdict::Win(_) => "checkmate"@,
        Verdict::Draw(why) => why,
        Verdict::Forfeit(_, why) => why,
        Verdict::Ongoing => ""@,
    }
}

/// Moves as coordinates with spaces between them.
pub open spec fn uci_list(moves: Seq<u16>) -> Seq<char> {
    join(moves.map_values(|m: u16| uci(m)), " "@)
}

/// Numbers with spaces between them.
pub open spec fn spaced(s: Seq<u64>) -> Seq<char> {
    join(s.map_values(|n: u64| decimal(n as nat)), " "@)
}

/// A game for machines to replay: its score, opening, moves, costs and ending.
pub open spec fn game_line(log: GameLog) -> Seq<char> {
    score_text(log.outcome@) + "|"@ + log.opening@ + "|"@ + uci_list(log.moves@) + "|"@ + spaced(
        log.ply_cycles@,
    ) + "|"@ + ending(log.outcome@) + "\n"@
}

fn uci_string(moves: &Vec<u16>) -> (s: String)
    ensures
        s@ == uci_list(moves@),
{
    let ghost parts = moves@.map_values(|m: u16| uci(m));
    let mut s = String::new();
    let mut i: usize = 0;
    assert(s@ =~= join(parts.take(0), " "@));
    while i < moves.len()
        invariant
            i <= moves@.len(),
            parts == moves@.map_values(|m: u16| uci(m)),
            s@ == join(parts.take(i as int), " "@),
        decreases moves@.len() - i,
    {
        assert(parts.take(i + 1).drop_last() =~= parts.take(i as int));
        assert(parts.take(i + 1).last() == uci(moves@[i as int]));
        if i > 0 {
            s.append(" ");
        }
        s.append(move_to_uci(moves[i]).as_str());
        assert(s@ =~= join(parts.take(i + 1), " "@));
        i = i + 1;
    }
    assert(parts.take(i as int) =~= parts);
    s
}

fn spaced_string(v: &Vec<u64>) -> (s: String)
    ensures
        s@ == spaced(v@),
{
    let ghost parts = v@.map_values(|n: u64| decimal(n as nat));
    let mut s = String::new();
    let mut i: usize = 0;
    assert(s@ =~= join(parts.take(0), " "@));
    while i < v.len()
        invariant
            i <= v@.len(),
            parts == v@.map_values(|n: u64| decimal(n as nat)),
            s@ == join(parts.take(i as int), " "@),
        decreases v@.len() - i,
    {
        assert(parts.take(i + 1).drop_last() =~= parts.take(i as int));
        assert(parts.take(i + 1).last() == decimal(v@[i as int] as nat));
        if i > 0 {
            s.append(" ");
        }
        push_decimal(&mut s, v[i] as u128);
        assert(s@ =~= join(parts.take(i + 1), " "@));
        i = i + 1;
    }
    assert(parts.take(i as int) =~= parts);
    s
}

fn line_string(log: &GameLog) -> (s: String)
    ensures
        s@ == game_line(*log),
{
    let ended = match log.outcome {
        Outcome::Win(_) => "checkmate",
        Outcome::Draw(why) => why,
        Outcome::Forfeit(_, why) => why,
        Outcome::Ongoing => "",
    };
    let mut s = score_str(log.outcome).to_owned();
    s.append("|");
    s.append(log.opening.as_str());
    s.append("|");
    s.append(uci_string(&log.moves).as_str());
    s.append("|");
    s.append(spaced_string(&log.ply_cycles).as_str());
    s.append("|");
    s.append(ended);
    s.append("\n");
    s
}

proof fn lemma_total_grows(s: Seq<u64>, i: int)
    requires
        0 <= i <= s.len(),
    ensures
        0 <= total(s.take(i)) <= total(s),
    decreases s.len() - i,
{
    if i == s.len() {
        assert(s.take(i) =~= s);
        lemma_total_positive(s);
    } else {
        lemma_total_grows(s, i + 1);
        assert(s.take(i + 1).drop_last() =~= s.take(i));
        lemma_total_positive(s.take(i));
    }
}

proof fn lemma_total_positive(s: Seq<u64>)
    ensures
        0 <= total(s),
    decreases s.len(),
{
    if s.len() > 0 {
        lemma_total_positive(s.drop_last());
    }
}

fn sum_of(v: &Vec<u64>) -> (n: u64)
    requires
        total(v@) <= u64::MAX,
    ensures
        n == total(v@),
{
    let mut n: u64 = 0;
    let mut i: usize = 0;
    assert(v@.take(0) =~= Seq::<u64>::empty());
    while i < v.len()
        invariant
            i <= v@.len(),
            total(v@) <= u64::MAX,
            n == total(v@.take(i as int)),
        decreases v@.len() - i,
    {
        proof {
            lemma_total_grows(v@, i + 1);
            assert(v@.take(i + 1).drop_last() =~= v@.take(i as int));
        }
        n = n + v[i];
        i = i + 1;
    }
    assert(v@.take(i as int) =~= v@);
    n
}

// -------------------------------------------------------------------------- the match

/// The running score of a match.
pub struct Tally {
    pub penta: Penta,
    pub wins_a: u64,
    pub draws: u64,
    pub wins_b: u64,
    pub plies: u64,
    pub games: u64,
    pub cycles: u64,
    pub moves: u64,
    pub notes: Vec<String>,
    pub pgn: Vec<String>,
    /// One line for each game, for machines to replay.
    pub game_lines: Vec<String>,
    /// By bucket.
    pub failures: [u64; 6],
}

/// The texts of some strings.
pub open spec fn strings(v: Seq<String>) -> Seq<Seq<char>> {
    v.map_values(|s: String| s@)
}

impl Tally {
    pub fn new() -> (t: Tally)
        ensures
            t.whole(),
            t.games == 0,
            t.plies == 0,
            t.cycles == 0,
            t.moves == 0,
            t.penta.counts@ == seq![0u64, 0, 0, 0, 0],
            t.failures@ == seq![0u64, 0, 0, 0, 0, 0],
            t.notes@ == Seq::<String>::empty(),
            t.pgn@ == Seq::<String>::empty(),
            t.game_lines@ == Seq::<String>::empty(),
    {
        let t = Tally {
            penta: Penta::new(),
            wins_a: 0,
            draws: 0,
            wins_b: 0,
            plies: 0,
            games: 0,
            cycles: 0,
            moves: 0,
            notes: Vec::new(),
            pgn: Vec::new(),
            game_lines: Vec::new(),
            failures: [0, 0, 0, 0, 0, 0],
        };
        proof {
            reveal_with_fuel(total, 6);
            assert(t.failures@ =~= seq![0u64, 0, 0, 0, 0, 0]);
        }
        t
    }

    /// Wins, draws and losses add up to the games.
    pub open spec fn even(&self) -> bool {
        self.wins_a + self.draws + self.wins_b == self.games
    }

    /// A score of whole pairs: besides, every game belongs to a counted pair.
    pub open spec fn whole(&self) -> bool {
        self.even() && 2 * total(self.penta.counts@) == self.games
    }

    /// Whether the counters can take another game.
    pub open spec fn room_for(&self, log: GameLog) -> bool {
        &&& self.wins_a < u64::MAX
        &&& self.draws < u64::MAX
        &&& self.wins_b < u64::MAX
        &&& self.games < u64::MAX
        &&& self.plies + log.plies <= u64::MAX
        &&& self.cycles + total(log.cycles@[0]@) + total(log.cycles@[1]@) <= u64::MAX
        &&& self.moves + log.cycles@[0]@.len() + log.cycles@[1]@.len() <= u64::MAX
        &&& forall|k: int| 0 <= k < 6 ==> #[trigger] self.failures@[k] < u64::MAX
    }
}

/// How the score grows by a game that is worth `p` half points to A.
pub open spec fn scored(before: Tally, after: Tally, p: int) -> bool {
    &&& after.wins_a == before.wins_a + if p == 2 {
        1int
    } else {
        0int
    }
    &&& after.wins_b == before.wins_b + if p == 0 {
        1int
    } else {
        0int
    }
    &&& after.draws == before.draws + if p == 1 {
        1int
    } else {
        0int
    }
    &&& after.games == before.games + 1
}

/// How the failures grow by a game that left this note.
pub open spec fn noted(before: Tally, after: Tally, note: Option<Seq<char>>) -> bool {
    match note {
        None => after.failures == before.failures && after.notes == before.notes,
        Some(n) => {
            &&& after.failures@ == before.failures@.update(
                bucket(n),
                (before.failures@[bucket(n)] + 1) as u64,
            )
            &&& strings(after.notes@) == if before.notes@.len() < NOTES {
                strings(before.notes@).push(n)
            } else {
                strings(before.notes@)
            }
        },
    }
}

/// The texts of who had White and Black, and in which round.
pub open spec fn names_of(players: Option<(&str, &str, usize)>) -> Option<
    (Seq<char>, Seq<char>, nat),
> {
    match players {
        None => None,
        Some((white, black, round)) => Some((white@, black@, round as nat)),
    }
}

/// How the score grows by a game. With players, the game itself is kept as well.
pub open spec fn absorbed(
    before: Tally,
    after: Tally,
    log: GameLog,
    a_is_white: bool,
    players: Option<(Seq<char>, Seq<char>, nat)>,
) -> bool {
    &&& scored(before, after, points(log.outcome@, a_is_white))
    &&& noted(before, after, opt_text(log.note))
    &&& after.plies == before.plies + log.plies
    &&& after.cycles == before.cycles + total(log.cycles@[0]@) + total(log.cycles@[1]@)
    &&& after.moves == before.moves + log.cycles@[0]@.len() + log.cycles@[1]@.len()
    &&& after.penta == before.penta
    &&& match players {
        None => after.pgn == before.pgn && after.game_lines == before.game_lines,
        Some((white, black, round)) => {
            &&& strings(after.pgn@) == strings(before.pgn@).push(
                pgn(
                    position_of(log.opening@)->Ok_0,
                    log.opening@,
                    log.moves@,
                    white,
                    black,
                    log.outcome@,
                    round,
                ),
            )
            &&& strings(after.game_lines@) == strings(before.game_lines@).push(game_line(log))
        },
    }
}

/// Adds a game to the score: what it is worth to A, in half points. With `players`, who had
/// White, who had Black and in which round, the game itself is kept as well.
pub fn absorb(
    t: &mut Tally,
    tables: &Tables,
    log: &GameLog,
    a_is_white: bool,
    players: Option<(&str, &str, usize)>,
) -> (p: usize)
    requires
        tables.wf(),
        players is Some ==> log.wf(),
        old(t).room_for(*log),
    ensures
        p == points(log.outcome@, a_is_white),
        p <= 2,
        absorbed(*old(t), *final(t), *log, a_is_white, names_of(players)),
        old(t).even() ==> final(t).even(),
        old(t).notes@.len() <= NOTES ==> final(t).notes@.len() <= NOTES,
{
    proof {
        lemma_total_positive(log.cycles@[0]@);
        lemma_total_positive(log.cycles@[1]@);
    }
    match players {
        None => {},
        Some((white, black, round)) => {
            let ghost was = t.pgn@;
            let game = to_pgn(
                tables,
                log.opening.as_str(),
                log.moves.as_slice(),
                white,
                black,
                log.outcome,
                round,
            );
            let ghost text = game@;
            t.pgn.push(game);
            assert(strings(t.pgn@) =~= strings(was).push(text));
            let ghost was = t.game_lines@;
            let line = line_string(log);
            let ghost text = line@;
            t.game_lines.push(line);
            assert(strings(t.game_lines@) =~= strings(was).push(text));
        },
    }
    let w = white_score(log.outcome);
    let p = if a_is_white {
        w
    } else {
        2 - w
    };
    if p == 2 {
        t.wins_a = t.wins_a + 1;
    } else if p == 0 {
        t.wins_b = t.wins_b + 1;
    } else {
        t.draws = t.draws + 1;
    }
    t.plies = t.plies + log.plies as u64;
    t.games = t.games + 1;
    t.cycles = t.cycles + sum_of(&log.cycles[0]);
    t.moves = t.moves + log.cycles[0].len() as u64;
    t.cycles = t.cycles + sum_of(&log.cycles[1]);
    t.moves = t.moves + log.cycles[1].len() as u64;
    match &log.note {
        None => {},
        Some(n) => {
            let k = failure_kind(n.as_str());
            assert(t.failures@[k as int] < u64::MAX);
            t.failures[k] = t.failures[k] + 1;
            assert(t.failures@ =~= old(t).failures@.update(
                k as int,
                (old(t).failures@[k as int] + 1) as u64,
            ));
            if t.notes.len() < NOTES {
                let ghost was = t.notes@;
                let copy = n.clone();
                let ghost text = copy@;
                t.notes.push(copy);
                assert(strings(t.notes@) =~= strings(was).push(text));
            }
        },
    }
    p
}

/// A game is worth to A what it is worth to White, or the rest of the point to Black. It is
/// counted once, so that wins, draws and losses still add up to the games. It adds one failure,
/// of its kind, exactly when it left a note, and no more failures are put in words than there
/// is room for. Pairs are counted elsewhere.
pub proof fn law_a_game_is_counted_once(
    before: Tally,
    after: Tally,
    log: GameLog,
    a_is_white: bool,
    players: Option<(Seq<char>, Seq<char>, nat)>,
)
    requires
        absorbed(before, after, log, a_is_white, players),
        before.even(),
        before.notes@.len() <= NOTES,
        forall|k: int| 0 <= k < 6 ==> #[trigger] before.failures@[k] < u64::MAX,
    ensures
        points(log.outcome@, true) + points(log.outcome@, false) == 2,
        after.even(),
        after.games == before.games + 1,
        forall|k: int|
            0 <= k < 6 ==> #[trigger] after.failures@[k] == before.failures@[k] + if opt_text(
                log.note,
            ) is Some && k == bucket(opt_text(log.note)->0) {
                1int
            } else {
                0
            },
        after.notes@.len() <= NOTES,
        after.penta == before.penta,
{
    assert(strings(after.notes@).len() == after.notes@.len());
    assert(strings(before.notes@).len() == before.notes@.len());
    assert forall|k: int| 0 <= k < 6 implies #[trigger] after.failures@[k] == before.failures@[k]
        + if opt_text(log.note) is Some && k == bucket(opt_text(log.note)->0) {
        1int
    } else {
        0
    } by {
        assert(before.failures@[k] < u64::MAX);
    }
}

pub proof fn lemma_total_update(s: Seq<u64>, i: int)
    requires
        0 <= i < s.len(),
        s[i] < u64::MAX,
    ensures
        total(s.update(i, (s[i] + 1) as u64)) == total(s) + 1,
    decreases s.len(),
{
    let u = s.update(i, (s[i] + 1) as u64);
    if i == s.len() - 1 {
        assert(u.drop_last() =~= s.drop_last());
    } else {
        lemma_total_update(s.drop_last(), i);
        assert(u.drop_last() =~= s.drop_last().update(i, (s[i] + 1) as u64));
    }
}

/// Counts a pair once both its games are in: the first with A as White, the second with the
/// colours reversed. After it the score is one of whole pairs again.
pub fn close_pair(t: &mut Tally, first: usize, second: usize)
    requires
        first <= 2,
        second <= 2,
        forall|i: int| 0 <= i < 5 ==> #[trigger] old(t).penta.counts@[i] < u64::MAX,
    ensures
        final(t).penta.counts@ == old(t).penta.counts@.update(
            first + second,
            (old(t).penta.counts@[first + second] + 1) as u64,
        ),
        final(t).wins_a == old(t).wins_a,
        final(t).draws == old(t).draws,
        final(t).wins_b == old(t).wins_b,
        final(t).plies == old(t).plies,
        final(t).games == old(t).games,
        final(t).cycles == old(t).cycles,
        final(t).moves == old(t).moves,
        final(t).notes == old(t).notes,
        final(t).pgn == old(t).pgn,
        final(t).game_lines == old(t).game_lines,
        final(t).failures == old(t).failures,
        total(final(t).penta.counts@) == total(old(t).penta.counts@) + 1,
        old(t).even() && 2 * total(old(t).penta.counts@) + 2 == old(t).games ==> final(t).whole(),
{
    assert(t.penta.counts@[first + second] < u64::MAX);
    proof {
        lemma_total_update(t.penta.counts@, first + second);
    }
    t.penta.add(first + second);
}

/// Whether so many failures end a match: a quarter of its games, and the cap at least.
pub open spec fn unplayable(t: Tally) -> bool {
    total(t.failures@) >= FAILURE_CAP && total(t.failures@) * 4 >= t.games
}

/// Whether the match is to be abandoned: an engine that fails constantly should not spend
/// hours proving it.
pub fn should_stop(t: &Tally) -> (r: bool)
    ensures
        r == unplayable(*t),
{
    let failed = sum(&t.failures);
    proof {
        lemma_failures_bound(t.failures@, 6);
    }
    failed >= FAILURE_CAP as u128 && failed * 4 >= t.games as u128
}

proof fn lemma_failures_bound(s: Seq<u64>, n: nat)
    requires
        s.len() <= n,
    ensures
        0 <= total(s) <= s.len() * u64::MAX,
    decreases s.len(),
{
    if s.len() > 0 {
        lemma_failures_bound(s.drop_last(), n);
        assert(s.len() * u64::MAX == (s.len() - 1) * u64::MAX + u64::MAX) by (nonlinear_arith);
    }
}

/// The results of a match so far. A score of whole pairs makes results that are accepted
/// when they are read.
pub fn results(t: &Tally, a: &str, b: &str, ca: u64, cb: u64, book: u64) -> (r: Results)
    ensures
        r@ == (Record {
            a: a@,
            b: b@,
            cycles_a: ca,
            cycles_b: cb,
            book,
            penta: t.penta.counts@,
            wins_a: t.wins_a,
            draws: t.draws,
            wins_b: t.wins_b,
            plies: t.plies,
            games: t.games,
            cycles_sum: t.cycles,
            cycles_n: t.moves,
            failures: t.failures@,
        }),
        t.whole() && t.games > 0 && a@.len() > 0 && b@.len() > 0 ==> record_fault(r@) is None,
{
    Results {
        a: a.to_owned(),
        b: b.to_owned(),
        cycles_a: ca,
        cycles_b: cb,
        book,
        penta: t.penta,
        wins_a: t.wins_a,
        draws: t.draws,
        wins_b: t.wins_b,
        plies: t.plies,
        games: t.games,
        cycles_sum: t.cycles,
        cycles_n: t.moves,
        failures: t.failures,
    }
}

} // verus!
