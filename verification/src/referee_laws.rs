//! How games are refereed: what an answer names, what it may cost, what a match is planned as.
use vstd::arithmetic::power2::{lemma_pow2_pos, lemma_pow2_unfold, pow2};
use vstd::arithmetic::div_mod::{lemma_fundamental_div_mod, lemma_mod_bound, lemma_mod_multiples_vanish};
use vstd::prelude::*;

use crate::arbiter::{named_in, names, recent, tallied};
use crate::budget::{deadline_of, signed_low};
use crate::cli::{flag_at, flag_value, named_files};
use crate::native::{cost, judged, next_step, short_name, Answer, Next, Phase};
use crate::plan::{ends_in_pgn, moves_file, pairs_for};
use crate::record_laws::law_sums_add_up;
use crate::searcher::interval_of;
use crate::stats::total;
use crate::text::starts_with;

verus! {

/// An answer names a move by the squares that it leaves and reaches, the low twelve bits of its
/// word, and, where either is a promotion, by the piece. Nothing else in the word counts.
pub proof fn law_an_answer_names_squares_and_piece(m: u16, lm: u16)
    ensures
        names(m, lm) <==> {
            &&& m as int % 4096 == lm as int % 4096
            &&& (m as int / 4096 >= 8) == (lm as int / 4096 >= 8)
            &&& m as int / 4096 >= 8 ==> m as int / 4096 % 4 == lm as int / 4096 % 4
        },
{
}

/// What an answer is taken for is the first move of a list that it names, if it names any.
pub proof fn law_the_first_named_move_is_taken(list: Seq<u16>, m: u16)
    ensures
        match named_in(list, m) {
            Some(lm) => exists|i: int|
                0 <= i < list.len() && #[trigger] list[i] == lm && names(m, list[i]) && forall|
                    j: int,
                |
                    0 <= j < i ==> !names(m, #[trigger] list[j]),
            None => forall|i: int| 0 <= i < list.len() ==> !names(m, #[trigger] list[i]),
        },
    decreases list.len(),
{
    if list.len() > 0 {
        let front = list.drop_last();
        law_the_first_named_move_is_taken(front, m);
        match named_in(front, m) {
            Some(lm) => {
                let i = choose|i: int|
                    0 <= i < front.len() && #[trigger] front[i] == lm && names(m, front[i])
                        && forall|j: int| 0 <= j < i ==> !names(m, #[trigger] front[j]);
                assert(list[i] == lm);
                assert forall|j: int| 0 <= j < i implies !names(m, #[trigger] list[j]) by {
                    assert(!names(m, front[j]));
                }
            },
            None => {
                assert forall|j: int| 0 <= j < list.len() - 1 implies !names(
                    m,
                    #[trigger] list[j],
                ) by {
                    assert(!names(m, front[j]));
                }
                if names(m, list.last()) {
                    assert(list[list.len() - 1] == list.last());
                }
            },
        }
    }
}

/// What is kept of the history ends with its last hash and goes back one ply for every ply
/// since the last capture or pawn move, but not beyond the start.
pub proof fn law_recent_history_ends_at_the_present(hashes: Seq<u64>, halfmove: int, moves: nat)
    requires
        0 <= halfmove,
        hashes.len() == moves + 1,
    ensures
        halfmove <= moves ==> recent(hashes, halfmove, moves).len() == halfmove + 1,
        halfmove > moves ==> recent(hashes, halfmove, moves) == hashes,
        forall|i: int|
            0 <= i < recent(hashes, halfmove, moves).len() ==> #[trigger] recent(
                hashes,
                halfmove,
                moves,
            )[i] == hashes[hashes.len() - recent(hashes, halfmove, moves).len() + i],
{
    reveal(recent);
    if halfmove > moves {
        assert(recent(hashes, halfmove, moves) =~= hashes);
    }
}

/// What a move cost is added to what moves have cost, and a move that cost nothing measurable
/// leaves no entry.
pub proof fn law_costs_are_tallied(s: Seq<u64>, spent: u64)
    ensures
        total(tallied(s, spent)) == total(s) + spent,
        tallied(s, spent).len() == if spent == 0 {
            s.len()
        } else {
            s.len() + 1
        },
        forall|i: int| 0 <= i < s.len() ==> #[trigger] tallied(s, spent)[i] == s[i],
{
    law_sums_add_up(s, spent);
}

/// What a move cost is the difference of two readings of the counter, if both could be read and
/// the counter did not run backwards.
pub proof fn law_the_cost_is_the_difference(t0: u64, t1: u64)
    ensures
        t0 <= t1 < 0xffff_ffff_ffff_ffff ==> cost(t0, t1) == Some(t1 - t0),
        !(t0 <= t1 < 0xffff_ffff_ffff_ffff) ==> cost(t0, t1) is None,
{
}

/// An answer is let stand just when it names some move, the counter could be read and did not
/// run backwards, and the move took no more than its budget and two thousand cycles of grace.
pub proof fn law_an_answer_stands_within_budget(
    t0: u64,
    t1: u64,
    answer: u16,
    budget: u64,
    percent: Seq<char>,
)
    ensures
        judged(t0, t1, answer, budget, percent) is Move <==> answer != 0 && t0 <= t1
            < 0xffff_ffff_ffff_ffff && t1 - t0 <= budget + 2000,
        judged(t0, t1, answer, budget, percent) matches Answer::Move(m) ==> m == answer,
{
}

/// Loading goes on while the host neither reports nor ends nor runs out of time; a report
/// counts before an end, and an end before the time.
pub proof fn law_loading_ends_once(
    path: Seq<char>,
    phase: Phase,
    over: bool,
    exited: Option<i32>,
    late: bool,
)
    ensures
        next_step(path, phase, over, exited, late) is Done <==> over,
        next_step(path, phase, over, exited, late) is Gone <==> !over && exited is Some,
        next_step(path, phase, over, exited, late) is Kill <==> !over && exited is None && late,
        next_step(path, phase, over, exited, late) is Wait <==> !over && exited is None && !late,
{
}

/// The name of an engine is its file's without any leading "lib": nothing else is cut, and
/// none is left.
pub proof fn law_names_lose_every_leading_lib(stem: Seq<char>)
    ensures
        ({
            let name = short_name(stem);
            &&& name.len() <= stem.len()
            &&& (stem.len() - name.len()) % 3 == 0
            &&& name == stem.skip(stem.len() - name.len())
            &&& forall|i: int|
                0 <= i < stem.len() - name.len() ==> #[trigger] stem[i] == if i % 3 == 0 {
                    'l'
                } else if i % 3 == 1 {
                    'i'
                } else {
                    'b'
                }
            &&& !(name.len() >= 3 && name[0] == 'l' && name[1] == 'i' && name[2] == 'b')
        }),
    decreases stem.len(),
{
    if stem.len() >= 3 && stem[0] == 'l' && stem[1] == 'i' && stem[2] == 'b' {
        let rest = stem.skip(3);
        law_names_lose_every_leading_lib(rest);
        let name = short_name(stem);
        assert(name =~= stem.skip(stem.len() - name.len()));
        assert forall|i: int| 0 <= i < stem.len() - name.len() implies #[trigger] stem[i] == if i
            % 3 == 0 {
            'l'
        } else if i % 3 == 1 {
            'i'
        } else {
            'b'
        } by {
            if i >= 3 {
                assert(rest[i - 3] == stem[i]);
            }
        }
    } else {
        assert(stem.skip(0) =~= stem);
    }
}

/// Games come in pairs: as many games as were asked for, or one more where that number is odd.
pub proof fn law_games_come_in_pairs(games: nat)
    ensures
        games % 2 == 0 ==> 2 * pairs_for(games) == games,
        games % 2 == 1 ==> 2 * pairs_for(games) == games + 1,
{
}

/// The file of moves is named like the file of games, with its ending in place of ".pgn", or
/// behind the name where it ends otherwise.
pub proof fn law_moves_are_filed_beside_games(name: Seq<char>)
    ensures
        moves_file(name + ".pgn"@) == name + ".moves"@,
        !(exists|stem: Seq<char>| name == #[trigger] (stem + ".pgn"@)) ==> moves_file(name) == name
            + ".moves"@,
{
    reveal_strlit(".pgn");
    let whole = name + ".pgn"@;
    assert(whole.skip(whole.len() - 4) =~= ".pgn"@);
    assert(whole.take(whole.len() - 4) =~= name);
    if ends_in_pgn(name) {
        let stem = name.take(name.len() - 4);
        assert(name =~= stem + ".pgn"@);
    }
}

proof fn lemma_flag_at(args: Seq<String>, flag: Seq<char>, i: int)
    requires
        0 <= i <= args.len(),
    ensures
        match flag_at(args, flag, i) {
            Some(k) => i <= k < args.len() && args[k]@ == flag && forall|j: int|
                i <= j < k ==> (#[trigger] args[j])@ != flag,
            None => forall|j: int| i <= j < args.len() ==> (#[trigger] args[j])@ != flag,
        },
    decreases args.len() - i,
{
    if i < args.len() && args[i]@ != flag {
        lemma_flag_at(args, flag, i + 1);
    }
}

/// A flag has the value that follows its first occurrence. It has none where it does not
/// occur, or first occurs at the end.
pub proof fn law_a_value_follows_its_flag(args: Seq<String>, flag: Seq<char>, k: int)
    requires
        0 <= k < args.len(),
        args[k]@ == flag,
        forall|j: int| 0 <= j < k ==> (#[trigger] args[j])@ != flag,
    ensures
        k + 1 < args.len() ==> flag_value(args, flag) == Some(args[k + 1]@),
        k + 1 == args.len() ==> flag_value(args, flag) is None,
        flag_at(args, flag, 0) == Some(k),
{
    lemma_flag_at(args, flag, 0);
    let a = args[k];
}

/// A flag that does not occur has no value.
pub proof fn law_a_missing_flag_has_no_value(args: Seq<String>, flag: Seq<char>)
    requires
        forall|j: int| 0 <= j < args.len() ==> (#[trigger] args[j])@ != flag,
    ensures
        flag_value(args, flag) is None,
        flag_at(args, flag, 0) is None,
{
    lemma_flag_at(args, flag, 0);
}

/// Arguments are files, but for those that begin with two dashes and what follows each of
/// these. So one that stands behind no such argument is a file where it does not begin with
/// two dashes itself, and opens a pair that is skipped where it does.
pub proof fn law_files_are_what_is_no_flag(args: Seq<String>, n: int)
    requires
        0 <= n < args.len(),
    ensures
        ({
            let before = named_files(args, n);
            let after = named_files(args, n + 1);
            let flag = args[n]@.len() >= 2 && args[n]@[0] == '-' && args[n]@[1] == '-';
            &&& n == 0 ==> before.0.len() == 0 && !before.1
            &&& before.1 ==> after == (before.0, false)
            &&& !before.1 && flag ==> after == (before.0, true)
            &&& !before.1 && !flag ==> after == (before.0.push(args[n]@), false)
        }),
{
    reveal_strlit("--");
    let s = args[n]@;
    if s.len() >= 2 && s[0] == '-' && s[1] == '-' {
        assert(s.take(2) =~= "--"@);
    }
    if starts_with(s, "--"@) {
        assert(s.take(2)[0] == '-');
        assert(s.take(2)[1] == '-');
    }
}

/// A deadline lies the given part of the budget behind the start, to the cycle: never before
/// the start, never later than that part, and less than a cycle short of it, but that it does
/// not pass the end of the count.
pub proof fn law_a_deadline_is_part_of_the_budget(start: u64, cycles: u64, percent: u64)
    requires
        percent <= 100,
    ensures
        ({
            let d = deadline_of(start, cycles, percent);
            &&& start <= d <= u64::MAX
            &&& 100 * (d - start) <= cycles * percent
            &&& d < u64::MAX ==> cycles * percent < 100 * (d - start) + 100
        }),
{
    assert(cycles * percent >= 0) by (nonlinear_arith);
}

/// A bigger budget or a bigger part of it never makes for an earlier deadline.
pub proof fn law_more_budget_is_no_less_time(
    start: u64,
    cycles: u64,
    percent: u64,
    more: u64,
    part: u64,
)
    requires
        cycles <= more,
        percent <= part,
    ensures
        deadline_of(start, cycles, percent) <= deadline_of(start, more, part),
{
    assert(cycles * percent <= more * part) by (nonlinear_arith)
        requires
            0 <= cycles <= more,
            0 <= percent <= part,
    ;
    assert(cycles * percent / 100 <= more * part / 100);
}

/// The low bits of a counter are read as a signed number: one of that many bits, that differs
/// from the whole by a multiple of their range.
pub proof fn law_low_bits_are_signed(raw: u64, width: nat)
    requires
        1 <= width <= 64,
    ensures
        -pow2((width - 1) as nat) <= signed_low(raw, width) < pow2((width - 1) as nat),
        (raw - signed_low(raw, width)) % (pow2(width) as int) == 0,
{
    let m = pow2(width) as int;
    lemma_pow2_unfold(width);
    lemma_pow2_pos(width);
    lemma_mod_bound(raw as int, m);
    lemma_fundamental_div_mod(raw as int, m);
    let q = raw as int / m;
    lemma_mod_multiples_vanish(q, 0, m);
    lemma_mod_multiples_vanish(q + 1, 0, m);
    assert(m * (q + 1) == m * q + m) by (nonlinear_arith);
}

/// The more budget, the rarer the looks at the clock: at every node, at every fourth, at every
/// eighth.
pub proof fn law_looks_grow_rarer(budget: u64, more: u64)
    requires
        budget <= more,
    ensures
        interval_of(budget) <= interval_of(more),
        interval_of(budget) == 1 <==> budget <= 200_000,
        interval_of(budget) == 4 <==> 200_000 < budget <= 1_000_000,
        interval_of(budget) == 8 <==> budget > 1_000_000,
{
}

} // verus!
