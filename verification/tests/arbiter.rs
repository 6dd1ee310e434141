use hfc::arbiter::{find_named, Arbiter, Rules, Turn};
use hfc::board::Board;
use hfc::contest::{Match, Step, Task};
use hfc::game::Outcome;
use hfc::native::MoveOut;
use hfc::notation::move_to_uci;
use hfc::tables::{init_tables, Tables};
use hfc::tally::{absorb, close_pair, results, should_stop, white_score, Tally};

const START: &str = "rnbqkbnr/pppppppp/8/8/8/8/PPPPPPPP/RNBQKBNR w KQkq - 0 1";
const RULES: Rules = Rules { move_cycles: [150_000, 150_000], max_plies: 400 };

fn word(t: &Tables, b: &Board, uci: &str) -> u16 {
    *b.legal_moves(t).iter().find(|&&m| move_to_uci(m) == uci).expect("a legal move")
}

/// Plays `moves` for both sides, each costing its ply number, until the game is over.
fn play(t: &Tables, opening: &str, rules: &Rules, moves: &[&str]) -> hfc::arbiter::GameLog {
    let mut a = Arbiter::new(t, opening, rules);
    let mut ply = 0;
    let outcome = loop {
        let side = match a.next(t) {
            Turn::Over(o) => break o,
            Turn::Ask(c) => c,
        };
        assert!(a.history.len() <= 100);
        let name = ["white", "black"][side];
        let m = word(t, &a.game.board, moves[ply % moves.len()]);
        ply += 1;
        // Only the squares and the promotion piece are read.
        if let Some(o) = a.reply(name, MoveOut::Move(m & 0x8fff | m & 0x3000), ply as u64) {
            break o;
        }
    };
    a.into_log(outcome)
}

#[test]
fn a_game_is_played_to_mate() {
    let t = init_tables();
    let log = play(&t, START, &RULES, &["f2f3", "e7e5", "g2g4", "d8h4"]);
    assert_eq!(log.outcome, Outcome::Win(1));
    assert_eq!(log.plies, 4);
    assert_eq!(log.cycles, [vec![1, 3], vec![2, 4]]);
    assert_eq!(log.ply_cycles, vec![1, 2, 3, 4]);
    assert_eq!(log.note, None);
    assert_eq!(log.opening, START);
}

#[test]
fn repetitions_and_length_draw() {
    let t = init_tables();
    let shuffle = ["g1f3", "g8f6", "f3g1", "f6g8"];
    let log = play(&t, START, &RULES, &shuffle);
    assert_eq!(log.outcome, Outcome::Draw("threefold repetition"));
    assert_eq!(log.plies, 8);
    let short = Rules { move_cycles: [1, 1], max_plies: 3 };
    let log = play(&t, START, &short, &shuffle);
    assert_eq!(log.outcome, Outcome::Draw("move limit"));
    assert_eq!(log.plies, 3);
}

#[test]
fn the_history_starts_over_after_a_capture() {
    let t = init_tables();
    let mut a = Arbiter::new(&t, "4k3/8/8/3p4/8/8/3R4/4K3 w - - 7 1", &RULES);
    for uci in ["d2c2", "e8d8", "c2d2", "d8e8"] {
        assert!(matches!(a.next(&t), Turn::Ask(_)));
        let m = word(&t, &a.game.board, uci);
        assert_eq!(a.reply("e", MoveOut::Move(m), 0), None);
    }
    assert_eq!(a.history, a.game.history);
    assert_eq!(a.history.len(), 5);
    // A position recurs as long as nothing is taken.
    assert_eq!(a.history[0], a.history[4]);
    assert!(matches!(a.next(&t), Turn::Ask(0)));
    let m = word(&t, &a.game.board, "d2d5");
    assert_eq!(a.reply("e", MoveOut::Move(m), 0), None);
    assert_eq!(a.history, vec![a.game.board.hash()]);
    assert_eq!(a.game.history.len(), 6);
    assert!(!a.game.history[..5].contains(&a.history[0]));
    // Nothing was measured.
    assert!(a.ply_cycles.is_empty());
}

#[test]
fn an_illegal_move_forfeits() {
    let t = init_tables();
    let mut a = Arbiter::new(&t, START, &RULES);
    assert!(matches!(a.next(&t), Turn::Ask(0)));
    let o = a.reply("faulty", MoveOut::Move(0xffff), 12);
    assert_eq!(o, Some(Outcome::Forfeit(0, "illegal move")));
    assert_eq!(
        a.note.as_deref(),
        Some(
            "faulty played illegal move h8h8q (0xffff) in position \
             rnbqkbnr/pppppppp/8/8/8/8/PPPPPPPP/RNBQKBNR w KQkq - 0 1"
        )
    );
    assert_eq!(a.cycles_white, vec![12]);
    let mut b = Arbiter::new(&t, START, &RULES);
    b.next(&t);
    b.reply("x", MoveOut::Move(5), 0);
    assert!(b.note.unwrap().starts_with("x played illegal move f1a1 (0x0005) in position "));
}

#[test]
fn a_failing_engine_forfeits() {
    let t = init_tables();
    let mut a = Arbiter::new(&t, START, &RULES);
    a.next(&t);
    let o = a.reply("e", MoveOut::Forfeit("returned move 0 (no move chosen)".to_string()), 0);
    assert_eq!(o, Some(Outcome::Forfeit(0, "engine failure")));
    assert_eq!(a.note.as_deref(), Some("e: returned move 0 (no move chosen)"));
}

#[test]
fn answers_name_moves_by_their_parts() {
    let t = init_tables();
    let b = Board::from_fen(&t, START);
    let legal = b.legal_moves(&t);
    // e2e4 without the flag of a double push.
    let named = find_named(&legal, 12 | 28 << 6).unwrap();
    assert_eq!(move_to_uci(named), "e2e4");
    assert_ne!(named, 12 | 28 << 6);
    for &m in &legal {
        assert_eq!(find_named(&legal, m), Some(m));
    }
    assert_eq!(find_named(&legal, 12 | 36 << 6), None);
    // A promotion is not named without its piece.
    let p = Board::from_fen(&t, "8/P6k/8/8/8/8/7K/8 w - - 0 1").legal_moves(&t);
    assert_eq!(find_named(&p, 48 | 56 << 6), None);
    assert_eq!(move_to_uci(find_named(&p, 48 | 56 << 6 | 15 << 12).unwrap()), "a7a8q");
}

#[test]
fn half_points() {
    assert_eq!(white_score(Outcome::Win(0)), 2);
    assert_eq!(white_score(Outcome::Win(1)), 0);
    assert_eq!(white_score(Outcome::Draw("x")), 1);
    assert_eq!(white_score(Outcome::Ongoing), 1);
    assert_eq!(white_score(Outcome::Forfeit(0, "x")), 0);
    assert_eq!(white_score(Outcome::Forfeit(1, "x")), 2);
}

#[test]
fn a_pair_of_games_is_tallied() {
    let t = init_tables();
    let mut tally = Tally::new();
    let mate = play(&t, START, &RULES, &["f2f3", "e7e5", "g2g4", "d8h4"]);
    let first = absorb(&mut tally, &t, &mate, true, Some(("a", "b", 1)));
    assert_eq!(first, 0);
    let mut lost = play(&t, START, &RULES, &["g1f3", "g8f6", "f3g1", "f6g8"]);
    lost.outcome = Outcome::Forfeit(0, "engine failure");
    lost.note = Some("b hung: no reply within 5000ms".to_string());
    let second = absorb(&mut tally, &t, &lost, false, Some(("b", "a", 1)));
    assert_eq!(second, 2);
    close_pair(&mut tally, first, second);
    assert_eq!(tally.penta.counts, [0, 0, 1, 0, 0]);
    assert_eq!((tally.wins_a, tally.draws, tally.wins_b, tally.games), (1, 0, 1, 2));
    assert_eq!(tally.plies, 12);
    assert_eq!(tally.cycles, 10 + 36);
    assert_eq!(tally.moves, 12);
    assert_eq!(tally.failures, [0, 1, 0, 0, 0, 0]);
    assert_eq!(tally.notes, vec!["b hung: no reply within 5000ms".to_string()]);
    assert_eq!(
        tally.game_lines[0],
        format!("0-1|{START}|f2f3 e7e5 g2g4 d8h4|1 2 3 4|checkmate\n")
    );
    assert!(tally.game_lines[1].ends_with("|1 2 3 4 5 6 7 8|engine failure\n"));
    assert!(tally.pgn[0].contains("[White \"a\"]\n[Black \"b\"]"));
    let r = results(&tally, "a", "b", 1, 2, 3);
    assert_eq!(r.games, 2);
    assert_eq!((r.cycles_sum, r.cycles_n), (46, 12));
    assert!(hfc::stats::Results::from_text(&r.to_text()).is_ok());
}

#[test]
fn only_constant_failure_stops_a_match() {
    let mut tally = Tally::new();
    tally.failures = [199, 0, 0, 0, 0, 0];
    tally.games = 199;
    assert!(!should_stop(&tally));
    tally.failures[5] = 1;
    tally.games = 200;
    assert!(should_stop(&tally));
    tally.games = 800;
    assert!(should_stop(&tally));
    tally.games = 801;
    assert!(!should_stop(&tally));
}

#[test]
fn only_the_first_failures_are_kept_in_words() {
    let t = init_tables();
    let mut tally = Tally::new();
    let mut log = play(&t, START, &RULES, &["f2f3", "e7e5", "g2g4", "d8h4"]);
    log.note = Some("x crashed with signal 9".to_string());
    for _ in 0..12 {
        absorb(&mut tally, &t, &log, true, None);
    }
    assert_eq!(tally.notes.len(), 10);
    assert_eq!(tally.failures, [12, 0, 0, 0, 0, 0]);
    assert_eq!((tally.wins_a, tally.draws, tally.wins_b, tally.games), (0, 0, 12, 12));
    assert!(tally.pgn.is_empty() && tally.game_lines.is_empty());
}

#[test]
fn matches_run_in_pairs() {
    let t = init_tables();
    let mate = play(&t, START, &RULES, &["f2f3", "e7e5", "g2g4", "d8h4"]);
    let mut m = Match::new(2);
    assert!(matches!(m.task(), Task::Play(0, true)));
    assert!(matches!(m.record(&t, &mate, Some(("a", "b"))), Step::Half));
    assert_eq!(m.first, Some(0));
    assert!(matches!(m.task(), Task::Play(0, false)));
    assert!(matches!(m.record(&t, &mate, Some(("a", "b"))), Step::Pair(false)));
    assert!(m.tally.pgn[1].contains("[Round \"1\"]\n[White \"b\"]\n[Black \"a\"]"));
    assert_eq!(m.tally.penta.counts, [0, 0, 1, 0, 0]);
    assert!(matches!(m.task(), Task::Play(1, true)));
    m.record(&t, &mate, None);
    assert!(matches!(m.record(&t, &mate, None), Step::Pair(true)));
    assert!(matches!(m.task(), Task::Over));
    assert_eq!((m.tally.wins_a, m.tally.wins_b, m.tally.games), (2, 2, 4));
    assert!(matches!(Match::new(0).task(), Task::Over));
}

#[test]
fn unplayable_engines_end_a_match() {
    let t = init_tables();
    let mut bad = play(&t, START, &RULES, &["f2f3", "e7e5", "g2g4", "d8h4"]);
    bad.note = Some("x hung: no reply within 5000ms".to_string());
    let mut m = Match::new(200);
    let mut games = 0;
    while let Task::Play(..) = m.task() {
        games += 1;
        let p = m.record(&t, &bad, None);
        assert_eq!(matches!(p, Step::Stopped), m.stopped);
    }
    // The cap is reached with the hundredth pair.
    assert_eq!(games, 200);
    assert!(m.stopped && m.done == 100);
}
