use hfc::board::Board;
use hfc::budget::{counter_value, shared_len, Budget, Clock};
use hfc::evaluation::eval;
use hfc::example;
use hfc::moves::{mv_from, mv_to};
use hfc::notation::move_to_uci;
use hfc::ordering::order;
use hfc::random;
use hfc::reference::Player;
use hfc::searcher::{check_interval, Searcher};
use hfc::tables::init_tables;
use std::cell::Cell;

const START: &str = "rnbqkbnr/pppppppp/8/8/8/8/PPPPPPPP/RNBQKBNR w KQkq - 0 1";

#[test]
fn evaluation_is_material_and_placement() {
    let t = init_tables();
    let e = |f: &str| eval(&Board::from_fen(&t, f));
    assert_eq!(e(START), 0);
    // A pawn from e2 (-20) to e4 (20), seen by Black.
    assert_eq!(e("rnbqkbnr/pppppppp/8/8/4P3/8/PPPP1PPP/RNBQKBNR b KQkq - 0 1"), -40);
    // A knight on a corner: 320 - 50, the kings cancel.
    assert_eq!(e("4k3/8/8/8/8/8/8/N3K3 w - - 0 1"), 270);
    assert_eq!(e("4k3/8/8/8/8/8/8/N3K3 b - - 0 1"), -270);
    assert_eq!(e("n3k3/8/8/8/8/8/8/4K3 b - - 0 1"), 270);
}

#[test]
fn captures_are_tried_before_quiet_moves() {
    let t = init_tables();
    let b = Board::from_fen(&t, "4k3/8/8/3q4/4P3/8/3R4/4K3 w - - 0 1");
    let moves = order(&b, &b.legal_moves(&t));
    // The pawn takes the queen before the rook does: 10000 + 9000 - 100 and - 500.
    assert_eq!(move_to_uci(moves[0]), "e4d5");
    assert_eq!(move_to_uci(moves[1]), "d2d5");
    // The rest keeps its order.
    let quiet: Vec<u16> =
        b.legal_moves(&t).into_iter().filter(|m| !moves[..2].contains(m)).collect();
    assert_eq!(moves[2..].to_vec(), quiet);
}

#[test]
fn promotions_are_tried_early() {
    let t = init_tables();
    let b = Board::from_fen(&t, "8/P6k/8/8/8/8/7K/8 w - - 0 1");
    let moves = order(&b, &b.legal_moves(&t));
    assert_eq!(move_to_uci(moves[0]), "a7a8n");
    assert_eq!(move_to_uci(moves[3]), "a7a8q");
}

#[test]
fn quiet_search_plays_captures_out() {
    let t = init_tables();
    let mut b = Board::from_fen(&t, "4k3/8/8/3q4/4P3/8/8/4K3 w - - 0 1");
    let mut s = Searcher::new();
    let v = s.qsearch(&t, &mut Clock::new(|| 0), &mut b, -60000, 60000);
    // Taking the queen leaves a pawn on d5 (25) and nothing to take it.
    assert_eq!(v, 125);
    assert!(!s.aborted && s.nodes > 1);
    assert_eq!(b.to_fen(), "4k3/8/8/3q4/4P3/8/8/4K3 w - - 0 1");
    // Brought into a window.
    assert_eq!(Searcher::new().qsearch(&t, &mut Clock::new(|| 0), &mut b, -60000, 100), 100);
    assert_eq!(Searcher::new().qsearch(&t, &mut Clock::new(|| 0), &mut b, 300, 400), 300);
}

#[test]
fn looking_ahead_finds_mate_and_stalemate() {
    let t = init_tables();
    let mut mated = Board::from_fen(&t, "7k/6Q1/6K1/8/8/8/8/8 b - - 0 1");
    assert_eq!(Searcher::new().alphabeta(&t, &mut Clock::new(|| 0), &mut mated, 1, -60000, 60000, 3), -29997);
    let mut stale = Board::from_fen(&t, "7k/5Q2/6K1/8/8/8/8/8 b - - 0 1");
    assert_eq!(Searcher::new().alphabeta(&t, &mut Clock::new(|| 0), &mut stale, 1, -60000, 60000, 3), 0);
    let mut b = Board::from_fen(&t, "6k1/5ppp/8/8/8/8/8/R3K3 w - - 0 1");
    let reps: Vec<(u16, usize)> = b.legal_moves(&t).into_iter().map(|m| (m, 0)).collect();
    let (m, v) = Searcher::new().search_root(&t, &mut Clock::new(|| 0), &mut b, 2, &reps);
    assert_eq!(move_to_uci(m), "a1a8");
    assert_eq!(v, 29999);
}

#[test]
fn a_third_occurrence_is_worth_nothing() {
    let t = init_tables();
    let mut b = Board::from_fen(&t, "6k1/5ppp/8/8/8/8/8/R3K3 w - - 0 1");
    let reps: Vec<(u16, usize)> = b.legal_moves(&t).into_iter().map(|m| (m, 2)).collect();
    let (m, v) = Searcher::new().search_root(&t, &mut Clock::new(|| 0), &mut b, 2, &reps);
    assert_eq!((m, v), (reps[0].0, 0));
    // Third occurrences are not searched: no node, and no look at the clock.
    let mut s = Searcher::until(0, 1);
    let looks = Cell::new(0);
    let mut clock = Clock::new(|| {
        looks.set(looks.get() + 1);
        9
    });
    assert_eq!(s.search_root(&t, &mut clock, &mut b, 2, &reps), (reps[0].0, 0));
    assert_eq!((s.nodes, s.aborted, looks.get()), (0, false, 0));
    assert_eq!(Searcher::new().search_root(&t, &mut Clock::new(|| 0), &mut b, 2, &Vec::new()), (0, -60000));
}

#[test]
fn a_search_out_of_time_says_so() {
    let t = init_tables();
    let mut b = Board::from_fen(&t, START);
    let mut s = Searcher::until(10, 1);
    let ticks = Cell::new(0u64);
    let r = &ticks;
    let now = move || {
        r.set(r.get() + 1);
        r.get()
    };
    s.alphabeta(&t, &mut Clock::new(now), &mut b, 4, -60000, 60000, 0);
    assert!(s.aborted);
    assert_eq!(b.to_fen(), START);
}

#[test]
fn a_search_looks_at_the_clock_on_time() {
    let t = init_tables();
    let fen = "4k3/8/8/3q4/4P3/8/8/4K3 w - - 0 1";
    let mut b = Board::from_fen(&t, fen);
    // Without a stop: this many nodes.
    let mut free = Searcher::new();
    free.alphabeta(&t, &mut Clock::new(|| 0), &mut b, 3, -60000, 60000, 0);
    for interval in [1, 3, 7] {
        let looks = Cell::new(0);
        let mut clock = Clock::new(|| {
            looks.set(looks.get() + 1);
            looks.get()
        });
        // Early throughout: every look that is due, and every node.
        let mut s = Searcher::until(u64::MAX, interval);
        s.alphabeta(&t, &mut clock, &mut b, 3, -60000, 60000, 0);
        assert_eq!((s.nodes, s.aborted), (free.nodes, false));
        assert_eq!(looks.get(), free.nodes / interval as u64);
        assert_eq!(s.check as u64, free.nodes % interval as u64);
        // Late at the third look: that look is the last.
        looks.set(0);
        let mut s = Searcher::until(3, interval);
        s.alphabeta(&t, &mut clock, &mut b, 3, -60000, 60000, 0);
        assert!(s.aborted);
        assert_eq!(looks.get(), 3);
        // Aborted once, it stops at the first node and looks no more.
        let before = s.nodes;
        assert_eq!(s.alphabeta(&t, &mut clock, &mut b, 3, -5, 60000, 0), -5);
        assert_eq!(s.qsearch(&t, &mut clock, &mut b, -7, 60000), -7);
        assert_eq!((s.nodes, looks.get()), (before + 2, 3));
    }
    assert_eq!(b.to_fen(), fen);
}

#[test]
fn cutoffs_return_the_bound() {
    let t = init_tables();
    let mut b = Board::from_fen(&t, "4k3/8/8/3q4/4P3/8/8/4K3 w - - 0 1");
    let mut s = Searcher::new();
    let v = s.alphabeta(&t, &mut Clock::new(|| 0), &mut b, 1, -60000, 60000, 0);
    assert_eq!(s.alphabeta(&t, &mut Clock::new(|| 0), &mut b, 1, v - 50, v - 10, 0), v - 10);
    assert_eq!(s.alphabeta(&t, &mut Clock::new(|| 0), &mut b, 1, v + 10, v + 50, 0), v + 10);
    // A mate on the spot is not brought into the window.
    let mut mated = Board::from_fen(&t, "7k/6Q1/6K1/8/8/8/8/8 b - - 0 1");
    assert_eq!(s.alphabeta(&t, &mut Clock::new(|| 0), &mut mated, 1, -10, 10, 3), -29997);
}

#[test]
fn windows_may_be_as_wide_as_numbers_go() {
    let t = init_tables();
    let mut b = Board::from_fen(&t, "4k3/8/8/3q4/4P3/8/8/4K3 w - - 0 1");
    let (lo, hi) = (i32::MIN + 1, i32::MAX);
    let mut s = Searcher::new();
    let quiet = s.qsearch(&t, &mut Clock::new(|| 0), &mut b, lo, hi);
    assert_eq!(quiet, 125);
    assert_eq!(s.alphabeta(&t, &mut Clock::new(|| 0), &mut b, -5, lo, hi, 9), quiet);
    let mut mated = Board::from_fen(&t, "7k/6Q1/6K1/8/8/8/8/8 b - - 0 1");
    let far = i32::MAX as usize - 1;
    let v = s.alphabeta(&t, &mut Clock::new(|| 0), &mut mated, 1, lo, hi, far);
    assert_eq!(v, i32::MAX - 1 - 30_000);
}

#[test]
fn a_root_without_depth_plays_captures_out() {
    let t = init_tables();
    let mut b = Board::from_fen(&t, "4k3/8/8/3q4/4P3/8/8/4K3 w - - 0 1");
    let reps: Vec<(u16, usize)> = b.legal_moves(&t).into_iter().map(|m| (m, 0)).collect();
    for depth in [i32::MIN + 1, -3, 0, 1] {
        let r = Searcher::new().search_root(&t, &mut Clock::new(|| 0), &mut b, depth, &reps);
        assert_eq!((move_to_uci(r.0), r.1), ("e4d5".to_string(), 125));
    }
}

#[test]
fn an_aborted_search_keeps_the_best_so_far() {
    let t = init_tables();
    let mut b = Board::from_fen(&t, "4k3/8/8/3q4/4P3/8/8/4K3 w - - 0 1");
    let reps: Vec<(u16, usize)> = b.legal_moves(&t).into_iter().map(|m| (m, 0)).collect();
    for stop in 1..40u64 {
        let looks = Cell::new(0u64);
        let mut clock = Clock::new(|| {
            looks.set(looks.get() + 1);
            looks.get()
        });
        let mut s = Searcher::until(stop, 1);
        let (m, v) = s.search_root(&t, &mut clock, &mut b, 2, &reps);
        assert!(reps.iter().any(|r| r.0 == m));
        if s.aborted {
            // The moves that were searched in full come first.
            let mut n = 0;
            let mut best = (0u16, -60000);
            loop {
                let mut f = Searcher::new();
                let full = f.search_root(&t, &mut Clock::new(|| 0), &mut b, 2, &reps[..n + 1].to_vec());
                if f.nodes >= stop {
                    break;
                }
                best = full;
                n += 1;
            }
            assert!((n > 0 && (m, v) == best) || (m == reps[n].0 && (n == 0 || v > best.1)));
        }
        // Within its window, whatever the clock did.
        looks.set(0);
        let mut s = Searcher::until(stop, 1);
        let r = s.alphabeta(&t, &mut clock, &mut b, 2, -30, 40, 0);
        assert!((-30..=40).contains(&r));
    }
}

#[test]
fn the_clock_decides_which_move_is_in_hand() {
    let t = init_tables();
    // A rook mates at the back: the best at a glance is another move.
    let b = Board::from_fen(&t, "6k1/5ppp/8/8/8/8/8/R3K3 w - - 0 1");
    let budget = Budget { cycles: 100 };
    let play = |late: u64| {
        let looks = Cell::new(0u64);
        let mut clock = Clock::new(|| {
            looks.set(looks.get() + 1);
            // The first reading starts the budget; from reading `late` on it is used up.
            if looks.get() < late { 0 } else { 100 }
        });
        let m = Player { moves_played: 1 }.hfc_play(&t, &mut clock, &b, &vec![], &budget);
        (m, looks.get())
    };
    let all = b.legal_moves(&t);
    let glance = *all
        .iter()
        .rev()
        .max_by_key(|&&m| {
            let mut after = b;
            after.make(m);
            -eval(&after)
        })
        .unwrap();
    // Each move but the first is a look while they are gathered.
    let mut buf = [0u16; 256];
    let gathering = b.gen_moves(&t, &mut buf) as u64 - 1;
    assert_eq!(play(2), (all[0], 2));
    assert_eq!(play(1 + gathering), (all[0], 1 + gathering));
    assert_eq!(play(2 + gathering), (glance, 2 + gathering));
    // The first iteration needs as many looks as it takes nodes.
    let mut board = b;
    let mut reps: Vec<(u16, usize)> = all.iter().map(|&m| (m, 0)).collect();
    let score = |m: u16| {
        let mut after = b;
        after.make(m);
        eval(&after)
    };
    reps.sort_by_key(|r| score(r.0));
    let mut s = Searcher::until(u64::MAX, 1);
    let (first, _) = s.search_root(&t, &mut Clock::new(|| 0), &mut board, 1, &reps);
    let n = 2 + gathering + s.nodes;
    assert_eq!(play(n), (glance, n));
    assert_eq!(play(n + 1), (first, n + 1));
    let (second, _) = s.search_root(&t, &mut Clock::new(|| 0), &mut board, 2, &reps);
    let n = 2 + gathering + s.nodes;
    assert_eq!(play(n), (first, n));
    assert_eq!(play(n + 1), (second, n + 1));
    assert_eq!(move_to_uci(second), "a1a8");
}

#[test]
fn the_example_stops_at_its_deadline() {
    let t = init_tables();
    let b = Board::from_fen(&t, START);
    for late in 2..=25u64 {
        let looks = Cell::new(0u64);
        let mut clock = Clock::new(|| {
            looks.set(looks.get() + 1);
            if looks.get() < late { 0 } else { 94 }
        });
        example::hfc_play(&t, &mut clock, &b, &Budget { cycles: 100 });
        // One look starts the budget, and each of the twenty moves but the first is one more.
        assert_eq!(looks.get(), late.min(20));
    }
}

#[test]
fn the_interval_grows_with_the_budget() {
    assert_eq!(check_interval(0), 1);
    assert_eq!(check_interval(200_000), 1);
    assert_eq!(check_interval(200_001), 4);
    assert_eq!(check_interval(1_000_000), 4);
    assert_eq!(check_interval(1_000_001), 8);
}

#[test]
fn budgets_run_out_where_they_should() {
    assert_eq!(Budget { cycles: 150_000 }.deadline(1_000, 94), 142_000);
    assert_eq!(Budget { cycles: 150_000 }.deadline(1_000, 88), 133_000);
    assert_eq!(Budget { cycles: 1 }.deadline(5, 94), 5);
    assert_eq!(Budget { cycles: u64::MAX }.deadline(u64::MAX, 100), u64::MAX);
    assert_eq!(shared_len(1), 4096);
    assert_eq!(shared_len(4096), 4096);
    assert_eq!(shared_len(4097), 8192);
}

#[test]
fn counters_are_sign_extended() {
    let full = |offset: i64, raw: u64, width: u32| {
        let shift = 64 - width;
        (offset as u64).wrapping_add((((raw << shift) as i64) >> shift) as u64)
    };
    assert_eq!(counter_value(7, None, 0), 7);
    assert_eq!(counter_value(-1, None, 0), u64::MAX);
    assert_eq!(counter_value(100, Some(5), 48), 105);
    assert_eq!(counter_value(100, Some(0xffff_ffff_ffff), 48), 99);
    for width in 1..=64u32 {
        for offset in [0, 1, -1, i64::MIN, i64::MAX, 123_456_789] {
            for raw in [0, 1, 2, 0x7fff_ffff_ffff, 0x8000_0000_0000, u64::MAX, 1 << 63] {
                let got = counter_value(offset, Some(raw), width as u16);
                assert_eq!(got, full(offset, raw, width), "{offset} {raw} {width}");
            }
        }
    }
}

#[test]
fn the_reference_plays_within_its_budget() {
    let t = init_tables();
    let b = Board::from_fen(&t, "6k1/5ppp/8/8/8/8/8/R3K3 w - - 0 1");
    let ticks = Cell::new(0u64);
    let r = &ticks;
    let now = move || {
        r.set(r.get() + 1);
        r.get()
    };
    let mut p = Player::new();
    let m = p.hfc_play(&t, &mut Clock::new(now), &b, &vec![b.hash()], &Budget { cycles: 4_000 });
    assert_eq!(move_to_uci(m), "a1a8");
    assert_eq!(p.moves_played, 1);
    assert!(ticks.get() < 4_000);
    // No time at all: the first legal move is in hand.
    let m = p.hfc_play(&t, &mut Clock::new(|| 7), &b, &vec![], &Budget { cycles: 0 });
    assert_eq!(m, b.legal_moves(&t)[0]);
    assert_eq!(p.moves_played, 2);
}

#[test]
fn the_reference_has_no_move_when_there_is_none() {
    let t = init_tables();
    for fen in ["7k/6Q1/6K1/8/8/8/8/8 b - - 0 1", "7k/5Q2/6K1/8/8/8/8/8 b - - 0 1"] {
        let b = Board::from_fen(&t, fen);
        let budget = Budget { cycles: 1_000 };
        assert_eq!(Player::new().hfc_play(&t, &mut Clock::new(|| 0), &b, &vec![], &budget), 0);
        assert_eq!(example::hfc_play(&t, &mut Clock::new(|| 0), &b, &budget), 0);
        assert_eq!(random::hfc_play(&t, &b), 0);
    }
}

#[test]
fn the_reference_finds_the_deepest_choice_in_a_forced_line() {
    // One legal move at every ply is searched to the end at once.
    let t = init_tables();
    let b = Board::from_fen(&t, "7k/8/8/8/8/8/5Q2/6RK b - - 0 1");
    let legal = b.legal_moves(&t);
    assert_eq!(legal.len(), 1);
    let m = Player::new().hfc_play(&t, &mut Clock::new(|| 9), &b, &vec![], &Budget { cycles: 0 });
    assert_eq!(m, legal[0]);
}

#[test]
fn the_example_takes_the_most() {
    let t = init_tables();
    let b = Board::from_fen(&t, "4k3/8/8/3q4/4P3/8/3R4/4K3 w - - 0 1");
    let m = example::hfc_play(&t, &mut Clock::new(|| 0), &b, &Budget { cycles: 1_000 });
    assert_eq!((mv_from(m), mv_to(m)), (28, 35));
    assert_eq!(example::material(&b), 500 + 100 - 900);
    // Late from the first look on: two legal moves are compared and no more.
    let late = example::hfc_play(&t, &mut Clock::new(|| 5), &b, &Budget { cycles: 0 });
    assert!(b.legal_moves(&t)[..2].contains(&late));
}

#[test]
fn the_random_engine_is_deterministic() {
    let t = init_tables();
    let b = Board::from_fen(&t, START);
    let legal = b.legal_moves(&t);
    assert_eq!(random::hfc_play(&t, &b), legal[7]);
}
