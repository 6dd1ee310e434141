use hfc::native::{
    check_init, describe_exit, engine_name, load_step, smt_sibling_warning, Engine, LoadStep,
    MoveOut, Phase, RemoteCounter, Reply,
};
use hfc::plan::{capped_note, check_case, moves_path, plan_match, save_due};
use hfc::sandbox::{forbid_process_creation, process_filter, SockFilter, ALLOW, KILL};

fn why(m: MoveOut) -> String {
    match m {
        MoveOut::Forfeit(s) => s,
        MoveOut::Move(m) => panic!("played {m}"),
    }
}

fn engine() -> Engine {
    Engine::new("e".to_string(), 17)
}

#[test]
fn deaths_are_described() {
    let text = [
        (11, "crashed with signal 11 (SIGSEGV - bad pointer)"),
        (7, "crashed with signal 7 (SIGBUS)"),
        (4, "crashed with signal 4 (SIGILL)"),
        (8, "crashed with signal 8 (SIGFPE)"),
        (6, "crashed with signal 6 (SIGABRT - panic or assertion)"),
        (
            31,
            "crashed with signal 31 (SIGSYS - blocked syscall (tried to fork or spawn a thread?))",
        ),
        (9, "crashed with signal 9 (SIGKILL - killed, out of memory?)"),
        (15, "crashed with signal 15 (unknown signal)"),
        (0x8b, "crashed with signal 11 (SIGSEGV - bad pointer)"),
        (0, "exited with status 0"),
        (3 << 8, "exited with status 3"),
        (127 << 8, "exited with status 127"),
        (0x7f, "exited with status 0"),
    ];
    for (status, want) in text {
        assert_eq!(describe_exit(status), want);
    }
}

#[test]
fn names_come_from_files() {
    assert_eq!(engine_name("libexample_engine"), "example_engine");
    assert_eq!(engine_name("liblibx"), "x");
    assert_eq!(engine_name("reference"), "reference");
    assert_eq!(engine_name("li"), "li");
}

#[test]
fn loading_is_capped() {
    assert_eq!(check_init("x.so", 1_500_000), Ok(()));
    assert_eq!(
        check_init("x.so", 1_500_001).unwrap_err(),
        "x.so: hfc_init spent 1500001 reference ticks, limit is 1500000 (10x a move budget). \
         Setup is for tables and weights, not for precomputing against the book."
    );
}

#[test]
fn loading_is_waited_for() {
    let look = |phase, over, exited, late| load_step("x.so", phase, over, exited, late);
    assert!(matches!(look(Phase::Starting, true, None, true), LoadStep::Done));
    assert!(matches!(look(Phase::Starting, false, None, false), LoadStep::Wait));
    assert!(matches!(
        look(Phase::Initialising, false, Some(2 << 8), true),
        LoadStep::Gone(s) if s == "x.so: engine host exited with status 2"
    ));
    assert!(matches!(
        look(Phase::Starting, false, None, true),
        LoadStep::Kill(s) if s == "x.so: engine host never started"
    ));
    assert!(matches!(
        look(Phase::Initialising, false, None, true),
        LoadStep::Kill(s) if s == "x.so: hfc_init did not finish within 30s"
    ));
}

#[test]
fn a_new_game_rides_on_the_next_move() {
    let mut e = engine();
    assert_eq!(e.request(), Ok(false));
    e.begin_game();
    assert!(e.pending_new_game);
    assert_eq!(e.request(), Ok(true));
    assert_eq!(e.request(), Ok(false));
    assert_eq!(e.load_cycles, 17);
}

#[test]
fn answers_are_measured() {
    let mut e = engine();
    e.request().unwrap();
    assert!(matches!(e.settle(Reply::Answered(10, 110, 77), 100, ""), MoveOut::Move(77)));
    assert_eq!(e.last_cycles, 100);
    // The grace is part of the budget.
    e.request().unwrap();
    assert_eq!(e.last_cycles, 0);
    assert!(matches!(e.settle(Reply::Answered(0, 2_100, 77), 100, ""), MoveOut::Move(77)));
    e.request().unwrap();
    assert_eq!(
        why(e.settle(Reply::Answered(0, 2_101, 77), 100, "+2001.0")),
        "budget overrun: spent 2101 cycles of 100 (+2001.0%, grace 2000)"
    );
    assert_eq!(e.last_cycles, 2_101);
    e.request().unwrap();
    assert_eq!(
        why(e.settle(Reply::Answered(0, 50, 0), 100, "")),
        "returned move 0 (no move chosen)"
    );
    e.request().unwrap();
    assert_eq!(
        why(e.settle(Reply::Answered(9, 5, 1), 100, "")),
        "cycle counter went backwards (9 -> 5)"
    );
    assert_eq!(e.last_cycles, 0);
    assert_eq!(
        why(e.settle(Reply::Answered(9, u64::MAX, 1), 100, "")),
        "cycle counter unreadable across the move (the PMU was time-shared)"
    );
    assert!(!e.is_dead());
    // A budget near the largest number leaves no room for the grace to overflow.
    assert!(matches!(e.settle(Reply::Answered(0, 5, 1), u64::MAX, ""), MoveOut::Move(1)));
}

#[test]
fn the_dead_stay_dead() {
    let mut e = engine();
    e.request().unwrap();
    assert_eq!(why(e.settle(Reply::Hung, 1, "")), "e hung: no reply within 5000ms");
    assert!(e.is_dead());
    assert_eq!(e.request(), Err("e hung: no reply within 5000ms".to_string()));
    let mut e = engine();
    assert_eq!(
        why(e.settle(Reply::Broken(Some(6)), 1, "")),
        "e crashed with signal 6 (SIGABRT - panic or assertion)"
    );
    let mut e = engine();
    assert_eq!(why(e.settle(Reply::Broken(None), 1, "")), "e stopped responding");
    assert!(e.is_dead());
}

#[test]
fn readings_that_cannot_be_trusted_are_marked() {
    let c = RemoteCounter { fd: 3 };
    assert_eq!(c.reading(24, &[5, 9, 9]), 5);
    assert_eq!(c.reading(24, &[5, 9, 8]), u64::MAX);
    assert_eq!(c.reading(16, &[5, 9, 9]), u64::MAX);
    assert_eq!(c.reading(-1, &[5, 9, 9]), u64::MAX);
}

#[test]
fn siblings_are_warned_about() {
    assert_eq!(smt_sibling_warning(2, "2\n"), None);
    assert_eq!(
        smt_sibling_warning(2, "2,18\n").unwrap(),
        "CPU 2 shares a physical core with CPU(s) 18. Identical work costs ~52% more cycles \
         when a sibling is busy.\n  fix: echo off | sudo tee /sys/devices/system/cpu/smt/control"
    );
    assert!(smt_sibling_warning(4, " 3-5,7 ").unwrap().contains("CPU(s) 3, 5, 7. "));
    assert!(smt_sibling_warning(3, "3-4").unwrap().contains("CPU(s) 4. "));
}

/// Runs a filter as the kernel would.
fn verdict(prog: &[SockFilter], nr: u32) -> u32 {
    let mut pc = 0;
    let mut acc = 0;
    loop {
        let i = prog[pc];
        pc += 1;
        match i.code {
            0x20 => acc = nr,
            0x15 => pc += if acc == i.k { i.jt } else { i.jf } as usize,
            _ => return i.k,
        }
    }
}

#[test]
fn the_filter_kills_what_is_forbidden() {
    let prog = forbid_process_creation();
    assert_eq!(prog.len(), 14);
    let forbidden = [56, 435, 57, 58, 59, 101, 2, 257, 437, 41, 42];
    for nr in 0..600 {
        let want = if forbidden.contains(&nr) { KILL } else { ALLOW };
        assert_eq!(verdict(&prog, nr), want, "call {nr}");
    }
    assert_eq!(verdict(&process_filter(&vec![]), 1), ALLOW);
    let many: Vec<u32> = (0..255).collect();
    let wide = process_filter(&many);
    assert_eq!(verdict(&wide, 0), KILL);
    assert_eq!(verdict(&wide, 254), KILL);
    assert_eq!(verdict(&wide, 255), ALLOW);
}

#[test]
fn matches_fit_their_book() {
    let p = plan_match(7, 100, 10).unwrap();
    assert_eq!((p.pairs, p.capped), (4, false));
    let p = plan_match(1000, 100, 10).unwrap();
    assert_eq!((p.pairs, p.capped), (90, true));
    assert_eq!(
        plan_match(10, 5, 5).err().unwrap(),
        "--book-offset 5 is past the end of a 5-opening book"
    );
    assert_eq!(plan_match(usize::MAX, 1, 0).unwrap().pairs, 1);
    assert!(capped_note(90, 10, 1000)
        .starts_with("note: 90 openings available from offset 10, 500 pairs requested; capping.\n"));
    assert_eq!(moves_path("out/games.pgn"), "out/games.moves");
    assert_eq!(moves_path("games"), "games.moves");
    assert_eq!(moves_path("pgn"), "pgn.moves");
    assert_eq!(moves_path(".pgn"), ".moves");
    assert!(save_due(24, 100) && save_due(99, 100) && !save_due(0, 100));
}

#[test]
fn answers_are_checked_against_the_position() {
    let legal = vec![12u16 | 28 << 6 | 1 << 12];
    let none: Vec<u16> = vec![];
    let zero = MoveOut::Forfeit("returned move 0 (no move chosen)".to_string());
    let e4 = MoveOut::Move(12 | 28 << 6);
    assert_eq!(check_case("start", 5, &legal, &e4), None);
    assert_eq!(check_case("mate", 5, &none, &zero), None);
    assert_eq!(
        check_case("mate", 5, &none, &e4).unwrap(),
        "  FAIL mate @5: returned e2e4 in a terminal position"
    );
    assert_eq!(
        check_case("start", 5, &legal, &zero).unwrap(),
        "  FAIL start @5: returned move 0 (no move chosen)"
    );
    assert_eq!(
        check_case("start", 5, &legal, &MoveOut::Move(0x00ff)).unwrap(),
        "  FAIL start @5: illegal move h8d1 (0x00ff)"
    );
    assert_eq!(
        check_case("mate", 5, &none, &MoveOut::Forfeit("e stopped responding".to_string()))
            .unwrap(),
        "  FAIL mate @5: e stopped responding"
    );
}
