use hfc::cli::{arg, given, input_files, num};
use hfc::failure::{failure_kind, FAILURE_NAMES};

fn args(v: &[&str]) -> Vec<String> {
    v.iter().map(|s| s.to_string()).collect()
}

#[test]
fn every_failure_lands_in_the_right_bucket() {
    let cases: &[(&str, &str)] = &[
        ("crash", "faulty crashed with signal 11 (SIGSEGV - bad pointer)"),
        ("crash", "faulty crashed with signal 6 (SIGABRT - panic or assertion)"),
        ("crash", "faulty exited with status 0"),
        ("hang", "faulty hung: no reply within 5000ms"),
        ("illegal move", "faulty played illegal move h8h8q (0xffff) in position 8/8/8"),
        ("budget overrun", "faulty: budget overrun: spent 8012381 cycles of 150000"),
        ("no move returned", "faulty: returned move 0 (no move chosen)"),
        ("other", "something nobody anticipated"),
    ];
    for (want, note) in cases {
        let got = FAILURE_NAMES[failure_kind(note)];
        assert_eq!(got, *want, "{note:?} was filed as {got}, not {want}");
    }
}

#[test]
fn the_classifier_matches_what_the_arbiter_writes() {
    for note in ["e crashed with signal 11 (SIGSEGV - bad pointer)", "e exited with status 3"] {
        assert_eq!(FAILURE_NAMES[failure_kind(note)], "crash", "{note:?}");
    }
}

#[test]
fn flags_are_read_off_the_command_line() {
    let args: Vec<String> = ["match", "a.so", "b.so", "--games", "40", "--cycles", "150000"]
        .iter()
        .map(|s| s.to_string())
        .collect();
    assert_eq!(arg(&args, "--games").as_deref(), Some("40"));
    assert_eq!(num(&args, "--games", 0u64), 40);
    assert_eq!(num(&args, "--cycles", 0u64), 150_000);
    // Absent, and present-but-unparseable, both fall back to the default.
    assert_eq!(num(&args, "--missing", 7u64), 7);
    let bad: Vec<String> = ["x", "--games", "lots"].iter().map(|s| s.to_string()).collect();
    assert_eq!(num(&bad, "--games", 7u64), 7);
    // A flag in final position has no value to take.
    let trailing: Vec<String> = ["x", "--games"].iter().map(|s| s.to_string()).collect();
    assert_eq!(arg(&trailing, "--games"), None);
}

#[test]
fn numbers_are_read_as_the_type_holds_them() {
    let a = args(&["x", "--n", "18446744073709551615", "--m", "18446744073709551616", "--p", "+5"]);
    assert_eq!(num(&a, "--n", 1u64), u64::MAX);
    assert_eq!(num(&a, "--m", 1u64), 1);
    assert_eq!(num(&a, "--p", 1usize), 5);
    assert_eq!(num(&args(&["x", "--n", "-1"]), "--n", 3usize), 3);
    assert_eq!(num(&args(&["x", "--n", ""]), "--n", 3usize), 3);
}

#[test]
fn the_first_occurrence_of_a_flag_counts() {
    let a = args(&["m", "--out", "x", "--out", "y"]);
    assert_eq!(arg(&a, "--out").as_deref(), Some("x"));
    assert!(given(&a, "--out"));
    assert!(!given(&a, "--pgn"));
}

#[test]
fn flags_and_their_values_are_no_files() {
    let a = args(&["r1.txt", "--out", "sum.txt", "r2.txt", "--elo0", "0", "r3.txt"]);
    assert_eq!(input_files(&a), args(&["r1.txt", "r2.txt", "r3.txt"]));
    assert_eq!(input_files(&args(&["--", "--out", "x"])), args(&["x"]));
}
