use hfc::book::{checksum, load};
use hfc::results::{parse_results, ResultsError};
use hfc::stats::{Penta, Results};

const TEXT: &str = "version 1\na one\nb two\ncycles_a 150000\ncycles_b 75000\nbook 00000000000000ff\n\
                    penta 1,0,2,0,1\nwdl 3,2,3\nplies 640\ngames 8\ncycles 100 7\nfailures 0,1,0,0,0,2\n";

fn good() -> Results {
    Results::from_text(TEXT).unwrap()
}

fn fault(t: &str) -> String {
    match Results::from_text(t) {
        Ok(_) => panic!("{t:?} was read"),
        Err(e) => e,
    }
}

fn with(key: &str, line: &str) -> String {
    TEXT.lines()
        .map(|l| if l.starts_with(&format!("{key} ")) { line } else { l })
        .map(|l| format!("{l}\n"))
        .collect()
}

#[test]
fn results_read_back_as_they_were_written() {
    let r = good();
    assert_eq!(r.to_text(), TEXT);
    assert_eq!((r.a.as_str(), r.b.as_str()), ("one", "two"));
    assert_eq!((r.cycles_a, r.cycles_b, r.book), (150_000, 75_000, 255));
    assert_eq!(r.penta.counts, [1, 0, 2, 0, 1]);
    assert_eq!((r.wins_a, r.draws, r.wins_b), (3, 2, 3));
    assert_eq!((r.plies, r.games, r.cycles_sum, r.cycles_n), (640, 8, 100, 7));
    assert_eq!(r.failures, [0, 1, 0, 0, 0, 2]);
    assert_eq!(good().to_text(), good().to_text());
}

#[test]
fn carriage_returns_and_unknown_lines_do_no_harm() {
    let crlf = TEXT.replace('\n', "\r\n");
    assert_eq!(Results::from_text(&crlf).unwrap().to_text(), TEXT);
    let odd = format!("comment\nfuture 7\n{TEXT}\n");
    assert_eq!(Results::from_text(&odd).unwrap().to_text(), TEXT);
    let spaced = with("wdl", "wdl  3 , 2,3 ");
    assert_eq!(Results::from_text(&spaced).unwrap().to_text(), TEXT);
}

#[test]
fn broken_results_are_refused_in_words() {
    assert_eq!(fault(&with("games", "games eight")), "games: \"eight\" is not a number");
    assert_eq!(fault(&with("plies", "plies \"6\t4\"")), "plies: \"\\\"6\\t4\\\"\" is not a number");
    assert_eq!(fault(&with("wdl", "wdl 1,2")), "wdl: 2 values, expected 3");
    assert_eq!(fault(&with("penta", "penta 1,x,2,0,1")), "penta: \"x\" is not a number");
    assert_eq!(fault(&with("cycles", "cycles 1")), "cycles: 1 values, expected 2");
    assert_eq!(fault(&with("cycles", "cycles 1 z")), "cycles: \"z\" is not a number");
    assert_eq!(fault(&with("book", "book xyz")), "book: \"xyz\" is not hex");
    assert_eq!(fault(&with("version", "version 2")), "results version 2 is not understood");
    assert_eq!(
        fault(&with("games", "gone")),
        "result file is missing games; it is probably truncated"
    );
    assert_eq!(fault(&with("a", "a  ")), "result file names no engines");
    assert_eq!(
        fault(&with("games", "games 0")),
        "result file has no games"
    );
    assert_eq!(
        fault(&with("wdl", "wdl 3,2,4")),
        "result file is inconsistent: 9 wins/draws/losses over 8 games"
    );
    assert_eq!(
        fault(&with("penta", "penta 1,0,2,0,2")),
        "result file is inconsistent: pentanomial covers 10 games, not 8"
    );
    assert_eq!(fault(""), "result file is missing a; it is probably truncated");
    assert_eq!(
        fault(&with("games", "games 18446744073709551616")),
        "games: \"18446744073709551616\" is not a number"
    );
}

#[test]
fn faults_carry_what_is_wrong() {
    assert!(matches!(
        parse_results(&with("book", "book q")),
        Err(ResultsError::NotHex(v)) if v == "q"
    ));
    assert!(matches!(
        parse_results(&with("failures", "failures 1")),
        Err(ResultsError::WrongCount(k, 1, 6)) if k == "failures"
    ));
    let e = ResultsError::NotANumber("k".to_string(), "v".to_string());
    assert_eq!(e.message_with("<v>"), "k: <v> is not a number");
    assert_eq!(e.message(), "k: \"v\" is not a number");
}

#[test]
fn sums_too_large_to_hold_are_refused() {
    let t = with("wdl", "wdl 18446744073709551615,1,8");
    assert_eq!(
        fault(&t),
        "result file is inconsistent: 18446744073709551624 wins/draws/losses over 8 games"
    );
}

#[test]
fn runs_of_one_match_add_up() {
    let mut acc = Results::default();
    acc.merge(&good()).unwrap();
    assert_eq!(acc.to_text(), TEXT);
    acc.merge(&good()).unwrap();
    assert_eq!(acc.penta.counts, [2, 0, 4, 0, 2]);
    assert_eq!((acc.wins_a, acc.draws, acc.wins_b, acc.games), (6, 4, 6, 16));
    assert_eq!(acc.failures, [0, 2, 0, 0, 0, 4]);
    assert!(Results::from_text(&acc.to_text()).is_ok());
    let mut x = good();
    let mut y = good();
    y.plies = 1;
    let z = good();
    x.merge(&y).unwrap();
    y.merge(&z).unwrap();
    assert_eq!(x.to_text(), y.to_text());
}

#[test]
fn runs_add_up_in_any_grouping() {
    let three = |n: u64| {
        let mut r = good();
        r.plies = n;
        r
    };
    let mut left = three(1);
    left.merge(&three(2)).unwrap();
    left.merge(&three(3)).unwrap();
    let mut tail = three(2);
    tail.merge(&three(3)).unwrap();
    let mut right = three(1);
    right.merge(&tail).unwrap();
    assert_eq!(left.to_text(), right.to_text());
}

#[test]
fn runs_of_different_matches_do_not() {
    let mut r = good();
    let mut o = good();
    o.b = "three".to_string();
    assert_eq!(r.merge(&o).unwrap_err(), "refusing to merge one vs two with one vs three");
    let mut o = good();
    o.cycles_b = 1;
    assert_eq!(r.merge(&o).unwrap_err(), "refusing to merge runs with different budgets");
    let mut o = good();
    o.book = 16;
    assert_eq!(
        r.merge(&o).unwrap_err(),
        "refusing to merge runs with different books (00000000000000ff vs 0000000000000010)"
    );
    assert_eq!(r.to_text(), TEXT);
}

#[test]
fn pairs_are_counted_by_half_points() {
    let mut p = Penta::new();
    for s in [0, 1, 1, 4, 9] {
        p.add(s);
    }
    assert_eq!(p.counts, [1, 2, 0, 0, 2]);
    assert_eq!(p.pairs(), 5);
    assert_eq!(Penta::from_csv("1, 2 ,x,4").counts, [1, 2, 0, 4, 0]);
    assert_eq!(Penta::from_csv("1,2,3,4,5,6").counts, [1, 2, 3, 4, 5]);
    assert_eq!(Penta::from_csv("").counts, [0; 5]);
}

#[test]
fn books_are_summed_by_their_bytes() {
    let s = |v: &[&str]| checksum(&v.iter().map(|x| x.to_string()).collect::<Vec<_>>());
    assert_eq!(s(&[]), 0xcbf29ce484222325);
    assert_eq!(s(&["a", "bc"]), 0x02ebad2c19b900ab);
    assert_eq!(s(&["é"]), 0xa5ea9b1c1dfca99a);
    assert_ne!(s(&["ab", "c"]), s(&["a", "bc"]));
}

#[test]
fn books_declare_their_sum() {
    let start = "rnbqkbnr/pppppppp/8/8/8/8/PPPPPPPP/RNBQKBNR w KQkq - 0 1";
    let book = format!("# openings\n# checksum= b50497aaae112bf0 \n\n{start}\n   \n");
    assert_eq!(load(&book).unwrap(), vec![start.to_string()]);
    assert_eq!(load("# checksum=1\n").unwrap_err(), "book.txt contains no openings");
    assert_eq!(
        load(&format!("{start}\n")).unwrap_err(),
        "book.txt has no readable '# checksum=' header. The book is part of the              \
         rules; restore it from git."
    );
    assert!(load(&format!("# checksum=zz\n{start}\n")).unwrap_err().contains("no readable"));
    assert_eq!(
        load(&format!("# checksum=ff\n{start}\n")).unwrap_err(),
        "book.txt checksum mismatch: header says 00000000000000ff, contents hash to \
         b50497aaae112bf0.\n  The book has been edited. Both players must use an identical book."
    );
}
