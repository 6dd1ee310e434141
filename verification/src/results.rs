//! Reading the results of a match back, and adding up the results of several.
use vstd::prelude::*;

use crate::stats::{
    blank, first_missing, index_from, key_of, list_of, needed, number_of, numbers_of, read_lines,
    record_fault, record_of, sum, total, with_value, Fault, Key, Record, Results,
};
use crate::text::{
    chars, cut, decimal, hex, is_text, just, lines, push_decimal, push_hex, read_number, same,
    split, split_at, split_lines, split_words, string, texts, trimmed, words,
};

verus! {

/// What can be wrong with a result file.
pub enum ResultsError {
    NotANumber(String, String),
    WrongCount(String, usize, usize),
    NotHex(String),
    Version(String),
    Missing(String),
    NoEngines,
    NoGames,
    Uneven(u128, u64),
    Uncovered(u128, u64),
}

impl ResultsError {
    pub open spec fn view(&self) -> Fault {
        match *self {
            ResultsError::NotANumber(k, v) => Fault::NotANumber(k@, v@),
            ResultsError::WrongCount(k, n, want) => Fault::WrongCount(k@, n as nat, want as nat),
            ResultsError::NotHex(v) => Fault::NotHex(v@),
            ResultsError::Version(v) => Fault::Version(v@),
            ResultsError::Missing(k) => Fault::Missing(k@),
            ResultsError::NoEngines => Fault::NoEngines,
            ResultsError::NoGames => Fault::NoGames,
            ResultsError::Uneven(n, games) => Fault::Uneven(n as nat, games as nat),
            ResultsError::Uncovered(n, games) => Fault::Uncovered(n as nat, games as nat),
        }
    }
}

// ------------------------------------------------------------------------- messages

/// A text in quotation marks, with what cannot be printed escaped, as the debug format of
/// the standard library writes it.
pub uninterp spec fn debug_text(s: Seq<char>) -> Seq<char>;

/// `format!` with the debug format of a string slice: the result is a function of the text.
/// What it is on a given text is not stated.
#[verifier::external_body]
fn quoted(s: &str) -> (r: String)
    ensures
        r@ == debug_text(s@),
{
    format!("{s:?}")
}

/// What is said of a fault, given the quoted form of the value it is about.
pub open spec fn fault_text(f: Fault, quote: Seq<char>) -> Seq<char> {
    match f {
        Fault::NotANumber(k, _) => k + ": "@ + quote + " is not a number"@,
        Fault::WrongCount(k, n, want) => k + ": "@ + decimal(n) + " values, expected "@ + decimal(
            want,
        ),
        Fault::NotHex(_) => "book: "@ + quote + " is not hex"@,
        Fault::Version(v) => "results version "@ + v + " is not understood"@,
        Fault::Missing(k) => "result file is missing "@ + k + "; it is probably truncated"@,
        Fault::NoEngines => "result file names no engines"@,
        Fault::NoGames => "result file has no games"@,
        Fault::Uneven(n, games) => "result file is inconsistent: "@ + decimal(n)
            + " wins/draws/losses over "@ + decimal(games) + " games"@,
        Fault::Uncovered(n, games) => "result file is inconsistent: pentanomial covers "@ + decimal(
            n,
        ) + " games, not "@ + decimal(games),
    }
}

/// The value that a fault quotes.
pub open spec fn quoted_value(f: Fault) -> Seq<char> {
    match f {
        Fault::NotANumber(_, v) => v,
        Fault::NotHex(v) => v,
        _ => Seq::<char>::empty(),
    }
}

impl ResultsError {
    /// What is said of a fault, given the quoted form of the value it is about.
    pub fn message_with(&self, quote: &str) -> (s: String)
        ensures
            s@ == fault_text(self@, quote@),
    {
        match self {
            ResultsError::NotANumber(k, _) => {
                let mut s = k.clone();
                s.append(": ");
                s.append(quote);
                s.append(" is not a number");
                s
            },
            ResultsError::WrongCount(k, n, want) => {
                let mut s = k.clone();
                s.append(": ");
                push_decimal(&mut s, *n as u128);
                s.append(" values, expected ");
                push_decimal(&mut s, *want as u128);
                s
            },
            ResultsError::NotHex(_) => {
                let mut s = "book: ".to_owned();
                s.append(quote);
                s.append(" is not hex");
                s
            },
            ResultsError::Version(v) => {
                let mut s = "results version ".to_owned();
                s.append(v.as_str());
                s.append(" is not understood");
                s
            },
            ResultsError::Missing(k) => {
                let mut s = "result file is missing ".to_owned();
                s.append(k.as_str());
                s.append("; it is probably truncated");
                s
            },
            ResultsError::NoEngines => "result file names no engines".to_owned(),
            ResultsError::NoGames => "result file has no games".to_owned(),
            ResultsError::Uneven(n, games) => {
                let mut s = "result file is inconsistent: ".to_owned();
                push_decimal(&mut s, *n);
                s.append(" wins/draws/losses over ");
                push_decimal(&mut s, *games as u128);
                s.append(" games");
                s
            },
            ResultsError::Uncovered(n, games) => {
                let mut s = "result file is inconsistent: pentanomial covers ".to_owned();
                push_decimal(&mut s, *n);
                s.append(" games, not ");
                push_decimal(&mut s, *games as u128);
                s
            },
        }
    }

    /// What is said of a fault.
    pub fn message(&self) -> (s: String)
        ensures
            s@ == fault_text(self@, debug_text(quoted_value(self@))),
    {
        let value = match self {
            ResultsError::NotANumber(_, v) => v.clone(),
            ResultsError::NotHex(v) => v.clone(),
            _ => String::new(),
        };
        assert(value@ =~= quoted_value(self@));
        let quote = quoted(value.as_str());
        self.message_with(quote.as_str())
    }
}

// -------------------------------------------------------------------------- reading

fn find_char(s: &Vec<char>, c: char) -> (r: Option<usize>)
    ensures
        match r {
            Some(i) => index_from(s@, c, 0) == Some(i as int) && i < s@.len(),
            None => index_from(s@, c, 0) is None,
        },
{
    let mut i: usize = 0;
    while i < s.len()
        invariant
            i <= s@.len(),
            index_from(s@, c, 0) == index_from(s@, c, i as int),
        decreases s@.len() - i,
    {
        if s[i] == c {
            return Some(i);
        }
        i = i + 1;
    }
    None
}

fn read_u64(k: &Vec<char>, v: &Vec<char>) -> (r: Result<u64, ResultsError>)
    ensures
        match r {
            Ok(n) => number_of(k@, v@) == Ok::<u64, Fault>(n),
            Err(e) => number_of(k@, v@) == Err::<u64, Fault>(e@),
        },
{
    let x = trimmed(v);
    match read_number(&x, 10, u64::MAX) {
        Some(n) => Ok(n),
        None => Err(ResultsError::NotANumber(string(k), string(&x))),
    }
}

proof fn lemma_numbers_error(k: Seq<char>, parts: Seq<Seq<char>>, n: int, e: Fault)
    requires
        0 <= n <= parts.len(),
        numbers_of(k, parts.take(n)) == Err::<Seq<u64>, Fault>(e),
    ensures
        numbers_of(k, parts) == Err::<Seq<u64>, Fault>(e),
    decreases parts.len() - n,
{
    if n < parts.len() {
        assert(parts.take(n + 1).drop_last() =~= parts.take(n));
        lemma_numbers_error(k, parts, n + 1, e);
    } else {
        assert(parts.take(n) =~= parts);
    }
}

fn read_list(k: &Vec<char>, v: &Vec<char>, want: usize) -> (r: Result<Vec<u64>, ResultsError>)
    ensures
        match r {
            Ok(ns) => list_of(k@, v@, want as nat) == Ok::<Seq<u64>, Fault>(ns@) && ns@.len()
                == want,
            Err(e) => list_of(k@, v@, want as nat) == Err::<Seq<u64>, Fault>(e@),
        },
{
    let parts = split_at(v, ',');
    let ghost all = texts(parts@);
    if parts.len() != want {
        return Err(ResultsError::WrongCount(string(k), parts.len(), want));
    }
    let mut ns: Vec<u64> = Vec::new();
    let mut i: usize = 0;
    assert(all.take(0) =~= Seq::<Seq<char>>::empty());
    while i < parts.len()
        invariant
            i <= parts@.len(),
            parts@.len() == want,
            all == texts(parts@),
            all == split(v@, just(',')),
            ns@.len() == i,
            numbers_of(k@, all.take(i as int)) == Ok::<Seq<u64>, Fault>(ns@),
        decreases parts@.len() - i,
    {
        let x = trimmed(&parts[i]);
        assert(all.take(i + 1).drop_last() =~= all.take(i as int));
        assert(all.take(i + 1).last() == parts@[i as int]@);
        match read_number(&x, 10, u64::MAX) {
            Some(n) => {
                ns.push(n);
            },
            None => {
                let e = ResultsError::NotANumber(string(k), string(&x));
                proof {
                    lemma_numbers_error(k@, all, i + 1, e@);
                }
                return Err(e);
            },
        }
        i = i + 1;
    }
    assert(all.take(i as int) =~= all);
    Ok(ns)
}

fn read_key(k: &Vec<char>) -> (r: Key)
    ensures
        r == key_of(k@),
{
    if is_text(k, "a") {
        Key::A
    } else if is_text(k, "b") {
        Key::B
    } else if is_text(k, "cycles_a") {
        Key::CyclesA
    } else if is_text(k, "cycles_b") {
        Key::CyclesB
    } else if is_text(k, "book") {
        Key::Book
    } else if is_text(k, "penta") {
        Key::Penta
    } else if is_text(k, "wdl") {
        Key::Wdl
    } else if is_text(k, "plies") {
        Key::Plies
    } else if is_text(k, "games") {
        Key::Games
    } else if is_text(k, "cycles") {
        Key::Cycles
    } else if is_text(k, "failures") {
        Key::Failures
    } else if is_text(k, "version") {
        Key::Version
    } else {
        Key::Unknown
    }
}

/// Takes the value of a key into the results.
fn set_value(r: &mut Results, k: &Vec<char>, v: &Vec<char>) -> (res: Result<(), ResultsError>)
    ensures
        match res {
            Ok(_) => with_value(old(r)@, k@, v@) == Ok::<Record, Fault>(final(r)@),
            Err(e) => with_value(old(r)@, k@, v@) == Err::<Record, Fault>(e@),
        },
{
    match read_key(k) {
        Key::A => {
            r.a = string(&trimmed(v));
        },
        Key::B => {
            r.b = string(&trimmed(v));
        },
        Key::CyclesA => match read_u64(k, v) {
            Ok(n) => {
                r.cycles_a = n;
            },
            Err(e) => {
                return Err(e);
            },
        },
        Key::CyclesB => match read_u64(k, v) {
            Ok(n) => {
                r.cycles_b = n;
            },
            Err(e) => {
                return Err(e);
            },
        },
        Key::Book => {
            let x = trimmed(v);
            match read_number(&x, 16, u64::MAX) {
                Some(n) => {
                    r.book = n;
                },
                None => {
                    return Err(ResultsError::NotHex(string(&x)));
                },
            }
        },
        Key::Penta => match read_list(k, v, 5) {
            Ok(ns) => {
                r.penta.counts = [ns[0], ns[1], ns[2], ns[3], ns[4]];
                assert(r.penta.counts@ =~= ns@);
            },
            Err(e) => {
                return Err(e);
            },
        },
        Key::Wdl => match read_list(k, v, 3) {
            Ok(ns) => {
                r.wins_a = ns[0];
                r.draws = ns[1];
                r.wins_b = ns[2];
            },
            Err(e) => {
                return Err(e);
            },
        },
        Key::Plies => match read_u64(k, v) {
            Ok(n) => {
                r.plies = n;
            },
            Err(e) => {
                return Err(e);
            },
        },
        Key::Games => match read_u64(k, v) {
            Ok(n) => {
                r.games = n;
            },
            Err(e) => {
                return Err(e);
            },
        },
        Key::Cycles => {
            let w = split_words(v);
            if w.len() != 2 {
                return Err(ResultsError::WrongCount(string(k), w.len(), 2));
            }
            assert(words(v@)[0] == w@[0]@ && words(v@)[1] == w@[1]@);
            match read_u64(k, &w[0]) {
                Ok(n) => {
                    match read_u64(k, &w[1]) {
                        Ok(m) => {
                            r.cycles_sum = n;
                            r.cycles_n = m;
                        },
                        Err(e) => {
                            return Err(e);
                        },
                    }
                },
                Err(e) => {
                    return Err(e);
                },
            }
        },
        Key::Failures => match read_list(k, v, 6) {
            Ok(ns) => {
                r.failures = [ns[0], ns[1], ns[2], ns[3], ns[4], ns[5]];
                assert(r.failures@ =~= ns@);
            },
            Err(e) => {
                return Err(e);
            },
        },
        Key::Version => {
            if !is_text(&trimmed(v), "1") {
                return Err(ResultsError::Version(string(v)));
            }
        },
        Key::Unknown => {},
    }
    Ok(())
}

proof fn lemma_lines_error(ls: Seq<Seq<char>>, n: int, e: Fault)
    requires
        0 <= n <= ls.len(),
        read_lines(ls.take(n)) == Err::<(Record, Seq<Seq<char>>), Fault>(e),
    ensures
        read_lines(ls) == Err::<(Record, Seq<Seq<char>>), Fault>(e),
    decreases ls.len() - n,
{
    if n < ls.len() {
        assert(ls.take(n + 1).drop_last() =~= ls.take(n));
        lemma_lines_error(ls, n + 1, e);
    } else {
        assert(ls.take(n) =~= ls);
    }
}

fn was_seen(seen: &Vec<Vec<char>>, k: &str) -> (r: bool)
    ensures
        r == texts(seen@).contains(k@),
{
    let key = chars(k);
    let mut i: usize = 0;
    while i < seen.len()
        invariant
            key@ == k@,
            i <= seen@.len(),
            forall|j: int| 0 <= j < i ==> #[trigger] texts(seen@)[j] != k@,
        decreases seen@.len() - i,
    {
        if same(&seen[i], &key) {
            assert(texts(seen@)[i as int] == k@);
            return true;
        }
        assert(texts(seen@)[i as int] == seen@[i as int]@);
        i = i + 1;
    }
    false
}

fn find_missing(seen: &Vec<Vec<char>>) -> (r: Option<String>)
    ensures
        match r {
            Some(k) => first_missing(texts(seen@), 0) == Some(k@),
            None => first_missing(texts(seen@), 0) is None,
        },
{
    let need: [&'static str; 8] = [
        "a",
        "b",
        "cycles_a",
        "cycles_b",
        "book",
        "games",
        "wdl",
        "penta",
    ];
    let mut i: usize = 0;
    while i < 8
        invariant
            i <= 8,
            need@ == seq!["a", "b", "cycles_a", "cycles_b", "book", "games", "wdl", "penta"],
            first_missing(texts(seen@), 0) == first_missing(texts(seen@), i as int),
        decreases 8 - i,
    {
        let k = need[i];
        assert(k@ == needed()[i as int]);
        if !was_seen(seen, k) {
            return Some(k.to_owned());
        }
        i = i + 1;
    }
    None
}

fn whole_fault(r: &Results) -> (res: Option<ResultsError>)
    ensures
        match res {
            Some(e) => record_fault(r@) == Some(e@),
            None => record_fault(r@) is None,
        },
{
    if r.a.as_str().unicode_len() == 0 || r.b.as_str().unicode_len() == 0 {
        return Some(ResultsError::NoEngines);
    }
    if r.games == 0 {
        return Some(ResultsError::NoGames);
    }
    let wdl: u128 = r.wins_a as u128 + r.draws as u128 + r.wins_b as u128;
    if wdl != r.games as u128 {
        return Some(ResultsError::Uneven(wdl, r.games));
    }
    let pairs = sum(&r.penta.counts);
    proof {
        lemma_total_bound(r.penta.counts@);
    }
    if pairs * 2 != r.games as u128 {
        return Some(ResultsError::Uncovered(pairs * 2, r.games));
    }
    None
}

proof fn lemma_total_bound(s: Seq<u64>)
    ensures
        0 <= total(s) <= s.len() * u64::MAX,
    decreases s.len(),
{
    if s.len() > 0 {
        lemma_total_bound(s.drop_last());
        assert(s.len() * u64::MAX == (s.len() - 1) * u64::MAX + u64::MAX) by (nonlinear_arith);
    }
}

/// Reads a result file, refusing one that does not describe a whole match: a worker that
/// dies leaves a partial one behind.
pub fn parse_results(t: &str) -> (res: Result<Results, ResultsError>)
    ensures
        match res {
            Ok(r) => record_of(t@) == Ok::<Record, Fault>(r@),
            Err(e) => record_of(t@) == Err::<Record, Fault>(e@),
        },
{
    let ls = split_lines(&chars(t));
    let ghost all = texts(ls@);
    let mut r = Results::default();
    let mut seen: Vec<Vec<char>> = Vec::new();
    let mut i: usize = 0;
    assert(all.take(0) =~= Seq::<Seq<char>>::empty());
    assert(texts(seen@) =~= Seq::<Seq<char>>::empty());
    while i < ls.len()
        invariant
            i <= ls@.len(),
            all == texts(ls@),
            all == lines(t@),
            read_lines(all.take(i as int)) == Ok::<(Record, Seq<Seq<char>>), Fault>(
                (r@, texts(seen@)),
            ),
        decreases ls@.len() - i,
    {
        let line = &ls[i];
        assert(all.take(i + 1).drop_last() =~= all.take(i as int));
        assert(all.take(i + 1).last() == line@);
        match find_char(line, ' ') {
            None => {},
            Some(at) => {
                let k = cut(line, 0, at);
                let v = cut(line, at + 1, line.len());
                assert(k@ =~= line@.take(at as int));
                assert(v@ =~= line@.skip(at + 1));
                match set_value(&mut r, &k, &v) {
                    Err(e) => {
                        proof {
                            lemma_lines_error(all, i + 1, e@);
                        }
                        return Err(e);
                    },
                    Ok(_) => {},
                }
                let ghost was = seen@;
                let ghost key = k;
                seen.push(k);
                assert(texts(seen@) =~= texts(was).push(key@));
            },
        }
        i = i + 1;
    }
    assert(all.take(i as int) =~= all);
    match find_missing(&seen) {
        Some(k) => {
            return Err(ResultsError::Missing(k));
        },
        None => {},
    }
    match whole_fault(&r) {
        Some(e) => Err(e),
        None => Ok(r),
    }
}

impl Results {
    /// Reads a result file; what is wrong with one is said in words.
    pub fn from_text(t: &str) -> (res: Result<Results, String>)
        ensures
            match res {
                Ok(r) => record_of(t@) == Ok::<Record, Fault>(r@),
                Err(e) => record_of(t@) is Err && e@ == fault_text(
                    record_of(t@)->Err_0,
                    debug_text(quoted_value(record_of(t@)->Err_0)),
                ),
            },
    {
        match parse_results(t) {
            Ok(r) => Ok(r),
            Err(e) => Err(e.message()),
        }
    }
}

// --------------------------------------------------------------------------- adding

/// Why two records cannot be added: they did not measure the same thing.
pub open spec fn merge_fault(r: Record, o: Record) -> Option<Seq<char>> {
    if r.games == 0 {
        None
    } else if r.a != o.a || r.b != o.b {
        Some("refusing to merge "@ + r.a + " vs "@ + r.b + " with "@ + o.a + " vs "@ + o.b)
    } else if r.cycles_a != o.cycles_a || r.cycles_b != o.cycles_b {
        Some("refusing to merge runs with different budgets"@)
    } else if r.book != o.book {
        Some(
            "refusing to merge runs with different books ("@ + hex(r.book as nat, 16) + " vs "@
                + hex(o.book as nat, 16) + ")"@,
        )
    } else {
        None
    }
}

/// Counts added place by place.
pub open spec fn added(x: Seq<u64>, y: Seq<u64>) -> Seq<u64> {
    Seq::new(x.len(), |i: int| (x[i] + y[i]) as u64)
}

/// Whether the sums of two records can be held.
pub open spec fn sums_fit(r: Record, o: Record) -> bool {
    &&& forall|i: int| 0 <= i < 5 ==> #[trigger] r.penta[i] + o.penta[i] <= u64::MAX
    &&& forall|i: int| 0 <= i < 6 ==> #[trigger] r.failures[i] + o.failures[i] <= u64::MAX
    &&& r.wins_a + o.wins_a <= u64::MAX
    &&& r.draws + o.draws <= u64::MAX
    &&& r.wins_b + o.wins_b <= u64::MAX
    &&& r.plies + o.plies <= u64::MAX
    &&& r.games + o.games <= u64::MAX
    &&& r.cycles_sum + o.cycles_sum <= u64::MAX
    &&& r.cycles_n + o.cycles_n <= u64::MAX
}

/// The sum of two records. An empty one takes over what the other measured.
pub open spec fn merged(r: Record, o: Record) -> Record {
    Record {
        a: if r.games == 0 {
            o.a
        } else {
            r.a
        },
        b: if r.games == 0 {
            o.b
        } else {
            r.b
        },
        cycles_a: if r.games == 0 {
            o.cycles_a
        } else {
            r.cycles_a
        },
        cycles_b: if r.games == 0 {
            o.cycles_b
        } else {
            r.cycles_b
        },
        book: if r.games == 0 {
            o.book
        } else {
            r.book
        },
        penta: added(r.penta, o.penta),
        wins_a: (r.wins_a + o.wins_a) as u64,
        draws: (r.draws + o.draws) as u64,
        wins_b: (r.wins_b + o.wins_b) as u64,
        plies: (r.plies + o.plies) as u64,
        games: (r.games + o.games) as u64,
        cycles_sum: (r.cycles_sum + o.cycles_sum) as u64,
        cycles_n: (r.cycles_n + o.cycles_n) as u64,
        failures: added(r.failures, o.failures),
    }
}

impl Results {
    /// Why another run cannot be added, if it cannot.
    pub fn cannot_merge(&self, o: &Results) -> (res: Option<String>)
        ensures
            match res {
                Some(e) => merge_fault(self@, o@) == Some(e@),
                None => merge_fault(self@, o@) is None,
            },
    {
        if self.games == 0 {
            return None;
        }
        if self.a != o.a || self.b != o.b {
            let mut e = "refusing to merge ".to_owned();
            e.append(self.a.as_str());
            e.append(" vs ");
            e.append(self.b.as_str());
            e.append(" with ");
            e.append(o.a.as_str());
            e.append(" vs ");
            e.append(o.b.as_str());
            return Some(e);
        }
        if self.cycles_a != o.cycles_a || self.cycles_b != o.cycles_b {
            return Some("refusing to merge runs with different budgets".to_owned());
        }
        if self.book != o.book {
            let mut e = "refusing to merge runs with different books (".to_owned();
            push_hex(&mut e, self.book, 16);
            e.append(" vs ");
            push_hex(&mut e, o.book, 16);
            e.append(")");
            return Some(e);
        }
        None
    }

    /// Adds the results of another run, unless it measured something else: combining
    /// different engines, budgets or books would give a confident and meaningless number.
    pub fn merge(&mut self, o: &Results) -> (res: Result<(), String>)
        requires
            merge_fault(old(self)@, o@) is None ==> sums_fit(old(self)@, o@),
        ensures
            match res {
                Ok(_) => merge_fault(old(self)@, o@) is None && final(self)@ == merged(
                    old(self)@,
                    o@,
                ),
                Err(e) => merge_fault(old(self)@, o@) == Some(e@) && final(self)@ == old(self)@,
            },
    {
        let ghost r = self@;
        match self.cannot_merge(o) {
            Some(e) => {
                return Err(e);
            },
            None => {},
        }
        if self.games == 0 {
            self.a = o.a.clone();
            self.b = o.b.clone();
            self.cycles_a = o.cycles_a;
            self.cycles_b = o.cycles_b;
            self.book = o.book;
        }
        let mut i: usize = 0;
        let ghost mid = *self;
        while i < 5
            invariant
                i <= 5,
                sums_fit(r, o@),
                r.penta.len() == 5,
                *self == (Results { penta: self.penta, ..mid }),
                forall|j: int| 0 <= j < i ==> #[trigger] self.penta.counts@[j] == r.penta[j]
                    + o.penta.counts@[j],
                forall|j: int| i <= j < 5 ==> #[trigger] self.penta.counts@[j] == r.penta[j],
            decreases 5 - i,
        {
            assert(r.penta[i as int] + o@.penta[i as int] <= u64::MAX);
            self.penta.counts[i] = self.penta.counts[i] + o.penta.counts[i];
            i = i + 1;
        }
        assert(self.penta.counts@ =~= added(r.penta, o@.penta));
        let ghost mid = *self;
        i = 0;
        while i < 6
            invariant
                i <= 6,
                sums_fit(r, o@),
                r.failures.len() == 6,
                *self == (Results { failures: self.failures, ..mid }),
                forall|j: int| 0 <= j < i ==> #[trigger] self.failures@[j] == r.failures[j]
                    + o.failures@[j],
                forall|j: int| i <= j < 6 ==> #[trigger] self.failures@[j] == r.failures[j],
            decreases 6 - i,
        {
            assert(r.failures[i as int] + o@.failures[i as int] <= u64::MAX);
            self.failures[i] = self.failures[i] + o.failures[i];
            i = i + 1;
        }
        assert(self.failures@ =~= added(r.failures, o@.failures));
        self.wins_a = self.wins_a + o.wins_a;
        self.draws = self.draws + o.draws;
        self.wins_b = self.wins_b + o.wins_b;
        self.plies = self.plies + o.plies;
        self.games = self.games + o.games;
        self.cycles_sum = self.cycles_sum + o.cycles_sum;
        self.cycles_n = self.cycles_n + o.cycles_n;
        assert(self@ =~= merged(r, o@));
        Ok(())
    }
}

proof fn lemma_total_added(x: Seq<u64>, y: Seq<u64>)
    requires
        x.len() == y.len(),
        forall|i: int| 0 <= i < x.len() ==> #[trigger] x[i] + y[i] <= u64::MAX,
    ensures
        total(added(x, y)) == total(x) + total(y),
    decreases x.len(),
{
    if x.len() > 0 {
        let u = x.drop_last();
        let w = y.drop_last();
        assert forall|i: int| 0 <= i < u.len() implies #[trigger] u[i] + w[i] <= u64::MAX by {
            assert(x[i] + y[i] <= u64::MAX);
        }
        lemma_total_added(u, w);
        assert(added(x, y).drop_last() =~= added(u, w));
        assert(x[x.len() - 1] + y[x.len() - 1] <= u64::MAX);
    }
}

/// Adding two whole records gives a whole record: it names engines, has games, and both
/// identities still hold.
pub proof fn law_merge_keeps_records_whole(r: Record, o: Record)
    requires
        r.penta.len() == 5,
        o.penta.len() == 5,
        sums_fit(r, o),
        merge_fault(r, o) is None,
        record_fault(o) is None,
        record_fault(r) is None || r == blank(),
    ensures
        record_fault(merged(r, o)) is None,
{
    lemma_total_added(r.penta, o.penta);
    if r == blank() {
        lemma_total_zeros(5);
    }
}

proof fn lemma_total_zeros(n: nat)
    ensures
        total(crate::stats::zeros(n)) == 0,
    decreases n,
{
    if n > 0 {
        lemma_total_zeros((n - 1) as nat);
        assert(crate::stats::zeros(n).drop_last() =~= crate::stats::zeros((n - 1) as nat));
    }
}

/// The order in which runs are added does not matter.
pub proof fn law_merge_commutes(r: Record, o: Record)
    requires
        r.penta.len() == 5,
        o.penta.len() == 5,
        r.failures.len() == 6,
        o.failures.len() == 6,
        r.games > 0,
        o.games > 0,
        merge_fault(r, o) is None,
    ensures
        merge_fault(o, r) is None,
        merged(r, o) == merged(o, r),
{
    assert(merged(r, o).penta =~= merged(o, r).penta);
    assert(merged(r, o).failures =~= merged(o, r).failures);
}

/// Nor does it matter which runs are added up first.
pub proof fn law_merge_associates(r: Record, o: Record, x: Record)
    requires
        r.penta.len() == 5,
        o.penta.len() == 5,
        x.penta.len() == 5,
        r.failures.len() == 6,
        o.failures.len() == 6,
        x.failures.len() == 6,
        r.games > 0,
        o.games > 0,
        merge_fault(r, o) is None,
        merge_fault(o, x) is None,
        sums_fit(r, o),
        sums_fit(o, x),
        sums_fit(merged(r, o), x),
    ensures
        merge_fault(merged(r, o), x) is None,
        merge_fault(r, merged(o, x)) is None,
        merged(merged(r, o), x) == merged(r, merged(o, x)),
{
    assert forall|i: int| 0 <= i < 5 implies #[trigger] merged(r, o).penta[i] == r.penta[i]
        + o.penta[i] && merged(o, x).penta[i] == o.penta[i] + x.penta[i] by {
        assert(r.penta[i] + o.penta[i] <= u64::MAX);
        assert(o.penta[i] + x.penta[i] <= u64::MAX);
    }
    assert forall|i: int| 0 <= i < 6 implies #[trigger] merged(r, o).failures[i] == r.failures[i]
        + o.failures[i] && merged(o, x).failures[i] == o.failures[i] + x.failures[i] by {
        assert(r.failures[i] + o.failures[i] <= u64::MAX);
        assert(o.failures[i] + x.failures[i] <= u64::MAX);
    }
    let left = merged(merged(r, o), x);
    let right = merged(r, merged(o, x));
    assert forall|i: int| 0 <= i < 5 implies left.penta[i] == right.penta[i] by {
        assert(merged(r, o).penta[i] == r.penta[i] + o.penta[i]);
    }
    assert(left.penta =~= right.penta);
    assert forall|i: int| 0 <= i < 6 implies left.failures[i] == right.failures[i] by {
        assert(merged(r, o).failures[i] == r.failures[i] + o.failures[i]);
    }
    assert(left.failures =~= right.failures);
}

} // verus!
