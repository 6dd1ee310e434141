//! The results of a match: how they are counted, written, read back and added up.
use vstd::prelude::*;

use crate::text::{
    bounded_number, chars, decimal, hex, join, just, lines, push_decimal, push_hex, read_number,
    split, split_at, texts, trim, trimmed, words,
};

verus! {

// ------------------------------------------------------------------ pairs of games

/// Pentanomial counts. An opening is played twice with colours reversed, and what the pair
/// scores, in half points from nothing to four, is the unit of observation.
#[derive(Clone, Copy)]
pub struct Penta {
    pub counts: [u64; 5],
}

/// The sum of some counts.
pub open spec fn total(s: Seq<u64>) -> int
    decreases s.len(),
{
    if s.len() == 0 {
        0
    } else {
        total(s.drop_last()) + s.last()
    }
}

/// The count in place `i` of a comma-separated list; what is missing or unreadable is zero.
pub open spec fn csv_count(s: Seq<char>, i: int) -> int {
    let pieces = split(s, just(','));
    if i < pieces.len() {
        match bounded_number(trim(pieces[i]), 10, u64::MAX as nat) {
            Some(n) => n as int,
            None => 0,
        }
    } else {
        0
    }
}

/// The sum of some counts.
pub fn sum(s: &[u64]) -> (n: u128)
    requires
        s@.len() <= 16,
    ensures
        n == total(s@),
{
    let mut n: u128 = 0;
    let mut i: usize = 0;
    assert(s@.take(0) =~= Seq::<u64>::empty());
    while i < s.len()
        invariant
            i <= s@.len() <= 16,
            n == total(s@.take(i as int)),
            n <= i * u64::MAX,
        decreases s@.len() - i,
    {
        assert(s@.take(i + 1).drop_last() =~= s@.take(i as int));
        n = n + s[i] as u128;
        i = i + 1;
    }
    assert(s@.take(i as int) =~= s@);
    n
}

impl Penta {
    pub fn new() -> (p: Penta)
        ensures
            p.counts@ == seq![0u64, 0, 0, 0, 0],
    {
        let p = Penta { counts: [0, 0, 0, 0, 0] };
        assert(p.counts@ =~= seq![0u64, 0, 0, 0, 0]);
        p
    }

    /// Counts a pair that scored `half_points`; more than four count as four.
    pub fn add(&mut self, half_points: usize)
        requires
            old(self).counts@[if half_points < 4 {
                half_points as int
            } else {
                4
            }] < u64::MAX,
        ensures
            ({
                let i = if half_points < 4 {
                    half_points as int
                } else {
                    4
                };
                final(self).counts@ == old(self).counts@.update(
                    i,
                    (old(self).counts@[i] + 1) as u64,
                )
            }),
    {
        let i = if half_points < 4 {
            half_points
        } else {
            4
        };
        self.counts[i] = self.counts[i] + 1;
        assert(self.counts@ =~= old(self).counts@.update(
            i as int,
            (old(self).counts@[i as int] + 1) as u64,
        ));
    }

    /// How many pairs were counted.
    pub fn pairs(&self) -> (n: u64)
        requires
            total(self.counts@) <= u64::MAX,
        ensures
            n == total(self.counts@),
    {
        sum(&self.counts) as u64
    }

    /// The counts from their comma-separated form.
    pub fn from_csv(text: &str) -> (p: Penta)
        ensures
            forall|i: int| 0 <= i < 5 ==> #[trigger] p.counts@[i] == csv_count(text@, i),
    {
        let pieces = split_at(&chars(text), ',');
        let mut p = Penta::new();
        let mut i: usize = 0;
        while i < 5
            invariant
                i <= 5,
                texts(pieces@) == split(text@, just(',')),
                forall|j: int| 0 <= j < i ==> #[trigger] p.counts@[j] == csv_count(text@, j),
                forall|j: int| i <= j < 5 ==> #[trigger] p.counts@[j] == 0,
            decreases 5 - i,
        {
            if i < pieces.len() {
                match read_number(&trimmed(&pieces[i]), 10, u64::MAX) {
                    Some(n) => {
                        p.counts[i] = n;
                    },
                    None => {},
                }
            }
            i = i + 1;
        }
        p
    }
}

// ------------------------------------------------------------------------- a record

/// Everything a match produces, in a form that can be written down and added up.
#[derive(Clone)]
pub struct Results {
    pub a: String,
    pub b: String,
    pub cycles_a: u64,
    pub cycles_b: u64,
    pub book: u64,
    pub penta: Penta,
    pub wins_a: u64,
    pub draws: u64,
    pub wins_b: u64,
    pub plies: u64,
    pub games: u64,
    pub cycles_sum: u64,
    pub cycles_n: u64,
    pub failures: [u64; 6],
}

/// The same with its texts and lists as sequences.
#[verifier::ext_equal]
pub struct Record {
    pub a: Seq<char>,
    pub b: Seq<char>,
    pub cycles_a: u64,
    pub cycles_b: u64,
    pub book: u64,
    pub penta: Seq<u64>,
    pub wins_a: u64,
    pub draws: u64,
    pub wins_b: u64,
    pub plies: u64,
    pub games: u64,
    pub cycles_sum: u64,
    pub cycles_n: u64,
    pub failures: Seq<u64>,
}

pub open spec fn zeros(n: nat) -> Seq<u64> {
    Seq::new(n, |i: int| 0u64)
}

/// A record of nothing.
pub open spec fn blank() -> Record {
    Record {
        a: Seq::<char>::empty(),
        b: Seq::<char>::empty(),
        cycles_a: 0,
        cycles_b: 0,
        book: 0,
        penta: zeros(5),
        wins_a: 0,
        draws: 0,
        wins_b: 0,
        plies: 0,
        games: 0,
        cycles_sum: 0,
        cycles_n: 0,
        failures: zeros(6),
    }
}

impl Results {
    pub open spec fn view(&self) -> Record {
        Record {
            a: self.a@,
            b: self.b@,
            cycles_a: self.cycles_a,
            cycles_b: self.cycles_b,
            book: self.book,
            penta: self.penta.counts@,
            wins_a: self.wins_a,
            draws: self.draws,
            wins_b: self.wins_b,
            plies: self.plies,
            games: self.games,
            cycles_sum: self.cycles_sum,
            cycles_n: self.cycles_n,
            failures: self.failures@,
        }
    }
}

impl Default for Results {
    fn default() -> (r: Results)
        ensures
            r@ == blank(),
    {
        let r = Results {
            a: String::new(),
            b: String::new(),
            cycles_a: 0,
            cycles_b: 0,
            book: 0,
            penta: Penta::new(),
            wins_a: 0,
            draws: 0,
            wins_b: 0,
            plies: 0,
            games: 0,
            cycles_sum: 0,
            cycles_n: 0,
            failures: [0, 0, 0, 0, 0, 0],
        };
        assert(r.penta.counts@ =~= zeros(5));
        assert(r.failures@ =~= zeros(6));
        assert(r@ =~= blank());
        r
    }
}

// -------------------------------------------------------------------------- writing

/// A text with one more line, which gives `key` the value `value`.
pub open spec fn with_line(t: Seq<char>, key: Seq<char>, value: Seq<char>) -> Seq<char> {
    (t + key.push(' ') + value).push('\n')
}

/// Numbers with commas between them.
pub open spec fn number_list(s: Seq<u64>) -> Seq<char> {
    join(s.map_values(|n: u64| decimal(n as nat)), ","@)
}

impl Record {
    /// The text of a record.
    pub open spec fn text(self) -> Seq<char> {
        let t0 = with_line(Seq::<char>::empty(), "version"@, "1"@);
        let t1 = with_line(t0, "a"@, self.a);
        let t2 = with_line(t1, "b"@, self.b);
        let t3 = with_line(t2, "cycles_a"@, decimal(self.cycles_a as nat));
        let t4 = with_line(t3, "cycles_b"@, decimal(self.cycles_b as nat));
        let t5 = with_line(t4, "book"@, hex(self.book as nat, 16));
        let t6 = with_line(t5, "penta"@, number_list(self.penta));
        let t7 = with_line(t6, "wdl"@, number_list(seq![self.wins_a, self.draws, self.wins_b]));
        let t8 = with_line(t7, "plies"@, decimal(self.plies as nat));
        let t9 = with_line(t8, "games"@, decimal(self.games as nat));
        let t10 = with_line(
            t9,
            "cycles"@,
            decimal(self.cycles_sum as nat).push(' ') + decimal(self.cycles_n as nat),
        );
        with_line(t10, "failures"@, number_list(self.failures))
    }
}

fn push_line(out: &mut String, key: &str, value: &str)
    ensures
        final(out)@ == with_line(old(out)@, key@, value@),
{
    let ghost before = out@;
    out.append(key);
    out.push(' ');
    out.append(value);
    out.push('\n');
    assert(out@ =~= with_line(before, key@, value@));
}

fn decimal_string(n: u64) -> (s: String)
    ensures
        s@ == decimal(n as nat),
{
    let mut s = String::new();
    push_decimal(&mut s, n as u128);
    assert(s@ =~= decimal(n as nat));
    s
}

fn list_string(v: &[u64]) -> (s: String)
    ensures
        s@ == number_list(v@),
{
    let ghost parts = v@.map_values(|n: u64| decimal(n as nat));
    let mut s = String::new();
    let mut i: usize = 0;
    assert(s@ =~= join(parts.take(0), ","@));
    while i < v.len()
        invariant
            i <= v@.len(),
            parts == v@.map_values(|n: u64| decimal(n as nat)),
            s@ == join(parts.take(i as int), ","@),
        decreases v@.len() - i,
    {
        assert(parts.take(i + 1).drop_last() =~= parts.take(i as int));
        assert(parts.take(i + 1).last() == decimal(v@[i as int] as nat));
        if i > 0 {
            s.append(",");
        }
        push_decimal(&mut s, v[i] as u128);
        assert(s@ =~= join(parts.take(i + 1), ","@));
        i = i + 1;
    }
    assert(parts.take(i as int) =~= parts);
    s
}

impl Results {
    /// The text of the results.
    pub fn to_text(&self) -> (s: String)
        ensures
            s@ == self@.text(),
    {
        let mut s = String::new();
        assert(s@ =~= Seq::<char>::empty());
        push_line(&mut s, "version", "1");
        push_line(&mut s, "a", self.a.as_str());
        push_line(&mut s, "b", self.b.as_str());
        push_line(&mut s, "cycles_a", decimal_string(self.cycles_a).as_str());
        push_line(&mut s, "cycles_b", decimal_string(self.cycles_b).as_str());
        let mut book = String::new();
        push_hex(&mut book, self.book, 16);
        assert(book@ =~= hex(self.book as nat, 16));
        push_line(&mut s, "book", book.as_str());
        push_line(&mut s, "penta", list_string(&self.penta.counts).as_str());
        let wdl: [u64; 3] = [self.wins_a, self.draws, self.wins_b];
        assert(wdl@ =~= seq![self.wins_a, self.draws, self.wins_b]);
        push_line(&mut s, "wdl", list_string(&wdl).as_str());
        push_line(&mut s, "plies", decimal_string(self.plies).as_str());
        push_line(&mut s, "games", decimal_string(self.games).as_str());
        let mut cycles = decimal_string(self.cycles_sum);
        cycles.push(' ');
        push_decimal(&mut cycles, self.cycles_n as u128);
        push_line(&mut s, "cycles", cycles.as_str());
        push_line(&mut s, "failures", list_string(&self.failures).as_str());
        s
    }
}

// -------------------------------------------------------------------------- reading

/// What the lines of a record are about.
#[derive(Clone, Copy, PartialEq, Eq, Structural)]
pub enum Key {
    Version,
    A,
    B,
    CyclesA,
    CyclesB,
    Book,
    Penta,
    Wdl,
    Plies,
    Games,
    Cycles,
    Failures,
    Unknown,
}

pub open spec fn key_of(k: Seq<char>) -> Key {
    if k == "a"@ {
        Key::A
    } else if k == "b"@ {
        Key::B
    } else if k == "cycles_a"@ {
        Key::CyclesA
    } else if k == "cycles_b"@ {
        Key::CyclesB
    } else if k == "book"@ {
        Key::Book
    } else if k == "penta"@ {
        Key::Penta
    } else if k == "wdl"@ {
        Key::Wdl
    } else if k == "plies"@ {
        Key::Plies
    } else if k == "games"@ {
        Key::Games
    } else if k == "cycles"@ {
        Key::Cycles
    } else if k == "failures"@ {
        Key::Failures
    } else if k == "version"@ {
        Key::Version
    } else {
        Key::Unknown
    }
}

/// What can be wrong with a record.
pub enum Fault {
    /// The value of this key is not a number.
    NotANumber(Seq<char>, Seq<char>),
    /// The value of this key holds so many values, not the expected number.
    WrongCount(Seq<char>, nat, nat),
    NotHex(Seq<char>),
    Version(Seq<char>),
    Missing(Seq<char>),
    NoEngines,
    NoGames,
    /// So many wins, draws and losses over so many games.
    Uneven(nat, nat),
    /// The pairs cover so many games, not so many.
    Uncovered(nat, nat),
}

/// Where `c` occurs first from `i` on.
pub open spec fn index_from(s: Seq<char>, c: char, i: int) -> Option<int>
    decreases s.len() - i,
{
    if i < 0 || i >= s.len() {
        None
    } else if s[i] == c {
        Some(i)
    } else {
        index_from(s, c, i + 1)
    }
}

/// A line as a key and a value: what stands before and behind its first space.
pub open spec fn key_value(line: Seq<char>) -> Option<(Seq<char>, Seq<char>)> {
    match index_from(line, ' ', 0) {
        Some(i) => Some((line.take(i), line.skip(i + 1))),
        None => None,
    }
}

pub open spec fn number_of(k: Seq<char>, v: Seq<char>) -> Result<u64, Fault> {
    match bounded_number(trim(v), 10, u64::MAX as nat) {
        Some(n) => Ok(n as u64),
        None => Err(Fault::NotANumber(k, trim(v))),
    }
}

/// The numbers of some texts, or the first that is none.
pub open spec fn numbers_of(k: Seq<char>, parts: Seq<Seq<char>>) -> Result<Seq<u64>, Fault>
    decreases parts.len(),
{
    if parts.len() == 0 {
        Ok(Seq::<u64>::empty())
    } else {
        match numbers_of(k, parts.drop_last()) {
            Err(e) => Err(e),
            Ok(ns) => match bounded_number(trim(parts.last()), 10, u64::MAX as nat) {
                Some(n) => Ok(ns.push(n as u64)),
                None => Err(Fault::NotANumber(k, trim(parts.last()))),
            },
        }
    }
}

/// Exactly `n` numbers with commas between them.
pub open spec fn list_of(k: Seq<char>, v: Seq<char>, n: nat) -> Result<Seq<u64>, Fault> {
    let parts = split(v, just(','));
    if parts.len() != n {
        Err(Fault::WrongCount(k, parts.len(), n))
    } else {
        numbers_of(k, parts)
    }
}

/// A record after one line.
pub open spec fn with_value(r: Record, k: Seq<char>, v: Seq<char>) -> Result<Record, Fault> {
    match key_of(k) {
        Key::A => Ok(Record { a: trim(v), ..r }),
        Key::B => Ok(Record { b: trim(v), ..r }),
        Key::CyclesA => match number_of(k, v) {
            Ok(n) => Ok(Record { cycles_a: n, ..r }),
            Err(e) => Err(e),
        },
        Key::CyclesB => match number_of(k, v) {
            Ok(n) => Ok(Record { cycles_b: n, ..r }),
            Err(e) => Err(e),
        },
        Key::Book => match bounded_number(trim(v), 16, u64::MAX as nat) {
            Some(n) => Ok(Record { book: n as u64, ..r }),
            None => Err(Fault::NotHex(trim(v))),
        },
        Key::Penta => match list_of(k, v, 5) {
            Ok(ns) => Ok(Record { penta: ns, ..r }),
            Err(e) => Err(e),
        },
        Key::Wdl => match list_of(k, v, 3) {
            Ok(ns) => Ok(Record { wins_a: ns[0], draws: ns[1], wins_b: ns[2], ..r }),
            Err(e) => Err(e),
        },
        Key::Plies => match number_of(k, v) {
            Ok(n) => Ok(Record { plies: n, ..r }),
            Err(e) => Err(e),
        },
        Key::Games => match number_of(k, v) {
            Ok(n) => Ok(Record { games: n, ..r }),
            Err(e) => Err(e),
        },
        Key::Cycles => {
            let w = words(v);
            if w.len() != 2 {
                Err(Fault::WrongCount(k, w.len(), 2))
            } else {
                match (number_of(k, w[0]), number_of(k, w[1])) {
                    (Err(e), _) => Err(e),
                    (Ok(_), Err(e)) => Err(e),
                    (Ok(x), Ok(y)) => Ok(Record { cycles_sum: x, cycles_n: y, ..r }),
                }
            }
        },
        Key::Failures => match list_of(k, v, 6) {
            Ok(ns) => Ok(Record { failures: ns, ..r }),
            Err(e) => Err(e),
        },
        Key::Version => if trim(v) == "1"@ {
            Ok(r)
        } else {
            Err(Fault::Version(v))
        },
        Key::Unknown => Ok(r),
    }
}

/// The record that lines make, and the keys that were seen. A line without a space says
/// nothing.
pub open spec fn read_lines(ls: Seq<Seq<char>>) -> Result<(Record, Seq<Seq<char>>), Fault>
    decreases ls.len(),
{
    if ls.len() == 0 {
        Ok((blank(), Seq::<Seq<char>>::empty()))
    } else {
        match read_lines(ls.drop_last()) {
            Err(e) => Err(e),
            Ok((r, seen)) => match key_value(ls.last()) {
                None => Ok((r, seen)),
                Some((k, v)) => match with_value(r, k, v) {
                    Err(e) => Err(e),
                    Ok(r) => Ok((r, seen.push(k))),
                },
            },
        }
    }
}

/// The keys without which a record is not whole.
pub open spec fn needed() -> Seq<Seq<char>> {
    seq!["a"@, "b"@, "cycles_a"@, "cycles_b"@, "book"@, "games"@, "wdl"@, "penta"@]
}

/// The first of the needed keys from `i` on that was not seen.
pub open spec fn first_missing(seen: Seq<Seq<char>>, i: int) -> Option<Seq<char>>
    decreases 8 - i,
{
    if i < 0 || i >= 8 {
        None
    } else if !seen.contains(needed()[i]) {
        Some(needed()[i])
    } else {
        first_missing(seen, i + 1)
    }
}

/// What is wrong with a record as a whole. Two identities hold of every record of whole
/// pairs: wins, draws and losses add up to the games, and so does twice the number of pairs.
pub open spec fn record_fault(r: Record) -> Option<Fault> {
    if r.a.len() == 0 || r.b.len() == 0 {
        Some(Fault::NoEngines)
    } else if r.games == 0 {
        Some(Fault::NoGames)
    } else if r.wins_a + r.draws + r.wins_b != r.games {
        Some(Fault::Uneven((r.wins_a + r.draws + r.wins_b) as nat, r.games as nat))
    } else if 2 * total(r.penta) != r.games {
        Some(Fault::Uncovered((2 * total(r.penta)) as nat, r.games as nat))
    } else {
        None
    }
}

/// The record that a text describes, or the first thing that is wrong with it.
pub open spec fn record_of(t: Seq<char>) -> Result<Record, Fault> {
    match read_lines(lines(t)) {
        Err(e) => Err(e),
        Ok((r, seen)) => match (first_missing(seen, 0), record_fault(r)) {
            (Some(k), _) => Err(Fault::Missing(k)),
            (None, Some(e)) => Err(e),
            (None, None) => Ok(r),
        },
    }
}

} // verus!
