//! What is read from the lines of a record.
use vstd::prelude::*;

use crate::results_laws::lemma_keys;
use crate::stats::{
    blank, csv_count, first_missing, index_from, key_value, needed, numbers_of, read_lines,
    record_fault, record_of, with_value, Fault, Record,
};
use crate::text::{bounded_number, just, lines, split, trim, words};

verus! {

/// Whether a text, with space about it or not, is this number in decimal.
pub open spec fn says(text: Seq<char>, n: u64) -> bool {
    bounded_number(trim(text), 10, 0xffff_ffff_ffff_ffff) == Some(n as nat)
}

proof fn lemma_says(text: Seq<char>)
    ensures
        bounded_number(trim(text), 10, u64::MAX as nat) matches Some(n) ==> says(text, n as u64)
            && n <= u64::MAX,
        (exists|n: u64| says(text, n)) ==> bounded_number(trim(text), 10, u64::MAX as nat) is Some,
{
}

/// The lines for single numbers each set their own field, to the number that they give, and no
/// other; a line that gives none is refused.
pub proof fn law_a_number_sets_its_field(r: Record, v: Seq<char>, n: u64)
    ensures
        says(v, n) ==> {
            &&& with_value(r, "cycles_a"@, v) == Ok::<Record, Fault>((Record { cycles_a: n, ..r }))
            &&& with_value(r, "cycles_b"@, v) == Ok::<Record, Fault>((Record { cycles_b: n, ..r }))
            &&& with_value(r, "plies"@, v) == Ok::<Record, Fault>((Record { plies: n, ..r }))
            &&& with_value(r, "games"@, v) == Ok::<Record, Fault>((Record { games: n, ..r }))
        },
        (forall|k: u64| !says(v, k)) ==> {
            &&& with_value(r, "cycles_a"@, v) == Err::<Record, Fault>(
                Fault::NotANumber("cycles_a"@, trim(v)),
            )
            &&& with_value(r, "cycles_b"@, v) == Err::<Record, Fault>(
                Fault::NotANumber("cycles_b"@, trim(v)),
            )
            &&& with_value(r, "plies"@, v) == Err::<Record, Fault>(
                Fault::NotANumber("plies"@, trim(v)),
            )
            &&& with_value(r, "games"@, v) == Err::<Record, Fault>(
                Fault::NotANumber("games"@, trim(v)),
            )
        },
{
    lemma_keys();
    lemma_says(v);
}

/// The lines for the engines set their names, without the space about them. The book is given
/// in hexadecimal. The version must be the first. A line under any other key says nothing.
pub proof fn law_names_and_book_set_their_fields(r: Record, v: Seq<char>, k: Seq<char>)
    ensures
        with_value(r, "a"@, v) == Ok::<Record, Fault>((Record { a: trim(v), ..r })),
        with_value(r, "b"@, v) == Ok::<Record, Fault>((Record { b: trim(v), ..r })),
        with_value(r, "book"@, v) == match bounded_number(trim(v), 16, 0xffff_ffff_ffff_ffff) {
            Some(n) => Ok::<Record, Fault>((Record { book: n as u64, ..r })),
            None => Err(Fault::NotHex(trim(v))),
        },
        with_value(r, "version"@, v) == if trim(v) == "1"@ {
            Ok::<Record, Fault>(r)
        } else {
            Err(Fault::Version(v))
        },
        k != "a"@ && k != "b"@ && k != "cycles_a"@ && k != "cycles_b"@ && k != "book"@ && k
            != "penta"@ && k != "wdl"@ && k != "plies"@ && k != "games"@ && k != "cycles"@ && k
            != "failures"@ && k != "version"@ ==> with_value(r, k, v) == Ok::<Record, Fault>(r),
{
    lemma_keys();
}

proof fn lemma_numbers_of(k: Seq<char>, parts: Seq<Seq<char>>)
    ensures
        numbers_of(k, parts) is Ok <==> forall|i: int|
            0 <= i < parts.len() ==> bounded_number(
                trim(#[trigger] parts[i]),
                10,
                u64::MAX as nat,
            ) is Some,
        numbers_of(k, parts) matches Ok(ns) ==> ns.len() == parts.len() && forall|i: int|
            0 <= i < parts.len() ==> says(#[trigger] parts[i], ns[i]),
    decreases parts.len(),
{
    if parts.len() > 0 {
        let front = parts.drop_last();
        lemma_numbers_of(k, front);
        if numbers_of(k, parts) is Ok {
            let ns = numbers_of(k, parts)->Ok_0;
            let few = numbers_of(k, front)->Ok_0;
            assert forall|i: int| 0 <= i < parts.len() implies bounded_number(
                trim(#[trigger] parts[i]),
                10,
                u64::MAX as nat,
            ) is Some && says(parts[i], ns[i]) by {
                if i < front.len() {
                    assert(says(front[i], few[i]));
                    assert(ns[i] == few[i]);
                }
            }
        }
        if forall|i: int|
            0 <= i < parts.len() ==> bounded_number(
                trim(#[trigger] parts[i]),
                10,
                u64::MAX as nat,
            ) is Some {
            assert forall|i: int| 0 <= i < front.len() implies bounded_number(
                trim(#[trigger] front[i]),
                10,
                u64::MAX as nat,
            ) is Some by {
                assert(bounded_number(trim(parts[i]), 10, u64::MAX as nat) is Some);
            }
            assert(bounded_number(trim(parts[parts.len() - 1]), 10, u64::MAX as nat) is Some);
        }
    }
}

/// The lines for several numbers give them with commas between: five pairs, wins and draws and
/// losses in this order, six failures. They set their own fields and no other; with more or
/// fewer, or with one that is no number, they are refused.
pub proof fn law_lists_set_their_fields(r: Record, v: Seq<char>)
    ensures
        ({
            let parts = split(v, just(','));
            let numbers = forall|i: int|
                0 <= i < parts.len() ==> bounded_number(
                    trim(#[trigger] parts[i]),
                    10,
                    0xffff_ffff_ffff_ffff,
                ) is Some;
            &&& with_value(r, "penta"@, v) is Ok <==> parts.len() == 5 && numbers
            &&& with_value(r, "wdl"@, v) is Ok <==> parts.len() == 3 && numbers
            &&& with_value(r, "failures"@, v) is Ok <==> parts.len() == 6 && numbers
            &&& with_value(r, "penta"@, v) matches Ok(x) ==> x == (Record { penta: x.penta, ..r })
                && x.penta.len() == 5 && forall|i: int|
                0 <= i < 5 ==> says(#[trigger] parts[i], x.penta[i])
            &&& with_value(r, "wdl"@, v) matches Ok(x) ==> x == (Record {
                wins_a: x.wins_a,
                draws: x.draws,
                wins_b: x.wins_b,
                ..r
            }) && says(parts[0], x.wins_a) && says(parts[1], x.draws) && says(parts[2], x.wins_b)
            &&& with_value(r, "failures"@, v) matches Ok(x) ==> x == (Record {
                failures: x.failures,
                ..r
            }) && x.failures.len() == 6 && forall|i: int|
                0 <= i < 6 ==> says(#[trigger] parts[i], x.failures[i])
        }),
{
    lemma_keys();
    let parts = split(v, just(','));
    lemma_numbers_of("penta"@, parts);
    lemma_numbers_of("wdl"@, parts);
    lemma_numbers_of("failures"@, parts);
}

/// The line for cycles gives their sum and how many moves it is over.
pub proof fn law_cycles_set_their_fields(r: Record, v: Seq<char>, x: u64, y: u64)
    requires
        words(v).len() == 2,
        says(words(v)[0], x),
        says(words(v)[1], y),
    ensures
        with_value(r, "cycles"@, v) == Ok::<Record, Fault>(
            (Record { cycles_sum: x, cycles_n: y, ..r }),
        ),
{
    lemma_keys();
}

proof fn lemma_index_from(k: Seq<char>, v: Seq<char>, i: int)
    requires
        0 <= i <= k.len(),
        forall|j: int| 0 <= j < k.len() ==> #[trigger] k[j] != ' ',
    ensures
        index_from(k.push(' ') + v, ' ', i) == Some(k.len() as int),
    decreases k.len() - i,
{
    let line = k.push(' ') + v;
    if i < k.len() {
        assert(line[i] == k[i]);
        lemma_index_from(k, v, i + 1);
    }
}

proof fn lemma_no_index(line: Seq<char>, i: int)
    requires
        0 <= i <= line.len(),
        forall|j: int| 0 <= j < line.len() ==> #[trigger] line[j] != ' ',
    ensures
        index_from(line, ' ', i) is None,
    decreases line.len() - i,
{
    if i < line.len() {
        let c = line[i];
        lemma_no_index(line, i + 1);
    }
}

/// The key of a line is what stands before its first space, and its value what stands behind. A
/// line without a space has neither.
pub proof fn law_the_first_space_ends_the_key(k: Seq<char>, v: Seq<char>)
    requires
        forall|j: int| 0 <= j < k.len() ==> #[trigger] k[j] != ' ',
    ensures
        key_value(k.push(' ') + v) == Some((k, v)),
        key_value(k) is None,
{
    lemma_index_from(k, v, 0);
    lemma_no_index(k, 0);
    let line = k.push(' ') + v;
    assert(line.take(k.len() as int) =~= k);
    assert(line.skip(k.len() as int + 1) =~= v);
}

/// Lines are read one after the other, the later over the earlier; one without a value is
/// passed over, and one that cannot be read spoils the whole.
pub proof fn law_lines_are_read_in_order(ls: Seq<Seq<char>>, l: Seq<char>)
    ensures
        read_lines(Seq::<Seq<char>>::empty()) == Ok::<(Record, Seq<Seq<char>>), Fault>(
            (blank(), Seq::<Seq<char>>::empty()),
        ),
        read_lines(ls) is Err ==> read_lines(ls.push(l)) == read_lines(ls),
        key_value(l) is None ==> read_lines(ls.push(l)) == read_lines(ls),
        read_lines(ls) matches Ok((r, seen)) ==> (key_value(l) matches Some((k, v)) ==> match with_value(
            r,
            k,
            v,
        ) {
            Ok(x) => read_lines(ls.push(l)) == Ok::<(Record, Seq<Seq<char>>), Fault>(
                (x, seen.push(k)),
            ),
            Err(e) => read_lines(ls.push(l)) == Err::<(Record, Seq<Seq<char>>), Fault>(e),
        }),
{
    assert(ls.push(l).drop_last() =~= ls);
}

proof fn lemma_first_missing(seen: Seq<Seq<char>>, i: int)
    requires
        0 <= i <= 8,
    ensures
        first_missing(seen, i) is None <==> forall|j: int|
            i <= j < 8 ==> seen.contains(#[trigger] needed()[j]),
    decreases 8 - i,
{
    if i < 8 {
        let k = needed()[i];
        if seen.contains(k) {
            lemma_first_missing(seen, i + 1);
        }
    }
}

/// A record is read just when every line can be, no key is missing that must be there, and it
/// adds up.
pub proof fn law_records_are_complete(t: Seq<char>)
    ensures
        record_of(t) is Ok <==> (read_lines(lines(t)) matches Ok((r, seen)) && seen.contains("a"@)
            && seen.contains("b"@) && seen.contains("cycles_a"@) && seen.contains("cycles_b"@)
            && seen.contains("book"@) && seen.contains("games"@) && seen.contains("wdl"@)
            && seen.contains("penta"@) && record_fault(r) is None),
        record_of(t) matches Ok(x) ==> read_lines(lines(t)) matches Ok((r, _)) && x == r,
{
    if let Ok((r, seen)) = read_lines(lines(t)) {
        lemma_first_missing(seen, 0);
        let n = needed();
        assert(n[0] == "a"@ && n[1] == "b"@ && n[2] == "cycles_a"@ && n[3] == "cycles_b"@ && n[4]
            == "book"@ && n[5] == "games"@ && n[6] == "wdl"@ && n[7] == "penta"@);
    }
}

/// A record that nothing was read into is empty.
pub proof fn law_a_blank_record_counts_nothing(i: int)
    ensures
        blank().games == 0 && blank().wins_a == 0 && blank().draws == 0 && blank().wins_b == 0,
        blank().plies == 0 && blank().cycles_sum == 0 && blank().cycles_n == 0,
        blank().cycles_a == 0 && blank().cycles_b == 0 && blank().book == 0,
        blank().a.len() == 0 && blank().b.len() == 0,
        blank().penta.len() == 5 && blank().failures.len() == 6,
        0 <= i < 5 ==> blank().penta[i] == 0,
        0 <= i < 6 ==> blank().failures[i] == 0,
{
}

/// A list of counts is read by its commas; a count that is left out or is no number is nought.
pub proof fn law_counts_are_read_by_commas(s: Seq<char>, i: int, n: u64)
    requires
        0 <= i,
    ensures
        i >= split(s, just(',')).len() ==> csv_count(s, i) == 0,
        i < split(s, just(',')).len() && says(split(s, just(','))[i], n) ==> csv_count(s, i) == n,
        i < split(s, just(',')).len() && (forall|k: u64| !says(split(s, just(','))[i], k))
            ==> csv_count(s, i) == 0,
{
    if i < split(s, just(',')).len() {
        lemma_says(split(s, just(','))[i]);
    }
}

} // verus!
