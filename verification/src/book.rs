//! The opening book: a frozen list of openings and the checksum that guards it.
use vstd::prelude::*;

use crate::text::{
    bounded_number, chars, cut, has_prefix, hex, lines, push_hex, read_number, split_lines,
    starts_with, string, texts, trim, trimmed,
};

verus! {

pub const BOOK: &'static str = "book.txt";

// -------------------------------------------------------------------------- checksum

/// One byte taken into the checksum.
pub open spec fn taken(h: u64, byte: u8) -> u64 {
    (h ^ (byte as u64)).wrapping_mul(0x1000_0000_01b3)
}

/// Bytes taken into the checksum.
pub open spec fn all_taken(h: u64, bytes: Seq<u8>) -> u64
    decreases bytes.len(),
{
    if bytes.len() == 0 {
        h
    } else {
        taken(all_taken(h, bytes.drop_last()), bytes.last())
    }
}

/// The checksum of some lines: the bytes of each, and a byte that no text holds behind it.
pub open spec fn lines_sum(v: Seq<Seq<char>>) -> u64
    decreases v.len(),
{
    if v.len() == 0 {
        0xcbf2_9ce4_8422_2325
    } else {
        taken(all_taken(lines_sum(v.drop_last()), vstd::utf8::encode_utf8(v.last())), 0xff)
    }
}

/// The texts of some strings.
pub open spec fn texts_of(v: Seq<String>) -> Seq<Seq<char>> {
    v.map_values(|s: String| s@)
}

fn take_byte(h: u64, byte: u8) -> (r: u64)
    ensures
        r == taken(h, byte),
{
    (h ^ byte as u64).wrapping_mul(0x1000_0000_01b3)
}

/// A checksum over the openings, so that two players can tell whether they test against the
/// same book.
pub fn checksum(openings: &[String]) -> (h: u64)
    ensures
        h == lines_sum(texts_of(openings@)),
{
    let mut h: u64 = 0xcbf2_9ce4_8422_2325;
    let mut i: usize = 0;
    let ghost all = texts_of(openings@);
    assert(all.take(0) =~= Seq::<Seq<char>>::empty());
    while i < openings.len()
        invariant
            i <= openings@.len(),
            all == texts_of(openings@),
            h == lines_sum(all.take(i as int)),
        decreases openings@.len() - i,
    {
        let bytes = openings[i].as_str().as_bytes();
        let ghost before = h;
        let mut j: usize = 0;
        assert(bytes@.take(0) =~= Seq::<u8>::empty());
        while j < bytes.len()
            invariant
                j <= bytes@.len(),
                h == all_taken(before, bytes@.take(j as int)),
            decreases bytes@.len() - j,
        {
            assert(bytes@.take(j + 1).drop_last() =~= bytes@.take(j as int));
            h = take_byte(h, bytes[j]);
            j = j + 1;
        }
        assert(bytes@.take(j as int) =~= bytes@);
        assert(all.take(i + 1).drop_last() =~= all.take(i as int));
        assert(all.take(i + 1).last() == openings@[i as int]@);
        h = take_byte(h, 0xff);
        i = i + 1;
    }
    assert(all.take(i as int) =~= all);
    h
}

// --------------------------------------------------------------------------- reading

pub open spec fn header() -> Seq<char> {
    "# checksum="@
}

/// Whether a line is an opening: it is not a comment and not blank.
pub open spec fn is_opening(line: Seq<char>) -> bool {
    !starts_with(line, "#"@) && trim(line).len() > 0
}

/// The openings among some lines.
pub open spec fn openings_of(ls: Seq<Seq<char>>) -> Seq<Seq<char>> {
    ls.filter(|l: Seq<char>| !starts_with(l, header()) && is_opening(l))
}

/// The checksum that the last header line declares, if it can be read.
pub open spec fn declared(ls: Seq<Seq<char>>) -> Option<u64>
    decreases ls.len(),
{
    if ls.len() == 0 {
        None
    } else if starts_with(ls.last(), header()) {
        match bounded_number(
            trim(ls.last().skip(header().len() as int)),
            16,
            u64::MAX as nat,
        ) {
            Some(n) => Some(n as u64),
            None => None,
        }
    } else {
        declared(ls.drop_last())
    }
}

/// The openings of a book, or why it is refused.
pub open spec fn book_of(text: Seq<char>) -> Result<Seq<Seq<char>>, Seq<char>> {
    let ls = lines(text);
    let openings = openings_of(ls);
    let actual = lines_sum(openings);
    if openings.len() == 0 {
        Err(BOOK@ + " contains no openings"@)
    } else {
        match declared(ls) {
            None => Err(
                BOOK@
                    + " has no readable '# checksum=' header. The book is part of the              rules; restore it from git."@,
            ),
            Some(d) => if d != actual {
                Err(
                    BOOK@ + " checksum mismatch: header says "@ + hex(d as nat, 16)
                        + ", contents hash to "@ + hex(actual as nat, 16)
                        + ".\n  The book has been edited. Both players must use an identical book."@,
                )
            } else {
                Ok(openings)
            },
        }
    }
}

/// Reads the book from its text. A book without openings, without a readable checksum, or
/// with another checksum than it declares is refused: results from different books would be
/// quietly incomparable.
pub fn load(text: &str) -> (res: Result<Vec<String>, String>)
    ensures
        match res {
            Ok(v) => book_of(text@) == Ok::<Seq<Seq<char>>, Seq<char>>(texts_of(v@)),
            Err(e) => book_of(text@) == Err::<Seq<Seq<char>>, Seq<char>>(e@),
        },
{
    let ls = split_lines(&chars(text));
    let ghost all = texts(ls@);
    let ghost keep = |l: Seq<char>| !starts_with(l, header()) && is_opening(l);
    let mut known: Option<u64> = None;
    let mut openings: Vec<String> = Vec::new();
    let mut i: usize = 0;
    assert(all.take(0) =~= Seq::<Seq<char>>::empty());
    assert(texts_of(openings@) =~= all.take(0).filter(keep)) by {
        reveal(Seq::filter);
    }
    while i < ls.len()
        invariant
            i <= ls@.len(),
            all == texts(ls@),
            all == lines(text@),
            keep == (|l: Seq<char>| !starts_with(l, header()) && is_opening(l)),
            known == declared(all.take(i as int)),
            texts_of(openings@) == all.take(i as int).filter(keep),
        decreases ls@.len() - i,
    {
        let line = &ls[i];
        proof {
            crate::legality::lemma_filter_step(all, keep, i as int);
            assert(all.take(i + 1).drop_last() =~= all.take(i as int));
            assert(all.take(i + 1).last() == line@);
            assert(all[i as int] == line@);
            reveal_strlit("# checksum=");
        }
        if has_prefix(line, "# checksum=") {
            let rest = cut(line, 11, line.len());
            assert(rest@ =~= line@.skip(header().len() as int));
            known = read_number(&trimmed(&rest), 16, u64::MAX);
        } else if !has_prefix(line, "#") && trimmed(line).len() > 0 {
            let ghost was = openings@;
            let s = string(line);
            let ghost text = s@;
            openings.push(s);
            assert(texts_of(openings@) =~= texts_of(was).push(text));
        }
        i = i + 1;
    }
    assert(all.take(i as int) =~= all);
    assert(texts_of(openings@).len() == openings@.len());
    if openings.len() == 0 {
        let mut e = BOOK.to_owned();
        e.append(" contains no openings");
        return Err(e);
    }
    let actual = checksum(openings.as_slice());
    let d = match known {
        None => {
            let mut e = BOOK.to_owned();
            e.append(
                " has no readable '# checksum=' header. The book is part of the              rules; restore it from git.",
            );
            return Err(e);
        },
        Some(d) => d,
    };
    if d != actual {
        let mut e = BOOK.to_owned();
        e.append(" checksum mismatch: header says ");
        push_hex(&mut e, d, 16);
        e.append(", contents hash to ");
        push_hex(&mut e, actual, 16);
        e.append(
            ".\n  The book has been edited. Both players must use an identical book.",
        );
        return Err(e);
    }
    Ok(openings)
}

} // verus!
