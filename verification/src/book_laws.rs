//! What a book is: its openings, and the sum that they must come to.
use vstd::prelude::*;

use crate::book::{all_taken, book_of, declared, header, is_opening, lines_sum, openings_of, taken};
use crate::mixing::{lemma_folds_undone, lemma_product_undone, lemma_xor};
use crate::position::Pos;
use crate::random::stirred;
use crate::text::{bounded_number, is_space, lines, starts_with, trim, trim_end, trim_start};
use crate::text_laws::law_trimming_takes_the_spaces_off;

verus! {

/// Taking a byte in is an exclusive or and a multiplication, in words of sixty-four bits.
pub proof fn law_a_byte_is_taken_in(h: u64, x: u8)
    ensures
        taken(h, x) == ((h ^ (x as u64)) * 17_592_186_044_851 % 0x1_0000_0000_0000_0000) as u64,
{
}

/// Taking a byte in loses nothing: different sums stay different, and different bytes make them
/// different.
pub proof fn law_a_byte_taken_in_is_not_lost(h: u64, g: u64, x: u8, y: u8)
    ensures
        taken(h, x) == taken(g, x) ==> h == g,
        taken(h, x) == taken(h, y) ==> x == y,
{
    lemma_sum_kept(h, g, x);
    lemma_byte_kept(h, x, y);
}

proof fn lemma_sum_kept(h: u64, g: u64, x: u8)
    ensures
        taken(h, x) == taken(g, x) ==> h == g,
{
    let z = x as u64;
    let a = h ^ z;
    let b = g ^ z;
    if a.wrapping_mul(0x1000_0000_01b3) == b.wrapping_mul(0x1000_0000_01b3) {
        lemma_product_undone(a, b, 0x1000_0000_01b3, 0xb46d_d957_aff6_957b);
    }
    lemma_xor(h, g, z);
}

proof fn lemma_byte_kept(h: u64, x: u8, y: u8)
    ensures
        taken(h, x) == taken(h, y) ==> x == y,
{
    let a = h ^ (x as u64);
    let b = h ^ (y as u64);
    if a.wrapping_mul(0x1000_0000_01b3) == b.wrapping_mul(0x1000_0000_01b3) {
        lemma_product_undone(a, b, 0x1000_0000_01b3, 0xb46d_d957_aff6_957b);
    }
    lemma_xor(x as u64, y as u64, h);
}

proof fn lemma_all_taken(h: u64, g: u64, bytes: Seq<u8>)
    ensures
        all_taken(h, bytes) == all_taken(g, bytes) ==> h == g,
    decreases bytes.len(),
{
    if bytes.len() > 0 {
        let front = bytes.drop_last();
        lemma_all_taken(h, g, front);
        law_a_byte_taken_in_is_not_lost(
            all_taken(h, front),
            all_taken(g, front),
            bytes.last(),
            bytes.last(),
        );
    }
}

proof fn lemma_taken_joined(h: u64, a: Seq<u8>, b: Seq<u8>)
    ensures
        all_taken(h, a + b) == all_taken(all_taken(h, a), b),
    decreases b.len(),
{
    if b.len() == 0 {
        assert(a + b =~= a);
    } else {
        assert((a + b).drop_last() =~= a + b.drop_last());
        lemma_taken_joined(h, a, b.drop_last());
    }
}

/// Bytes are taken in from the first to the last, and one that is changed changes the sum,
/// wherever it stands.
pub proof fn law_one_byte_changes_the_sum(h: u64, a: Seq<u8>, x: u8, y: u8, b: Seq<u8>)
    requires
        x != y,
    ensures
        all_taken(h, Seq::<u8>::empty()) == h,
        all_taken(h, a.push(x)) == taken(all_taken(h, a), x),
        all_taken(h, a.push(x) + b) != all_taken(h, a.push(y) + b),
{
    assert(a.push(x).drop_last() =~= a);
    assert(a.push(y).drop_last() =~= a);
    lemma_taken_joined(h, a.push(x), b);
    lemma_taken_joined(h, a.push(y), b);
    law_a_byte_taken_in_is_not_lost(all_taken(h, a), 0, x, y);
    lemma_all_taken(all_taken(h, a.push(x)), all_taken(h, a.push(y)), b);
}

/// The sum of a book starts at a fixed word, and takes in each opening's bytes and one byte that
/// no text holds. So books that sum up differently still do with one more opening.
pub proof fn law_openings_are_summed_in_order(v: Seq<Seq<char>>, w: Seq<Seq<char>>, l: Seq<char>)
    ensures
        lines_sum(Seq::<Seq<char>>::empty()) == 14_695_981_039_346_656_037,
        lines_sum(v.push(l)) == taken(all_taken(lines_sum(v), vstd::utf8::encode_utf8(l)), 255),
        lines_sum(v.push(l)) == lines_sum(w.push(l)) ==> lines_sum(v) == lines_sum(w),
{
    assert(v.push(l).drop_last() =~= v);
    assert(w.push(l).drop_last() =~= w);
    let bytes = vstd::utf8::encode_utf8(l);
    law_a_byte_taken_in_is_not_lost(
        all_taken(lines_sum(v), bytes),
        all_taken(lines_sum(w), bytes),
        255,
        255,
    );
    lemma_all_taken(lines_sum(v), lines_sum(w), bytes);
}

proof fn lemma_trim_keeps(s: Seq<char>)
    ensures
        trim(s).len() > 0 <==> exists|i: int| 0 <= i < s.len() && !is_space(#[trigger] s[i]),
{
    let none = Seq::<char>::empty();
    if exists|i: int| 0 <= i < s.len() && !is_space(#[trigger] s[i]) {
        lemma_start_keeps(s);
        lemma_end_keeps(trim_start(s));
    } else {
        law_trimming_takes_the_spaces_off(s, none, none);
        assert(s + none + none =~= s);
    }
}

proof fn lemma_start_keeps(s: Seq<char>)
    requires
        exists|i: int| 0 <= i < s.len() && !is_space(#[trigger] s[i]),
    ensures
        trim_start(s).len() > 0,
        !is_space(trim_start(s)[0]),
    decreases s.len(),
{
    if is_space(s[0]) {
        let i = choose|i: int| 0 <= i < s.len() && !is_space(#[trigger] s[i]);
        assert(s.skip(1)[i - 1] == s[i]);
        lemma_start_keeps(s.skip(1));
    }
}

proof fn lemma_end_keeps(s: Seq<char>)
    requires
        s.len() > 0,
        !is_space(s[0]),
    ensures
        trim_end(s).len() > 0,
    decreases s.len(),
{
    if is_space(s.last()) {
        lemma_end_keeps(s.drop_last());
    }
}

/// The openings of a book are its lines in their order, but for those that begin with a hash
/// sign and those that hold nothing but space.
pub proof fn law_openings_are_the_lines_with_something_on_them(
    a: Seq<Seq<char>>,
    l: Seq<char>,
    b: Seq<Seq<char>>,
)
    ensures
        openings_of(Seq::<Seq<char>>::empty()) == Seq::<Seq<char>>::empty(),
        openings_of(a + b) == openings_of(a) + openings_of(b),
        openings_of(seq![l]) == if l.len() > 0 && l[0] != '#' && exists|i: int|
            0 <= i < l.len() && !is_space(#[trigger] l[i]) {
            seq![l]
        } else {
            Seq::<Seq<char>>::empty()
        },
{
    broadcast use Seq::filter_distributes_over_add;

    let pred = |l: Seq<char>| !starts_with(l, header()) && is_opening(l);
    let none = Seq::<Seq<char>>::empty();
    assert(none.filter(pred) =~= none) by {
        reveal(Seq::filter);
    }
    assert(seq![l].filter(pred) =~= if pred(l) {
        seq![l]
    } else {
        none
    }) by {
        reveal(Seq::filter);
        assert(seq![l].drop_last() =~= none);
        assert(seq![l].drop_last().filter(pred) =~= none);
        assert(none.push(l) =~= seq![l]);
    }
    lemma_trim_keeps(l);
    reveal_strlit("#");
    reveal_strlit("# checksum=");
    if l.len() > 0 && l[0] == '#' {
        assert(l.take(1) =~= "#"@);
    }
    if starts_with(l, "#"@) {
        assert(l.take(1)[0] == '#');
    }
    if starts_with(l, header()) {
        assert(l.take(header().len() as int)[0] == '#');
    }
}

/// The last line that gives a sum is the one that counts, and it gives it in hexadecimal.
pub proof fn law_the_last_given_sum_counts(ls: Seq<Seq<char>>, l: Seq<char>, rest: Seq<char>)
    ensures
        declared(Seq::<Seq<char>>::empty()) is None,
        !starts_with(l, "# checksum="@) ==> declared(ls.push(l)) == declared(ls),
        declared(ls.push("# checksum="@ + rest)) == match bounded_number(
            trim(rest),
            16,
            0xffff_ffff_ffff_ffff,
        ) {
            Some(n) => Some(n as u64),
            None => None,
        },
{
    let h = "# checksum="@;
    assert(ls.push(l).drop_last() =~= ls);
    assert((h + rest).take(h.len() as int) =~= h);
    assert((h + rest).skip(h.len() as int) =~= rest);
}

/// A book is taken just when it holds openings and gives the sum that they come to; what is
/// taken is its openings.
pub proof fn law_a_book_must_come_to_its_sum(text: Seq<char>)
    ensures
        book_of(text) is Ok <==> openings_of(lines(text)).len() > 0 && declared(lines(text))
            == Some(lines_sum(openings_of(lines(text)))),
        book_of(text) is Ok ==> book_of(text)->Ok_0 == openings_of(lines(text)),
{
}

/// Stirring loses nothing: different hashes stay different.
pub proof fn law_stirring_keeps_hashes_apart(h: u64, g: u64)
    ensures
        ({
            let once = ((h ^ (h >> 33u64)) * 0xFF51_AFD7_ED55_8CCD % 0x1_0000_0000_0000_0000)
                as u64;
            stirred(h) == once ^ (once >> 33u64)
        }),
        stirred(h) == stirred(g) ==> h == g,
{
    if stirred(h) == stirred(g) {
        let a = (h ^ (h >> 33u64)).wrapping_mul(0xFF51_AFD7_ED55_8CCD);
        let b = (g ^ (g >> 33u64)).wrapping_mul(0xFF51_AFD7_ED55_8CCD);
        lemma_folds_undone(a, b);
        lemma_product_undone(
            h ^ (h >> 33u64),
            g ^ (g >> 33u64),
            0xFF51_AFD7_ED55_8CCD,
            0x4f74_430c_22a5_4005,
        );
        lemma_folds_undone(h, g);
    }
}

/// The random engine plays the legal move whose place in their order is what remains of its
/// stirred hash, divided by how many there are.
pub proof fn law_the_hash_picks_the_move(p: Pos, i: int)
    requires
        p.legal_list().len() > 0,
        0 <= i < p.legal_list().len(),
        (stirred(p.hash()) - i) % p.legal_list().len() as int == 0,
    ensures
        p.random_move() == p.legal_list()[i],
{
    let n = p.legal_list().len() as int;
    let h = stirred(p.hash()) as int;
    vstd::arithmetic::div_mod::lemma_mod_equivalence(h, i, n);
    vstd::arithmetic::div_mod::lemma_small_mod(i as nat, n as nat);
}

} // verus!
