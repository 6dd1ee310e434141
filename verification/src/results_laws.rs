//! What is written of a match reads back as what was written.
use vstd::prelude::*;

use crate::stats::{
    blank, first_missing, index_from, key_of, list_of, needed, number_list, number_of, numbers_of,
    read_lines, record_fault, record_of, with_line, with_value, Fault, Key, Record,
};
use crate::text::{
    bounded_number, decimal, hex, is_space, just, law_decimal_reads_back, law_hex_reads_back,
    lemma_decimal, lemma_hex, lemma_next_word, lemma_split_joined, lemma_split_plain, lemma_word,
    lines, power16, split, strip_return, trim, trim_end, trim_start, words,
};

verus! {

/// A text that a line can hold as it is: one line, with no white space at its ends.
pub open spec fn is_plain(s: Seq<char>) -> bool {
    &&& trim(s) == s
    &&& !s.contains('\n')
}

/// A text without white space at its ends stays as it is.
proof fn lemma_trim(s: Seq<char>)
    requires
        s.len() > 0 ==> !is_space(s[0]) && !is_space(s.last()),
    ensures
        trim(s) == s,
{
}

/// What is left of a trimmed text has no white space at its end.
proof fn lemma_trimmed_end(s: Seq<char>)
    ensures
        trim(s).len() > 0 ==> !is_space(trim(s).last()),
{
    lemma_end(trim_start(s));
}

proof fn lemma_end(s: Seq<char>)
    ensures
        trim_end(s).len() > 0 ==> !is_space(trim_end(s).last()),
    decreases s.len(),
{
    if s.len() > 0 && is_space(s.last()) {
        lemma_end(s.drop_last());
    }
}

/// Text without a separator goes on the last piece.
proof fn lemma_split_tail(t: Seq<char>, l: Seq<char>, sep: spec_fn(char) -> bool)
    requires
        forall|i: int| 0 <= i < l.len() ==> !sep(#[trigger] l[i]),
    ensures
        split(t, sep).len() > 0,
        split(t + l, sep) == split(t, sep).drop_last().push(split(t, sep).last() + l),
    decreases l.len(),
{
    lemma_split_some(t, sep);
    let p = split(t, sep);
    if l.len() == 0 {
        assert(t + l =~= t);
        assert(p.last() + l =~= p.last());
        assert(p.drop_last().push(p.last()) =~= p);
    } else {
        let m = l.drop_last();
        assert forall|i: int| 0 <= i < m.len() implies !sep(#[trigger] m[i]) by {
            assert(m[i] == l[i]);
        }
        lemma_split_tail(t, m, sep);
        assert((t + l).drop_last() =~= t + m);
        assert((t + l).last() == l[l.len() - 1]);
        assert((p.last() + m).push(l.last()) =~= p.last() + l);
        assert(split(t + l, sep) =~= p.drop_last().push(p.last() + l));
    }
}

proof fn lemma_split_some(t: Seq<char>, sep: spec_fn(char) -> bool)
    ensures
        split(t, sep).len() > 0,
    decreases t.len(),
{
    if t.len() > 0 {
        lemma_split_some(t.drop_last(), sep);
    }
}

/// Whether a text is whole lines.
spec fn whole_lines(t: Seq<char>) -> bool {
    split(t, just('\n')).last().len() == 0
}

proof fn lemma_with_line(t: Seq<char>, k: Seq<char>, v: Seq<char>)
    requires
        whole_lines(t),
        !k.contains('\n'),
        !v.contains('\n'),
        v.len() > 0,
        v.last() != '\r',
    ensures
        whole_lines(with_line(t, k, v)),
        lines(with_line(t, k, v)) == lines(t).push(k.push(' ') + v),
{
    let sep = just('\n');
    let l = k.push(' ') + v;
    let p = split(t, sep);
    assert forall|i: int| 0 <= i < l.len() implies !sep(#[trigger] l[i]) by {
        if i < k.len() {
            assert(k.contains(k[i]));
        } else if i > k.len() {
            assert(v.contains(v[i - k.len() - 1]));
        }
    }
    lemma_split_tail(t, l, sep);
    assert(p.last() + l =~= l);
    let u = t + l;
    assert(t + k.push(' ') + v =~= u);
    let w = with_line(t, k, v);
    assert(w =~= u.push('\n'));
    assert(w.drop_last() =~= u);
    let q = split(w, sep);
    assert(q == split(u, sep).push(Seq::<char>::empty()));
    assert(q.drop_last() =~= p.drop_last().push(l));
    let f = |p: Seq<char>| strip_return(p);
    assert(l.last() == v.last());
    assert(lines(w) =~= lines(t).push(l)) by {
        assert(q.drop_last().map_values(f) =~= p.drop_last().map_values(f).push(strip_return(l)));
    }
}

proof fn lemma_index(k: Seq<char>, v: Seq<char>, i: int)
    requires
        0 <= i <= k.len(),
        !k.contains(' '),
    ensures
        index_from(k.push(' ') + v, ' ', i) == Some(k.len() as int),
    decreases k.len() - i,
{
    let s = k.push(' ') + v;
    if i < k.len() {
        assert(k.contains(k[i]));
        assert(s[i] == k[i]);
        lemma_index(k, v, i + 1);
    }
}

/// A text of whole lines that make this record and show these keys, kept folded.
#[verifier::opaque]
spec fn reads(t: Seq<char>, r: Record, seen: Seq<Seq<char>>) -> bool {
    &&& whole_lines(t)
    &&& read_lines(lines(t)) == Ok::<(Record, Seq<Seq<char>>), Fault>((r, seen))
}

/// One more line of a record.
proof fn lemma_next_line(
    t: Seq<char>,
    k: Seq<char>,
    v: Seq<char>,
    before: Record,
    seen: Seq<Seq<char>>,
    after: Record,
)
    requires
        reads(t, before, seen),
        plain_key(k),
        !v.contains('\n'),
        v.len() > 0,
        v.last() != '\r',
        with_value(before, k, v) == Ok::<Record, Fault>(after),
    ensures
        reads(with_line(t, k, v), after, seen.push(k)),
{
    reveal(reads);
    lemma_with_line(t, k, v);
    let line = k.push(' ') + v;
    let ls = lines(t).push(line);
    assert(ls.drop_last() =~= lines(t));
    lemma_index(k, v, 0);
    assert(line.take(k.len() as int) =~= k);
    assert(line.skip(k.len() as int + 1) =~= v);
}

/// Digits are what a line can hold.
proof fn lemma_digits_plain(n: nat)
    ensures
        !decimal(n).contains('\n'),
        !decimal(n).contains(','),
        decimal(n).len() > 0,
        decimal(n).last() != '\r',
        trim(decimal(n)) == decimal(n),
        forall|i: int| 0 <= i < decimal(n).len() ==> !is_space(#[trigger] decimal(n)[i]),
{
    lemma_decimal(n);
    let d = decimal(n);
    assert forall|i: int| 0 <= i < d.len() implies !is_space(#[trigger] d[i]) && d[i] != ','
        && d[i] != '\r' && d[i] != '\n' by {
        assert('0' as int <= d[i] as int <= '9' as int);
    }
    lemma_trim(d);
    assert(d.last() == d[d.len() - 1]);
    if d.contains('\n') {
        let i = choose|i: int| 0 <= i < d.len() && d[i] == '\n';
        assert(d[i] != '\n');
    }
    if d.contains(',') {
        let i = choose|i: int| 0 <= i < d.len() && d[i] == ',';
        assert(d[i] != ',');
    }
}

proof fn lemma_number_back(k: Seq<char>, n: u64)
    ensures
        number_of(k, decimal(n as nat)) == Ok::<u64, Fault>(n),
        bounded_number(trim(decimal(n as nat)), 10, u64::MAX as nat) == Some(n as nat),
{
    lemma_digits_plain(n as nat);
    law_decimal_reads_back(n as nat);
}

/// The pieces that are joined with commas.
spec fn parts_of(s: Seq<u64>) -> Seq<Seq<char>> {
    s.map_values(|n: u64| decimal(n as nat))
}

proof fn lemma_list_split(s: Seq<u64>)
    requires
        s.len() > 0,
    ensures
        split(number_list(s), just(',')) == parts_of(s),
        !number_list(s).contains('\n'),
        number_list(s).len() > 0,
        number_list(s).last() != '\r',
    decreases s.len(),
{
    reveal_strlit(",");
    let sep = just(',');
    let parts = parts_of(s);
    let last = decimal(s.last() as nat);
    lemma_digits_plain(s.last() as nat);
    assert(parts.last() == last);
    assert forall|i: int| 0 <= i < last.len() implies !sep(#[trigger] last[i]) by {
        assert(last.contains(last[i]));
    }
    if s.len() == 1 {
        lemma_split_plain(last, sep);
        assert(parts =~= seq![last]);
    } else {
        let t = s.drop_last();
        lemma_list_split(t);
        assert(parts.drop_last() =~= parts_of(t));
        let before = number_list(t);
        lemma_split_joined(before, ',', last, sep);
        assert(number_list(s) =~= before.push(',') + last);
        assert(parts_of(t).push(last) =~= parts);
        assert(number_list(s).last() == last.last());
        if number_list(s).contains('\n') {
            let i = choose|i: int| 0 <= i < number_list(s).len() && number_list(s)[i] == '\n';
            if i < before.len() {
                assert(before.contains(before[i]));
            } else if i > before.len() {
                assert(last.contains(last[i - before.len() - 1]));
            }
        }
    }
}

proof fn lemma_numbers_back(k: Seq<char>, s: Seq<u64>)
    ensures
        numbers_of(k, parts_of(s)) == Ok::<Seq<u64>, Fault>(s),
    decreases s.len(),
{
    if s.len() > 0 {
        let t = s.drop_last();
        lemma_numbers_back(k, t);
        assert(parts_of(s).drop_last() =~= parts_of(t));
        assert(parts_of(s).last() == decimal(s.last() as nat));
        lemma_number_back(k, s.last());
        assert(t.push(s.last()) =~= s);
    } else {
        assert(s =~= Seq::<u64>::empty());
    }
}

proof fn lemma_list_back(k: Seq<char>, s: Seq<u64>)
    requires
        s.len() > 0,
    ensures
        list_of(k, number_list(s), s.len()) == Ok::<Seq<u64>, Fault>(s),
{
    lemma_list_split(s);
    lemma_numbers_back(k, s);
}

proof fn lemma_hex_back(n: u64)
    ensures
        bounded_number(trim(hex(n as nat, 16)), 16, u64::MAX as nat) == Some(n as nat),
        !hex(n as nat, 16).contains('\n'),
        hex(n as nat, 16).len() == 16,
        hex(n as nat, 16).last() != '\r',
{
    reveal_with_fuel(power16, 17);
    assert(power16(16) == 0x1_0000_0000_0000_0000);
    lemma_hex(n as nat, 16);
    law_hex_reads_back(n as nat, 16);
    let h = hex(n as nat, 16);
    assert(!is_space(h[0]) && !is_space(h[15]));
    assert(h.last() == h[15]);
    lemma_trim(h);
    if h.contains('\n') {
        let i = choose|i: int| 0 <= i < h.len() && h[i] == '\n';
        assert(!is_space(h[i]));
    }
}

/// The keys are told apart and hold neither spaces nor line feeds.
pub proof fn lemma_keys()
    ensures
        key_of("version"@) == Key::Version,
        key_of("a"@) == Key::A,
        key_of("b"@) == Key::B,
        key_of("cycles_a"@) == Key::CyclesA,
        key_of("cycles_b"@) == Key::CyclesB,
        key_of("book"@) == Key::Book,
        key_of("penta"@) == Key::Penta,
        key_of("wdl"@) == Key::Wdl,
        key_of("plies"@) == Key::Plies,
        key_of("games"@) == Key::Games,
        key_of("cycles"@) == Key::Cycles,
        key_of("failures"@) == Key::Failures,
{
    reveal_strlit("version");
    reveal_strlit("a");
    reveal_strlit("b");
    reveal_strlit("cycles_a");
    reveal_strlit("cycles_b");
    reveal_strlit("book");
    reveal_strlit("penta");
    reveal_strlit("wdl");
    reveal_strlit("plies");
    reveal_strlit("games");
    reveal_strlit("cycles");
    reveal_strlit("failures");
    assert("version"@.len() == 7 && "a"@.len() == 1 && "b"@.len() == 1 && "cycles_a"@.len() == 8
        && "cycles_b"@.len() == 8 && "book"@.len() == 4 && "penta"@.len() == 5 && "wdl"@.len() == 3
        && "plies"@.len() == 5 && "games"@.len() == 5 && "cycles"@.len() == 6 && "failures"@.len()
        == 8);
    assert("a"@[0] == 'a' && "b"@[0] == 'b');
    assert("cycles_a"@[7] == 'a' && "cycles_b"@[7] == 'b');
    assert("penta"@[0] == 'p' && "plies"@[0] == 'p' && "games"@[0] == 'g' && "penta"@[1] == 'e'
        && "plies"@[1] == 'l');
    assert("failures"@[0] == 'f' && "cycles_a"@[0] == 'c' && "cycles_b"@[0] == 'c');
}

spec fn plain_key(k: Seq<char>) -> bool {
    !k.contains('\n') && !k.contains(' ')
}

proof fn lemma_plain_keys()
    ensures
        plain_key("version"@),
        plain_key("a"@),
        plain_key("b"@),
        plain_key("cycles_a"@),
        plain_key("cycles_b"@),
        plain_key("book"@),
        plain_key("penta"@),
        plain_key("wdl"@),
        plain_key("plies"@),
        plain_key("games"@),
        plain_key("cycles"@),
        plain_key("failures"@),
{
    reveal_strlit("version");
    reveal_strlit("a");
    reveal_strlit("b");
    reveal_strlit("cycles_a");
    reveal_strlit("cycles_b");
    reveal_strlit("book");
    reveal_strlit("penta");
    reveal_strlit("wdl");
    reveal_strlit("plies");
    reveal_strlit("games");
    reveal_strlit("cycles");
    reveal_strlit("failures");
}

proof fn lemma_name_line(v: Seq<char>)
    requires
        v.len() > 0,
        is_plain(v),
    ensures
        v.last() != '\r',
        !v.contains('\n'),
{
    lemma_trimmed_end(v);
}

proof fn lemma_cycles_back(k: Seq<char>, x: u64, y: u64)
    ensures
        ({
            let v = decimal(x as nat).push(' ') + decimal(y as nat);
            &&& words(v) == seq![decimal(x as nat), decimal(y as nat)]
            &&& !v.contains('\n')
            &&& v.len() > 0
            &&& v.last() != '\r'
        }),
{
    let a = decimal(x as nat);
    let b = decimal(y as nat);
    lemma_digits_plain(x as nat);
    lemma_digits_plain(y as nat);
    lemma_word(a);
    lemma_next_word(a, b);
    let v = a.push(' ') + b;
    assert(seq![a].push(b) =~= seq![a, b]);
    assert(v.last() == b.last());
    if v.contains('\n') {
        let i = choose|i: int| 0 <= i < v.len() && v[i] == '\n';
        if i < a.len() {
            assert(a.contains(a[i]));
        } else if i > a.len() {
            assert(b.contains(b[i - a.len() - 1]));
        }
    }
}

/// A line that holds a number.
proof fn lemma_number_line(
    t: Seq<char>,
    k: Seq<char>,
    n: u64,
    before: Record,
    seen: Seq<Seq<char>>,
    after: Record,
)
    requires
        reads(t, before, seen),
        plain_key(k),
        ({
            ||| key_of(k) == Key::CyclesA && after == (Record { cycles_a: n, ..before })
            ||| key_of(k) == Key::CyclesB && after == (Record { cycles_b: n, ..before })
            ||| key_of(k) == Key::Plies && after == (Record { plies: n, ..before })
            ||| key_of(k) == Key::Games && after == (Record { games: n, ..before })
        }),
    ensures
        reads(with_line(t, k, decimal(n as nat)), after, seen.push(k)),
{
    lemma_digits_plain(n as nat);
    lemma_number_back(k, n);
    lemma_next_line(t, k, decimal(n as nat), before, seen, after);
}

/// A line that holds numbers with commas between them.
proof fn lemma_list_line(
    t: Seq<char>,
    k: Seq<char>,
    ns: Seq<u64>,
    before: Record,
    seen: Seq<Seq<char>>,
    after: Record,
)
    requires
        reads(t, before, seen),
        plain_key(k),
        ({
            ||| key_of(k) == Key::Penta && ns.len() == 5 && after == (Record {
                penta: ns,
                ..before
            })
            ||| key_of(k) == Key::Failures && ns.len() == 6 && after == (Record {
                failures: ns,
                ..before
            })
            ||| key_of(k) == Key::Wdl && ns.len() == 3 && after == (Record {
                wins_a: ns[0],
                draws: ns[1],
                wins_b: ns[2],
                ..before
            })
        }),
    ensures
        reads(with_line(t, k, number_list(ns)), after, seen.push(k)),
{
    lemma_list_split(ns);
    lemma_list_back(k, ns);
    lemma_next_line(t, k, number_list(ns), before, seen, after);
}

/// A line that names an engine.
proof fn lemma_named_line(
    t: Seq<char>,
    k: Seq<char>,
    name: Seq<char>,
    before: Record,
    seen: Seq<Seq<char>>,
    after: Record,
)
    requires
        reads(t, before, seen),
        plain_key(k),
        name.len() > 0,
        is_plain(name),
        ({
            ||| key_of(k) == Key::A && after == (Record { a: name, ..before })
            ||| key_of(k) == Key::B && after == (Record { b: name, ..before })
        }),
    ensures
        reads(with_line(t, k, name), after, seen.push(k)),
{
    lemma_name_line(name);
    lemma_next_line(t, k, name, before, seen, after);
}

proof fn lemma_version_line()
    ensures
        reads(
            with_line(Seq::<char>::empty(), "version"@, "1"@),
            blank(),
            Seq::<Seq<char>>::empty().push("version"@),
        ),
{
    lemma_keys();
    lemma_plain_keys();
    reveal_strlit("1");
    let e = Seq::<char>::empty();
    let s = Seq::<Seq<char>>::empty();
    assert(split(e, just('\n')) =~= seq![e]);
    assert(lines(e) =~= s);
    let one = "1"@;
    lemma_trim(one);
    assert(one.last() == '1');
    assert(reads(e, blank(), s)) by {
        reveal(reads);
    }
    lemma_next_line(e, "version"@, one, blank(), s, blank());
}

proof fn lemma_book_line(t: Seq<char>, n: u64, before: Record, seen: Seq<Seq<char>>)
    requires
        reads(t, before, seen),
    ensures
        reads(
            with_line(t, "book"@, hex(n as nat, 16)),
            Record { book: n, ..before },
            seen.push("book"@),
        ),
{
    lemma_keys();
    lemma_plain_keys();
    lemma_hex_back(n);
    lemma_next_line(t, "book"@, hex(n as nat, 16), before, seen, Record { book: n, ..before });
}

proof fn lemma_cycles_line(t: Seq<char>, x: u64, y: u64, before: Record, seen: Seq<Seq<char>>)
    requires
        reads(t, before, seen),
    ensures
        reads(
            with_line(t, "cycles"@, decimal(x as nat).push(' ') + decimal(y as nat)),
            Record { cycles_sum: x, cycles_n: y, ..before },
            seen.push("cycles"@),
        ),
{
    lemma_keys();
    lemma_plain_keys();
    lemma_cycles_back("cycles"@, x, y);
    lemma_number_back("cycles"@, x);
    lemma_number_back("cycles"@, y);
    lemma_next_line(
        t,
        "cycles"@,
        decimal(x as nat).push(' ') + decimal(y as nat),
        before,
        seen,
        Record { cycles_sum: x, cycles_n: y, ..before },
    );
}

/// The keys of a record in the order in which they are written.
spec fn written() -> Seq<Seq<char>> {
    Seq::<Seq<char>>::empty().push("version"@).push("a"@).push("b"@).push("cycles_a"@).push(
        "cycles_b"@,
    ).push("book"@).push("penta"@).push("wdl"@).push("plies"@).push("games"@).push("cycles"@).push(
        "failures"@,
    )
}

proof fn lemma_text_reads(r: Record)
    requires
        r.penta.len() == 5,
        r.failures.len() == 6,
        r.a.len() > 0,
        r.b.len() > 0,
        is_plain(r.a),
        is_plain(r.b),
    ensures
        reads(r.text(), r, written()),
{
    lemma_keys();
    lemma_plain_keys();
    lemma_version_line();
    let b0 = blank();
    let s0 = Seq::<Seq<char>>::empty().push("version"@);
    let t0 = with_line(Seq::<char>::empty(), "version"@, "1"@);
    let b1 = Record { a: r.a, ..b0 };
    let t1 = with_line(t0, "a"@, r.a);
    lemma_named_line(t0, "a"@, r.a, b0, s0, b1);
    let s1 = s0.push("a"@);
    let b2 = Record { b: r.b, ..b1 };
    let t2 = with_line(t1, "b"@, r.b);
    lemma_named_line(t1, "b"@, r.b, b1, s1, b2);
    let s2 = s1.push("b"@);
    let b3 = Record { cycles_a: r.cycles_a, ..b2 };
    let t3 = with_line(t2, "cycles_a"@, decimal(r.cycles_a as nat));
    lemma_number_line(t2, "cycles_a"@, r.cycles_a, b2, s2, b3);
    let s3 = s2.push("cycles_a"@);
    let b4 = Record { cycles_b: r.cycles_b, ..b3 };
    let t4 = with_line(t3, "cycles_b"@, decimal(r.cycles_b as nat));
    lemma_number_line(t3, "cycles_b"@, r.cycles_b, b3, s3, b4);
    let s4 = s3.push("cycles_b"@);
    let b5 = Record { book: r.book, ..b4 };
    let t5 = with_line(t4, "book"@, hex(r.book as nat, 16));
    lemma_book_line(t4, r.book, b4, s4);
    let s5 = s4.push("book"@);
    let b6 = Record { penta: r.penta, ..b5 };
    let t6 = with_line(t5, "penta"@, number_list(r.penta));
    lemma_list_line(t5, "penta"@, r.penta, b5, s5, b6);
    let s6 = s5.push("penta"@);
    let wdl = seq![r.wins_a, r.draws, r.wins_b];
    let b7 = Record { wins_a: r.wins_a, draws: r.draws, wins_b: r.wins_b, ..b6 };
    let t7 = with_line(t6, "wdl"@, number_list(wdl));
    lemma_list_line(t6, "wdl"@, wdl, b6, s6, b7);
    let s7 = s6.push("wdl"@);
    let b8 = Record { plies: r.plies, ..b7 };
    let t8 = with_line(t7, "plies"@, decimal(r.plies as nat));
    lemma_number_line(t7, "plies"@, r.plies, b7, s7, b8);
    let s8 = s7.push("plies"@);
    let b9 = Record { games: r.games, ..b8 };
    let t9 = with_line(t8, "games"@, decimal(r.games as nat));
    lemma_number_line(t8, "games"@, r.games, b8, s8, b9);
    let s9 = s8.push("games"@);
    let b10 = Record { cycles_sum: r.cycles_sum, cycles_n: r.cycles_n, ..b9 };
    let t10 = with_line(
        t9,
        "cycles"@,
        decimal(r.cycles_sum as nat).push(' ') + decimal(r.cycles_n as nat),
    );
    lemma_cycles_line(t9, r.cycles_sum, r.cycles_n, b9, s9);
    let s10 = s9.push("cycles"@);
    lemma_list_line(t10, "failures"@, r.failures, b10, s10, r);
}

/// The results of a match read back from their text as they were written, whenever they are
/// whole and each engine's name fits on a line.
pub proof fn law_results_read_back(r: Record)
    requires
        r.penta.len() == 5,
        r.failures.len() == 6,
        record_fault(r) is None,
        is_plain(r.a),
        is_plain(r.b),
    ensures
        record_of(r.text()) == Ok::<Record, Fault>(r),
{
    lemma_text_reads(r);
    reveal(reads);
    let seen = written();
    assert(seen[1] == "a"@ && seen[2] == "b"@ && seen[3] == "cycles_a"@ && seen[4] == "cycles_b"@
        && seen[5] == "book"@ && seen[9] == "games"@ && seen[7] == "wdl"@ && seen[6]
        == "penta"@);
    assert forall|i: int| 0 <= i < 8 implies seen.contains(#[trigger] needed()[i]) by {
        assert(seen.contains(seen[1]) && seen.contains(seen[2]) && seen.contains(seen[3])
            && seen.contains(seen[4]) && seen.contains(seen[5]) && seen.contains(seen[9])
            && seen.contains(seen[7]) && seen.contains(seen[6]));
    }
    lemma_none_missing(seen, 0);
}

proof fn lemma_none_missing(seen: Seq<Seq<char>>, i: int)
    requires
        0 <= i <= 8,
        forall|j: int| 0 <= j < 8 ==> seen.contains(#[trigger] needed()[j]),
    ensures
        first_missing(seen, i) is None,
    decreases 8 - i,
{
    if i < 8 {
        lemma_none_missing(seen, i + 1);
    }
}

} // verus!
