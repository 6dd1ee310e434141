//! What texts are taken apart into, and put together from.
use vstd::prelude::*;

use crate::text::{
    bounded_number, contains, decimal, digit_value, digits, either, hex, is_space, join, just,
    lemma_split_plain, lines, number, occurs_at, space, split, starts_with,
    strip_return, trim, trim_end, trim_start, words,
};

verus! {

proof fn lemma_split_parts(a: Seq<char>, c: char, b: Seq<char>, sep: spec_fn(char) -> bool)
    requires
        sep(c),
    ensures
        split(a.push(c) + b, sep) == split(a, sep) + split(b, sep),
        split(b, sep).len() > 0,
    decreases b.len(),
{
    let s = a.push(c) + b;
    if b.len() == 0 {
        assert(s =~= a.push(c));
        assert(s.drop_last() =~= a);
        assert(split(s, sep) =~= split(a, sep) + split(b, sep));
    } else {
        let x = b.last();
        let front = b.drop_last();
        lemma_split_parts(a, c, front, sep);
        assert(s.drop_last() =~= a.push(c) + front);
        let one = split(a, sep);
        let two = split(front, sep);
        if sep(x) {
            assert(split(s, sep) =~= one + split(b, sep));
        } else {
            assert((one + two).last() == two.last());
            assert((one + two).drop_last() =~= one + two.drop_last());
            assert(split(s, sep) =~= one + split(b, sep));
        }
    }
}

/// A text is split at each separator: what stands before one and what stands behind it are
/// split on their own. A text without any is one piece.
pub proof fn law_separators_part_a_text(a: Seq<char>, c: char, b: Seq<char>)
    ensures
        split(a.push(c) + b, just(c)) == split(a, just(c)) + split(b, just(c)),
        (forall|i: int| 0 <= i < a.len() ==> #[trigger] a[i] != c) ==> split(a, just(c)) == seq![a],
{
    lemma_split_parts(a, c, b, just(c));
    if forall|i: int| 0 <= i < a.len() ==> #[trigger] a[i] != c {
        lemma_split_plain(a, just(c));
    }
}

/// Two separators part a text alike.
pub proof fn law_either_separator_parts_a_text(x: char, y: char, a: Seq<char>, c: char, b: Seq<char>)
    requires
        c == x || c == y,
    ensures
        split(a.push(c) + b, either(x, y)) == split(a, either(x, y))
            + split(b, either(x, y)),
        (forall|i: int| 0 <= i < a.len() ==> #[trigger] a[i] != x && a[i] != y) ==> split(
            a,
            either(x, y),
        ) == seq![a],
{
    lemma_split_parts(a, c, b, either(x, y));
    if forall|i: int| 0 <= i < a.len() ==> #[trigger] a[i] != x && a[i] != y {
        lemma_split_plain(a, either(x, y));
    }
}

/// The words of a text are what stands between its spaces, and nothing of it is lost: a space
/// parts words, and a run without spaces is one.
pub proof fn law_spaces_part_words(a: Seq<char>, c: char, b: Seq<char>)
    requires
        is_space(c),
    ensures
        words(a.push(c) + b) == words(a) + words(b),
        words(Seq::<char>::empty()) == Seq::<Seq<char>>::empty(),
        a.len() > 0 && (forall|i: int| 0 <= i < a.len() ==> !is_space(#[trigger] a[i])) ==> words(a)
            == seq![a],
{
    broadcast use Seq::filter_distributes_over_add;

    let some = |w: Seq<char>| w.len() > 0;
    lemma_split_parts(a, c, b, space());
    let none = seq![Seq::<char>::empty()];
    assert(none.filter(some) =~= Seq::<Seq<char>>::empty()) by {
        reveal(Seq::filter);
        assert(none.drop_last() =~= Seq::<Seq<char>>::empty());
        assert(none.drop_last().filter(some) =~= Seq::<Seq<char>>::empty());
        assert(!some(none.last()));
    }
    if a.len() > 0 && forall|i: int| 0 <= i < a.len() ==> !is_space(#[trigger] a[i]) {
        lemma_split_plain(a, space());
        assert(seq![a].filter(some) =~= seq![a]) by {
            reveal(Seq::filter);
            assert(seq![a].drop_last() =~= Seq::<Seq<char>>::empty());
        }
    }
}

/// The spaces: from tab to carriage return, the space, the next line, the no-break space, and
/// those of the general punctuation and its neighbours.
pub proof fn law_spaces_are_these(c: char)
    ensures
        is_space(c) <==> seq![
            9int, 10, 11, 12, 13, 32, 133, 160, 5760, 8192, 8193, 8194, 8195, 8196, 8197, 8198,
            8199, 8200, 8201, 8202, 8232, 8233, 8239, 8287, 12288,
        ].contains(c as int),
{
    let all = seq![
        9int, 10, 11, 12, 13, 32, 133, 160, 5760, 8192, 8193, 8194, 8195, 8196, 8197, 8198, 8199,
        8200, 8201, 8202, 8232, 8233, 8239, 8287, 12288,
    ];
    if is_space(c) {
        let n = c as int;
        let i = if n <= 13 {
            n - 9
        } else if n == 32 {
            5
        } else if n == 133 {
            6
        } else if n == 160 {
            7
        } else if n == 5760 {
            8
        } else if n <= 8202 {
            n - 8192 + 9
        } else if n <= 8233 {
            n - 8232 + 20
        } else if n == 8239 {
            22
        } else if n == 8287 {
            23
        } else {
            24
        };
        assert(all[i] == n);
    }
}

/// A line ends at a line feed, and with the carriage return before it if there is one. The last
/// needs no end, and an empty one there is none.
pub proof fn law_line_feeds_end_lines(a: Seq<char>, b: Seq<char>)
    ensures
        lines(a.push('\n') + b) == lines(a.push('\n')) + lines(b),
        lines(Seq::<char>::empty()) == Seq::<Seq<char>>::empty(),
        (forall|i: int| 0 <= i < a.len() ==> #[trigger] a[i] != '\n') ==> {
            &&& lines(a.push('\n')) == seq![
                if a.len() > 0 && a[a.len() - 1] == '\r' {
                    a.take(a.len() - 1)
                } else {
                    a
                },
            ]
            &&& a.len() > 0 ==> lines(a) == seq![a]
        },
{
    let strip = |p: Seq<char>| strip_return(p);
    let none = Seq::<char>::empty();
    let sep = just('\n');
    lemma_split_parts(a, '\n', b, sep);
    lemma_split_parts(a, '\n', none, sep);
    assert(a.push('\n') + none =~= a.push('\n'));
    let one = split(a, sep);
    let two = split(b, sep);
    assert((one + seq![none]).drop_last() =~= one);
    assert((one + two).drop_last() =~= one + two.drop_last());
    assert((one + two).last() == two.last());
    assert((one + two.drop_last()).map_values(strip) =~= one.map_values(strip)
        + two.drop_last().map_values(strip));
    assert(lines(a.push('\n')) =~= one.map_values(strip));
    assert(lines(a.push('\n') + b) =~= lines(a.push('\n')) + lines(b));
    assert(seq![none].drop_last() =~= Seq::<Seq<char>>::empty());
    assert(lines(none) =~= Seq::<Seq<char>>::empty());
    if forall|i: int| 0 <= i < a.len() ==> #[trigger] a[i] != '\n' {
        lemma_split_plain(a, sep);
        if a.len() > 0 {
            assert(a.drop_last() =~= a.take(a.len() - 1));
        }
        assert(lines(a.push('\n')) =~= seq![strip_return(a)]);
        if a.len() > 0 {
            assert(lines(a) =~= seq![a]);
        }
    }
}

/// Trimming takes the spaces off both ends, and nothing else.
pub proof fn law_trimming_takes_the_spaces_off(x: Seq<char>, t: Seq<char>, y: Seq<char>)
    requires
        forall|i: int| 0 <= i < x.len() ==> is_space(#[trigger] x[i]),
        forall|i: int| 0 <= i < y.len() ==> is_space(#[trigger] y[i]),
        t.len() > 0 ==> !is_space(t[0]) && !is_space(t[t.len() - 1]),
    ensures
        trim(x + t + y) == t,
{
    lemma_trim_start(x, t + y);
    assert(x + t + y =~= x + (t + y));
    if t.len() > 0 {
        assert((t + y)[0] == t[0]);
        lemma_trim_end(t, y);
    } else {
        assert(t + y =~= y);
        lemma_trim_start(y, t);
        assert(y + t =~= y);
        assert(trim_end(t) =~= t);
    }
}

proof fn lemma_trim_start(x: Seq<char>, t: Seq<char>)
    requires
        forall|i: int| 0 <= i < x.len() ==> is_space(#[trigger] x[i]),
    ensures
        trim_start(x + t) == trim_start(t),
    decreases x.len(),
{
    if x.len() == 0 {
        assert(x + t =~= t);
    } else {
        assert(is_space(x[0]));
        assert((x + t)[0] == x[0]);
        assert((x + t).skip(1) =~= x.skip(1) + t);
        assert forall|i: int| 0 <= i < x.skip(1).len() implies is_space(
            #[trigger] x.skip(1)[i],
        ) by {
            assert(is_space(x[i + 1]));
        }
        lemma_trim_start(x.skip(1), t);
    }
}

proof fn lemma_trim_end(t: Seq<char>, y: Seq<char>)
    requires
        forall|i: int| 0 <= i < y.len() ==> is_space(#[trigger] y[i]),
        t.len() > 0,
        !is_space(t[t.len() - 1]),
    ensures
        trim_end(t + y) == t,
    decreases y.len(),
{
    if y.len() == 0 {
        assert(t + y =~= t);
    } else {
        assert(is_space(y[y.len() - 1]));
        assert((t + y).last() == y.last());
        assert((t + y).drop_last() =~= t + y.drop_last());
        lemma_trim_end(t, y.drop_last());
    }
}

/// Pieces are joined with the glue between each and the next.
pub proof fn law_pieces_are_glued(pieces: Seq<Seq<char>>, last: Seq<char>, glue: Seq<char>)
    ensures
        join(Seq::<Seq<char>>::empty(), glue) == Seq::<char>::empty(),
        join(seq![last], glue) == last,
        pieces.len() > 0 ==> join(pieces.push(last), glue) == join(pieces, glue) + glue + last,
{
    assert(pieces.push(last).drop_last() =~= pieces);
}

/// What is split at a character and joined with it is what it was.
pub proof fn law_split_and_join(s: Seq<char>, c: char)
    ensures
        join(split(s, just(c)), seq![c]) == s,
        split(s, just(c)).len() > 0,
    decreases s.len(),
{
    let sep = just(c);
    let pieces = split(s, sep);
    if s.len() == 0 {
        assert(pieces[0] =~= s);
    } else {
        let front = split(s.drop_last(), sep);
        law_split_and_join(s.drop_last(), c);
        if s.last() == c {
            assert(pieces.drop_last() =~= front);
            assert(join(pieces, seq![c]) =~= s);
        } else {
            assert(pieces.drop_last() =~= front.drop_last());
            assert(pieces.last() == front.last().push(s.last()));
            if front.len() == 1 {
                assert(pieces[0] =~= s);
            } else {
                assert(join(front, seq![c]) == join(front.drop_last(), seq![c]) + seq![c]
                    + front.last());
                assert(join(pieces, seq![c]) =~= join(front, seq![c]).push(s.last()));
                assert(join(pieces, seq![c]) =~= s);
            }
        }
    }
}

/// A text starts with another just when it is that one and some rest.
pub proof fn law_a_prefix_comes_first(s: Seq<char>, prefix: Seq<char>)
    ensures
        starts_with(s, prefix) <==> exists|rest: Seq<char>| s == #[trigger] (prefix + rest),
{
    if starts_with(s, prefix) {
        let rest = s.skip(prefix.len() as int);
        assert(s =~= prefix + rest);
    }
    if exists|rest: Seq<char>| s == #[trigger] (prefix + rest) {
        let rest = choose|rest: Seq<char>| s == #[trigger] (prefix + rest);
        assert(s.take(prefix.len() as int) =~= prefix);
    }
}

/// A text contains another just when it is that one with something before and behind it.
pub proof fn law_a_part_lies_inside(s: Seq<char>, pat: Seq<char>)
    ensures
        contains(s, pat) <==> exists|a: Seq<char>, b: Seq<char>| s == #[trigger] (a + pat + b),
{
    if contains(s, pat) {
        let i = choose|i: int| occurs_at(s, pat, i);
        let a = s.take(i);
        let b = s.skip(i + pat.len());
        assert(s =~= a + pat + b);
    }
    if exists|a: Seq<char>, b: Seq<char>| s == #[trigger] (a + pat + b) {
        let (a, b) = choose|a: Seq<char>, b: Seq<char>| s == #[trigger] (a + pat + b);
        assert(s.subrange(a.len() as int, (a.len() + pat.len()) as int) =~= pat);
        assert(occurs_at(s, pat, a.len() as int));
    }
}

/// What a digit is worth: itself for a figure, ten and more for a letter of either case, and
/// nothing for what is as much as the radix or no digit at all.
pub proof fn law_digits_are_worth(c: char, radix: nat)
    requires
        2 <= radix <= 36,
    ensures
        ({
            let n = c as int;
            let v = if 48 <= n <= 57 {
                n - 48
            } else if 65 <= n <= 90 {
                n - 55
            } else if 97 <= n <= 122 {
                n - 87
            } else {
                36
            };
            digit_value(c, radix) == if v < radix {
                Some(v as nat)
            } else {
                None
            }
        }),
{
}

/// A number is a run of digits, each worth the radix times what follows it, behind at most one
/// plus sign.
pub proof fn law_numbers_are_digits(s: Seq<char>, c: char, radix: nat, max: nat)
    requires
        2 <= radix <= 36,
    ensures
        number(Seq::<char>::empty(), radix) is None,
        number(seq!['+'], radix) is None,
        c != '+' ==> number(seq![c], radix) == digit_value(c, radix),
        s.len() > 0 && s != seq!['+'] ==> number(s.push(c), radix) == match (
            number(s, radix),
            digit_value(c, radix),
        ) {
            (Some(n), Some(d)) => Some(n * radix + d),
            _ => None,
        },
        s.len() > 0 && s[0] != '+' ==> number(seq!['+'] + s, radix) == number(s, radix),
        bounded_number(s, radix, max) == match number(s, radix) {
            Some(n) => if n <= max {
                Some(n)
            } else {
                None
            },
            None => None,
        },
{
    let none = Seq::<char>::empty();
    assert(seq!['+'].skip(1) =~= none);
    assert(seq![c].drop_last() =~= none);
    assert(digits(none, radix) == Some(0nat));
    if c != '+' {
        let d = digit_value(c, radix);
        assert(seq![c].last() == c);
        assert(digits(seq![c], radix) == match d {
            Some(low) => Some((0 * radix + low) as nat),
            None => None,
        });
    }
    if s.len() > 0 && s != seq!['+'] {
        let run = if s[0] == '+' {
            s.skip(1)
        } else {
            s
        };
        if s[0] == '+' {
            if s.len() == 1 {
                assert(s =~= seq!['+']);
            }
            assert(s.push(c).skip(1) =~= run.push(c));
        }
        assert(run.push(c).drop_last() =~= run);
    }
    if s.len() > 0 && s[0] != '+' {
        assert((seq!['+'] + s).skip(1) =~= s);
    }
}

/// A decimal number is written in figures, without a nought to start with unless it is nought.
pub proof fn law_decimals_are_figures(n: nat)
    ensures
        decimal(n).len() > 0,
        forall|i: int| 0 <= i < decimal(n).len() ==> 48 <= (#[trigger] decimal(n)[i]) as int <= 57,
        n > 0 ==> decimal(n)[0] != '0',
        n == 0 ==> decimal(n) == seq!['0'],
    decreases n,
{
    if n >= 10 {
        law_decimals_are_figures(n / 10);
        let front = decimal(n / 10);
        assert(decimal(n)[0] == front[0]);
        assert forall|i: int| 0 <= i < decimal(n).len() implies 48 <= (
        #[trigger] decimal(n)[i]) as int <= 57 by {
            if i < front.len() {
                assert(decimal(n)[i] == front[i]);
            }
        }
    }
}

/// A hexadecimal number has as many digits as it is given room for, in figures and small
/// letters.
pub proof fn law_hexadecimals_fill_their_room(n: nat, width: nat)
    ensures
        hex(n, width).len() == width,
        forall|i: int|
            0 <= i < width ==> 48 <= (#[trigger] hex(n, width)[i]) as int <= 57 || 97 <= hex(
                n,
                width,
            )[i] as int <= 102,
    decreases width,
{
    if width > 0 {
        law_hexadecimals_fill_their_room(n / 16, (width - 1) as nat);
        let front = hex(n / 16, (width - 1) as nat);
        assert forall|i: int| 0 <= i < width implies 48 <= (#[trigger] hex(n, width)[i]) as int
            <= 57 || 97 <= hex(n, width)[i] as int <= 102 by {
            if i < front.len() {
                assert(hex(n, width)[i] == front[i]);
            }
        }
    }
}

} // verus!
