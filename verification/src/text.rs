//! Text as sequences of characters: splitting, trimming, and numbers in and out of it.
use vstd::prelude::*;

verus! {

/// `String::push` appends one character.
pub assume_specification[ String::push ](s: &mut String, c: char)
    ensures
        final(s)@ == old(s)@.push(c),
;

// ------------------------------------------------------------------- splitting

/// The characters that Unicode counts as white space.
pub open spec fn is_space(c: char) -> bool {
    let n = c as int;
    ||| 9 <= n <= 13
    ||| n == 0x20
    ||| n == 0x85
    ||| n == 0xa0
    ||| n == 0x1680
    ||| 0x2000 <= n <= 0x200a
    ||| n == 0x2028
    ||| n == 0x2029
    ||| n == 0x202f
    ||| n == 0x205f
    ||| n == 0x3000
}

/// The pieces between the characters that `sep` picks out; at least one.
pub open spec fn split(s: Seq<char>, sep: spec_fn(char) -> bool) -> Seq<Seq<char>>
    decreases s.len(),
{
    if s.len() == 0 {
        seq![Seq::<char>::empty()]
    } else {
        let pieces = split(s.drop_last(), sep);
        if sep(s.last()) {
            pieces.push(Seq::<char>::empty())
        } else {
            pieces.drop_last().push(pieces.last().push(s.last()))
        }
    }
}

pub open spec fn space() -> spec_fn(char) -> bool {
    |c: char| is_space(c)
}

pub open spec fn just(sep: char) -> spec_fn(char) -> bool {
    |c: char| c == sep
}

pub open spec fn either(a: char, b: char) -> spec_fn(char) -> bool {
    |c: char| c == a || c == b
}

/// The nonempty pieces between white space.
pub open spec fn words(s: Seq<char>) -> Seq<Seq<char>> {
    split(s, space()).filter(|w: Seq<char>| w.len() > 0)
}

pub open spec fn trim_start(s: Seq<char>) -> Seq<char>
    decreases s.len(),
{
    if s.len() > 0 && is_space(s[0]) {
        trim_start(s.skip(1))
    } else {
        s
    }
}

pub open spec fn trim_end(s: Seq<char>) -> Seq<char>
    decreases s.len(),
{
    if s.len() > 0 && is_space(s.last()) {
        trim_end(s.drop_last())
    } else {
        s
    }
}

/// `s` without the white space around it.
pub open spec fn trim(s: Seq<char>) -> Seq<char> {
    trim_end(trim_start(s))
}

pub open spec fn strip_return(s: Seq<char>) -> Seq<char> {
    if s.len() > 0 && s.last() == '\r' {
        s.drop_last()
    } else {
        s
    }
}

/// The lines of a text. A line ends with a line feed, or with a carriage return and a line
/// feed, or with the text; nothing follows the last line feed but a line that has text.
pub open spec fn lines(s: Seq<char>) -> Seq<Seq<char>> {
    let pieces = split(s, just('\n'));
    let ended = pieces.drop_last().map_values(|p: Seq<char>| strip_return(p));
    if pieces.last().len() > 0 {
        ended.push(pieces.last())
    } else {
        ended
    }
}

pub open spec fn starts_with(s: Seq<char>, prefix: Seq<char>) -> bool {
    prefix.len() <= s.len() && s.take(prefix.len() as int) == prefix
}

pub open spec fn occurs_at(s: Seq<char>, pat: Seq<char>, i: int) -> bool {
    0 <= i && i + pat.len() <= s.len() && s.subrange(i, i + pat.len()) == pat
}

/// Whether `pat` occurs somewhere in `s`.
pub open spec fn contains(s: Seq<char>, pat: Seq<char>) -> bool {
    exists|i: int| occurs_at(s, pat, i)
}

/// `pieces` with `glue` between them.
pub open spec fn join(pieces: Seq<Seq<char>>, glue: Seq<char>) -> Seq<char>
    decreases pieces.len(),
{
    if pieces.len() == 0 {
        Seq::<char>::empty()
    } else if pieces.len() == 1 {
        pieces[0]
    } else {
        join(pieces.drop_last(), glue) + glue + pieces.last()
    }
}

// --------------------------------------------------------------------- numbers

/// The character of a digit below sixteen.
pub open spec fn digit_char(d: int) -> char {
    if d < 10 {
        ('0' as int + d) as char
    } else {
        ('a' as int + (d - 10)) as char
    }
}

/// `n` in decimal, without leading zeros.
pub open spec fn decimal(n: nat) -> Seq<char>
    decreases n,
{
    if n < 10 {
        seq![digit_char(n as int)]
    } else {
        decimal(n / 10).push(digit_char((n % 10) as int))
    }
}

/// The `width` low hexadecimal digits of `n`.
pub open spec fn hex(n: nat, width: nat) -> Seq<char>
    decreases width,
{
    if width == 0 {
        Seq::<char>::empty()
    } else {
        hex(n / 16, (width - 1) as nat).push(digit_char((n % 16) as int))
    }
}

/// The value of a digit, where `c` is one in base `radix`.
pub open spec fn digit_value(c: char, radix: nat) -> Option<nat> {
    let n = c as int;
    let v = if '0' as int <= n <= '9' as int {
        n - '0' as int
    } else if 'a' as int <= n <= 'z' as int {
        n - 'a' as int + 10
    } else if 'A' as int <= n <= 'Z' as int {
        n - 'A' as int + 10
    } else {
        radix as int
    };
    if v < radix {
        Some(v as nat)
    } else {
        None
    }
}

/// The number that a run of digits stands for.
pub open spec fn digits(s: Seq<char>, radix: nat) -> Option<nat>
    decreases s.len(),
{
    if s.len() == 0 {
        Some(0)
    } else {
        match (digits(s.drop_last(), radix), digit_value(s.last(), radix)) {
            (Some(high), Some(low)) => Some(high * radix + low),
            _ => None,
        }
    }
}

/// Reads a number without a minus sign: at least one digit, after an optional plus sign.
pub open spec fn number(s: Seq<char>, radix: nat) -> Option<nat> {
    let run = if s.len() > 0 && s[0] == '+' {
        s.skip(1)
    } else {
        s
    };
    if run.len() == 0 {
        None
    } else {
        digits(run, radix)
    }
}

/// Reads a number up to `max`.
pub open spec fn bounded_number(s: Seq<char>, radix: nat, max: nat) -> Option<nat> {
    match number(s, radix) {
        Some(n) if n <= max => Some(n),
        _ => None,
    }
}

// ------------------------------------------------------------------- executable

/// The characters of a string.
pub fn chars(s: &str) -> (r: Vec<char>)
    ensures
        r@ == s@,
{
    let mut r: Vec<char> = Vec::new();
    for c in it: s.chars()
        invariant
            it.seq() == s@,
            r@ == s@.take(it.index() as int),
    {
        r.push(c);
        assert(r@ =~= s@.take(it.index() as int + 1));
    }
    assert(s@.take(s@.len() as int) =~= s@);
    r
}

/// Appends characters.
pub fn push_all(out: &mut String, s: &Vec<char>)
    ensures
        final(out)@ == old(out)@ + s@,
{
    let ghost before = out@;
    let mut i: usize = 0;
    while i < s.len()
        invariant
            i <= s@.len(),
            out@ == before + s@.take(i as int),
        decreases s@.len() - i,
    {
        out.push(s[i]);
        assert(s@.take(i + 1) =~= s@.take(i as int).push(s@[i as int]));
        assert(out@ =~= before + s@.take(i + 1));
        i = i + 1;
    }
    assert(s@.take(i as int) =~= s@);
}

/// The string of some characters.
pub fn string(s: &Vec<char>) -> (r: String)
    ensures
        r@ == s@,
{
    let mut r = String::new();
    push_all(&mut r, s);
    assert(r@ =~= s@);
    r
}

pub fn digit(d: u8) -> (c: char)
    requires
        d < 16,
    ensures
        c == digit_char(d as int),
{
    if d < 10 {
        (48 + d) as char
    } else {
        (97 + (d - 10)) as char
    }
}

/// Appends `n` in decimal.
pub fn push_decimal(out: &mut String, n: u128)
    ensures
        final(out)@ == old(out)@ + decimal(n as nat),
    decreases n,
{
    let ghost before = out@;
    if n >= 10 {
        push_decimal(out, n / 10);
    }
    out.push(digit((n % 10) as u8));
    assert(out@ =~= before + decimal(n as nat));
}

/// Appends the `width` low hexadecimal digits of `n`.
pub fn push_hex(out: &mut String, n: u64, width: u32)
    ensures
        final(out)@ == old(out)@ + hex(n as nat, width as nat),
    decreases width,
{
    let ghost before = out@;
    if width > 0 {
        push_hex(out, n / 16, width - 1);
        out.push(digit((n % 16) as u8));
    }
    assert(out@ =~= before + hex(n as nat, width as nat));
}

pub fn space_char(c: char) -> (r: bool)
    ensures
        r == is_space(c),
{
    let n = c as u32;
    (9 <= n && n <= 13) || n == 0x20 || n == 0x85 || n == 0xa0 || n == 0x1680 || (0x2000 <= n && n
        <= 0x200a) || n == 0x2028 || n == 0x2029 || n == 0x202f || n == 0x205f || n == 0x3000
}

/// The characters from `from` up to `to`.
pub fn cut(s: &Vec<char>, from: usize, to: usize) -> (r: Vec<char>)
    requires
        from <= to <= s@.len(),
    ensures
        r@ == s@.subrange(from as int, to as int),
{
    let mut r: Vec<char> = Vec::new();
    let mut i: usize = from;
    while i < to
        invariant
            from <= i <= to <= s@.len(),
            r@ == s@.subrange(from as int, i as int),
        decreases to - i,
    {
        r.push(s[i]);
        i = i + 1;
        assert(r@ =~= s@.subrange(from as int, i as int));
    }
    r
}

/// The characters of each piece.
pub open spec fn texts(v: Seq<Vec<char>>) -> Seq<Seq<char>> {
    v.map_values(|p: Vec<char>| p@)
}

/// Splits at every `a` and every `b`.
pub fn split_either(s: &Vec<char>, a: char, b: char) -> (r: Vec<Vec<char>>)
    ensures
        texts(r@) == split(s@, either(a, b)),
        r@.len() >= 1,
{
    let mut done: Vec<Vec<char>> = Vec::new();
    let mut cur: Vec<char> = Vec::new();
    let mut i: usize = 0;
    assert(s@.take(0) =~= Seq::<char>::empty());
    assert(texts(done@).push(cur@) =~= seq![Seq::<char>::empty()]);
    while i < s.len()
        invariant
            i <= s@.len(),
            texts(done@).push(cur@) == split(s@.take(i as int), either(a, b)),
        decreases s@.len() - i,
    {
        let c = s[i];
        let ghost was = texts(done@).push(cur@);
        assert(s@.take(i + 1).drop_last() =~= s@.take(i as int));
        assert(s@.take(i + 1).last() == c);
        if c == a || c == b {
            let ghost d = done@;
            let ghost piece = cur;
            done.push(cur);
            cur = Vec::new();
            assert(texts(done@) =~= texts(d).push(piece@));
            assert(texts(done@).push(cur@) =~= was.push(Seq::<char>::empty()));
        } else {
            cur.push(c);
            assert(texts(done@).push(cur@) =~= was.drop_last().push(was.last().push(c)));
        }
        i = i + 1;
    }
    assert(s@.take(i as int) =~= s@);
    let ghost d = done@;
    let ghost piece = cur;
    done.push(cur);
    assert(texts(done@) =~= texts(d).push(piece@));
    done
}

/// Splits at every `sep`.
pub fn split_at(s: &Vec<char>, sep: char) -> (r: Vec<Vec<char>>)
    ensures
        texts(r@) == split(s@, just(sep)),
        r@.len() >= 1,
{
    assert(either(sep, sep) =~= just(sep));
    split_either(s, sep, sep)
}

/// Splits into words.
pub fn split_words(s: &Vec<char>) -> (r: Vec<Vec<char>>)
    ensures
        texts(r@) == words(s@),
{
    let ghost full = |w: Seq<char>| w.len() > 0;
    let ghost mut pieces = Seq::<Seq<char>>::empty();
    let mut done: Vec<Vec<char>> = Vec::new();
    let mut cur: Vec<char> = Vec::new();
    let mut i: usize = 0;
    assert(s@.take(0) =~= Seq::<char>::empty());
    assert(pieces.push(cur@) =~= seq![Seq::<char>::empty()]);
    proof {
        reveal(Seq::filter);
    }
    assert(texts(done@) =~= pieces.filter(full));
    while i < s.len()
        invariant
            i <= s@.len(),
            full == (|w: Seq<char>| w.len() > 0),
            pieces.push(cur@) == split(s@.take(i as int), space()),
            texts(done@) == pieces.filter(full),
        decreases s@.len() - i,
    {
        let c = s[i];
        let ghost was = pieces.push(cur@);
        assert(s@.take(i + 1).drop_last() =~= s@.take(i as int));
        assert(s@.take(i + 1).last() == c);
        if space_char(c) {
            let ghost d = done@;
            let ghost piece = cur;
            proof {
                lemma_filter_push(pieces, cur@);
                pieces = pieces.push(cur@);
            }
            if cur.len() > 0 {
                done.push(cur);
                assert(texts(done@) =~= texts(d).push(piece@));
            }
            cur = Vec::new();
            assert(pieces.push(cur@) =~= was.push(Seq::<char>::empty()));
        } else {
            cur.push(c);
            assert(pieces.push(cur@) =~= was.drop_last().push(was.last().push(c)));
        }
        i = i + 1;
    }
    assert(s@.take(i as int) =~= s@);
    proof {
        lemma_filter_push(pieces, cur@);
    }
    let ghost d = done@;
    let ghost piece = cur;
    if cur.len() > 0 {
        done.push(cur);
        assert(texts(done@) =~= texts(d).push(piece@));
    }
    done
}

proof fn lemma_filter_push(pieces: Seq<Seq<char>>, last: Seq<char>)
    ensures
        pieces.push(last).filter(|w: Seq<char>| w.len() > 0) == if last.len() > 0 {
            pieces.filter(|w: Seq<char>| w.len() > 0).push(last)
        } else {
            pieces.filter(|w: Seq<char>| w.len() > 0)
        },
{
    reveal(Seq::filter);
    assert(pieces.push(last).drop_last() =~= pieces);
}

pub fn trimmed(s: &Vec<char>) -> (r: Vec<char>)
    ensures
        r@ == trim(s@),
{
    let mut from: usize = 0;
    assert(s@.skip(0) =~= s@);
    while from < s.len() && space_char(s[from])
        invariant
            from <= s@.len(),
            trim_start(s@.skip(from as int)) == trim_start(s@),
        decreases s@.len() - from,
    {
        assert(s@.skip(from as int).skip(1) =~= s@.skip(from + 1));
        from = from + 1;
    }
    let ghost rest = s@.skip(from as int);
    let mut to: usize = s.len();
    assert(s@.subrange(from as int, to as int) =~= rest);
    while from < to && space_char(s[to - 1])
        invariant
            from <= to <= s@.len(),
            rest == s@.skip(from as int),
            trim_end(s@.subrange(from as int, to as int)) == trim_end(rest),
        decreases to,
    {
        assert(s@.subrange(from as int, to as int).drop_last() =~= s@.subrange(
            from as int,
            to - 1,
        ));
        to = to - 1;
    }
    cut(s, from, to)
}

/// Splits into lines.
pub fn split_lines(s: &Vec<char>) -> (r: Vec<Vec<char>>)
    ensures
        texts(r@) == lines(s@),
{
    let pieces = split_at(s, '\n');
    let ghost ended = texts(pieces@).drop_last().map_values(|p: Seq<char>| strip_return(p));
    let mut r: Vec<Vec<char>> = Vec::new();
    let n = pieces.len() - 1;
    let mut i: usize = 0;
    assert(texts(r@) =~= ended.take(0));
    while i < n
        invariant
            n == pieces@.len() - 1,
            i <= n,
            ended == texts(pieces@).drop_last().map_values(|p: Seq<char>| strip_return(p)),
            texts(r@) == ended.take(i as int),
        decreases n - i,
    {
        let p = &pieces[i];
        let ghost was = r@;
        let k = if p.len() > 0 && p[p.len() - 1] == '\r' {
            p.len() - 1
        } else {
            p.len()
        };
        let line = cut(p, 0, k);
        assert(line@ =~= strip_return(p@));
        assert(ended[i as int] == strip_return(p@));
        let ghost piece = line;
        r.push(line);
        assert(texts(r@) =~= texts(was).push(piece@));
        assert(ended.take(i + 1) =~= ended.take(i as int).push(ended[i as int]));
        i = i + 1;
    }
    assert(ended.take(n as int) =~= ended);
    let last = &pieces[n];
    if last.len() > 0 {
        let ghost was = r@;
        let line = cut(last, 0, last.len());
        assert(line@ =~= last@);
        let ghost piece = line;
        r.push(line);
        assert(texts(r@) =~= texts(was).push(piece@));
    }
    r
}

/// Whether two texts are the same.
pub fn same(a: &Vec<char>, b: &Vec<char>) -> (r: bool)
    ensures
        r == (a@ == b@),
{
    if a.len() != b.len() {
        return false;
    }
    let mut i: usize = 0;
    while i < a.len()
        invariant
            a@.len() == b@.len(),
            i <= a@.len(),
            a@.take(i as int) == b@.take(i as int),
        decreases a@.len() - i,
    {
        if a[i] != b[i] {
            return false;
        }
        assert(a@.take(i + 1) =~= a@.take(i as int).push(a@[i as int]));
        assert(b@.take(i + 1) =~= b@.take(i as int).push(b@[i as int]));
        i = i + 1;
    }
    assert(a@.take(i as int) =~= a@);
    assert(b@.take(i as int) =~= b@);
    true
}

/// Whether a text is the given literal.
pub fn is_text(a: &Vec<char>, b: &str) -> (r: bool)
    ensures
        r == (a@ == b@),
{
    same(a, &chars(b))
}

/// Whether `pat` stands in `s` at `i`.
fn stands_at(s: &Vec<char>, pat: &Vec<char>, i: usize) -> (r: bool)
    requires
        i + pat@.len() <= s@.len(),
    ensures
        r == occurs_at(s@, pat@, i as int),
{
    let n = s.len();
    let mut k: usize = 0;
    while k < pat.len()
        invariant
            n == s@.len(),
            i + pat@.len() <= s@.len(),
            k <= pat@.len(),
            forall|j: int| 0 <= j < k ==> s@[i + j] == #[trigger] pat@[j],
        decreases pat@.len() - k,
    {
        if s[i + k] != pat[k] {
            assert(s@.subrange(i as int, i + pat@.len())[k as int] != pat@[k as int]);
            return false;
        }
        k = k + 1;
    }
    assert(s@.subrange(i as int, i + pat@.len()) =~= pat@);
    true
}

/// Whether `pat` occurs in `s`.
pub fn has_text(s: &Vec<char>, pat: &str) -> (r: bool)
    ensures
        r == contains(s@, pat@),
{
    let p = chars(pat);
    if p.len() > s.len() {
        return false;
    }
    let mut i: usize = 0;
    while i <= s.len() - p.len()
        invariant
            p@ == pat@,
            p@.len() <= s@.len(),
            i <= s@.len() - p@.len() + 1,
            forall|j: int| 0 <= j < i ==> !#[trigger] occurs_at(s@, pat@, j),
        decreases s@.len() + 1 - i,
    {
        if stands_at(s, &p, i) {
            return true;
        }
        if i == s.len() - p.len() {
            assert forall|j: int| !#[trigger] occurs_at(s@, pat@, j) by {}
            return false;
        }
        i = i + 1;
    }
    false
}

/// Whether `s` starts with `prefix`.
pub fn has_prefix(s: &Vec<char>, prefix: &str) -> (r: bool)
    ensures
        r == starts_with(s@, prefix@),
{
    let p = chars(prefix);
    if p.len() > s.len() {
        return false;
    }
    assert(s@.subrange(0, p@.len() as int) =~= s@.take(p@.len() as int));
    stands_at(s, &p, 0)
}

pub fn value_of(c: char, radix: u32) -> (r: Option<u32>)
    requires
        radix <= 36,
    ensures
        match r {
            Some(v) => digit_value(c, radix as nat) == Some(v as nat),
            None => digit_value(c, radix as nat) is None,
        },
{
    let n = c as u32;
    let v: u32 = if '0' as u32 <= n && n <= '9' as u32 {
        n - '0' as u32
    } else if 'a' as u32 <= n && n <= 'z' as u32 {
        n - 'a' as u32 + 10
    } else if 'A' as u32 <= n && n <= 'Z' as u32 {
        n - 'A' as u32 + 10
    } else {
        radix
    };
    if v < radix {
        Some(v)
    } else {
        None
    }
}

/// More digits do not make a number smaller.
proof fn lemma_digits_grow(s: Seq<char>, radix: nat, i: int)
    requires
        0 <= i <= s.len(),
        radix >= 1,
        digits(s, radix) is Some,
    ensures
        digits(s.take(i), radix) is Some,
        digits(s.take(i), radix)->0 <= digits(s, radix)->0,
    decreases s.len(),
{
    if i == s.len() {
        assert(s.take(i) =~= s);
    } else {
        lemma_digits_grow(s.drop_last(), radix, i);
        assert(s.drop_last().take(i) =~= s.take(i));
        let high = digits(s.drop_last(), radix)->0;
        assert(high <= high * radix) by (nonlinear_arith)
            requires
                radix >= 1,
        ;
    }
}

/// Reads a number up to `max`.
pub fn read_number(s: &Vec<char>, radix: u32, max: u64) -> (r: Option<u64>)
    requires
        1 <= radix <= 36,
    ensures
        match r {
            Some(v) => bounded_number(s@, radix as nat, max as nat) == Some(v as nat),
            None => bounded_number(s@, radix as nat, max as nat) is None,
        },
{
    let start: usize = if s.len() > 0 && s[0] == '+' {
        1
    } else {
        0
    };
    let ghost run = s@.skip(start as int);
    assert(s@.skip(0) =~= s@);
    if start == s.len() {
        return None;
    }
    let mut v: u64 = 0;
    let mut i: usize = start;
    assert(run.take(0) =~= Seq::<char>::empty());
    while i < s.len()
        invariant
            1 <= radix <= 36,
            start <= i <= s@.len(),
            run == s@.skip(start as int),
            digits(run.take(i - start), radix as nat) == Some(v as nat),
            v <= max,
            run.len() > 0,
            number(s@, radix as nat) == digits(run, radix as nat),
        decreases s@.len() - i,
    {
        let ghost k = i - start;
        assert(run.take(k + 1).drop_last() =~= run.take(k));
        assert(run.take(k + 1).last() == s@[i as int]);
        proof {
            if digits(run, radix as nat) is Some {
                lemma_digits_grow(run, radix as nat, k + 1);
            }
        }
        let d = match value_of(s[i], radix) {
            Some(d) => d,
            None => {
                return None;
            },
        };
        assert(0 <= v * radix <= u64::MAX * 36) by (nonlinear_arith)
            requires
                v <= u64::MAX,
                radix <= 36,
        ;
        let next = (v as u128) * (radix as u128) + d as u128;
        if next > max as u128 {
            return None;
        }
        v = next as u64;
        i = i + 1;
    }
    assert(run.take(i - start) =~= run);
    Some(v)
}

// ------------------------------------------------------------------------ laws

/// A text without separators is one piece.
pub proof fn lemma_split_plain(t: Seq<char>, sep: spec_fn(char) -> bool)
    requires
        forall|i: int| 0 <= i < t.len() ==> !sep(#[trigger] t[i]),
    ensures
        split(t, sep) == seq![t],
    decreases t.len(),
{
    if t.len() == 0 {
        assert(t =~= Seq::<char>::empty());
    } else {
        let u = t.drop_last();
        assert forall|i: int| 0 <= i < u.len() implies !sep(#[trigger] u[i]) by {
            assert(u[i] == t[i]);
        }
        lemma_split_plain(u, sep);
        assert(!sep(t[t.len() - 1]));
        assert(u.push(t.last()) =~= t);
        assert(split(t, sep) =~= seq![t]);
    }
}

/// A separator and a text without separators add that text as a piece.
pub proof fn lemma_split_joined(s: Seq<char>, c: char, t: Seq<char>, sep: spec_fn(char) -> bool)
    requires
        sep(c),
        forall|i: int| 0 <= i < t.len() ==> !sep(#[trigger] t[i]),
    ensures
        split(s.push(c) + t, sep) == split(s, sep).push(t),
    decreases t.len(),
{
    let whole = s.push(c) + t;
    if t.len() == 0 {
        assert(whole =~= s.push(c));
        assert(whole.drop_last() =~= s);
        assert(t =~= Seq::<char>::empty());
    } else {
        let u = t.drop_last();
        assert forall|i: int| 0 <= i < u.len() implies !sep(#[trigger] u[i]) by {
            assert(u[i] == t[i]);
        }
        lemma_split_joined(s, c, u, sep);
        assert(whole.drop_last() =~= s.push(c) + u);
        assert(whole.last() == t[t.len() - 1]);
        assert(u.push(t.last()) =~= t);
        assert(split(whole, sep) =~= split(s, sep).push(t));
    }
}

/// A text without white space is one word.
pub proof fn lemma_word(t: Seq<char>)
    requires
        t.len() > 0,
        forall|i: int| 0 <= i < t.len() ==> !is_space(#[trigger] t[i]),
    ensures
        words(t) == seq![t],
{
    lemma_split_plain(t, space());
    lemma_filter_push(Seq::<Seq<char>>::empty(), t);
    assert(Seq::<Seq<char>>::empty().push(t) =~= seq![t]);
    reveal(Seq::filter);
}

/// A space and a word add that word.
pub proof fn lemma_next_word(s: Seq<char>, t: Seq<char>)
    requires
        t.len() > 0,
        forall|i: int| 0 <= i < t.len() ==> !is_space(#[trigger] t[i]),
    ensures
        words(s.push(' ') + t) == words(s).push(t),
{
    lemma_split_joined(s, ' ', t, space());
    lemma_filter_push(split(s, space()), t);
}

proof fn lemma_digit(d: int, radix: nat)
    requires
        0 <= d < radix <= 16,
    ensures
        digit_value(digit_char(d), radix) == Some(d as nat),
        !is_space(digit_char(d)),
        digit_char(d) != '+',
        d < 10 ==> '0' as int <= digit_char(d) as int <= '9' as int,
{
}

/// The digits of a number, and what they stand for.
pub proof fn lemma_decimal(n: nat)
    ensures
        decimal(n).len() > 0,
        digits(decimal(n), 10) == Some(n),
        forall|i: int|
            0 <= i < decimal(n).len() ==> '0' as int <= #[trigger] decimal(n)[i] as int
                <= '9' as int,
    decreases n,
{
    let s = decimal(n);
    if n < 10 {
        lemma_digit(n as int, 10);
        assert(digits(Seq::<char>::empty(), 10) == Some(0nat));
        assert(s.drop_last() =~= Seq::<char>::empty());
    } else {
        lemma_decimal(n / 10);
        lemma_digit((n % 10) as int, 10);
        assert(s.drop_last() =~= decimal(n / 10));
    }
}

/// A number written in decimal reads back as itself.
pub proof fn law_decimal_reads_back(n: nat)
    ensures
        number(decimal(n), 10) == Some(n),
{
    lemma_decimal(n);
    assert('0' as int <= decimal(n)[0] as int);
}

pub open spec fn power16(width: nat) -> nat
    decreases width,
{
    if width == 0 {
        1
    } else {
        16 * power16((width - 1) as nat)
    }
}

pub proof fn lemma_hex(n: nat, width: nat)
    requires
        n < power16(width),
    ensures
        hex(n, width).len() == width,
        digits(hex(n, width), 16) == Some(n),
        forall|i: int|
            0 <= i < width ==> !is_space(#[trigger] hex(n, width)[i]) && hex(n, width)[i] != '+',
    decreases width,
{
    if width > 0 {
        lemma_hex(n / 16, (width - 1) as nat);
        lemma_digit((n % 16) as int, 16);
        assert(hex(n, width).drop_last() =~= hex(n / 16, (width - 1) as nat));
    }
}

/// A number that fits reads back from its hexadecimal digits.
pub proof fn law_hex_reads_back(n: nat, width: nat)
    requires
        width > 0,
        n < power16(width),
    ensures
        number(hex(n, width), 16) == Some(n),
{
    lemma_hex(n, width);
    assert(hex(n, width)[0] != '+');
}

} // verus!
