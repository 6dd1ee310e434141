//! The notes that the arbiter writes are sorted as what they report.
use vstd::prelude::*;

use crate::arbiter::illegal_text;
use crate::failure::bucket;
use crate::fen_text::{
    file_char, letter, rank_char, ranks_text, rights_text, row_of, row_run, row_text, square_text,
};
use crate::moves::{from_of, to_of};
use crate::native::{hung_text, judged, Answer, GRACE, REPLY_TIMEOUT_MS};
use crate::notation::uci;
use crate::position::{Man, Pos};
use crate::text::{contains, decimal, digit_char, hex, lemma_decimal, occurs_at};

verus! {

// ---------------------------------------------------------------- searching in joined texts

/// Where a text is joined from two, a pattern may also stand across the seam.
spec fn across(x: Seq<char>, y: Seq<char>, pat: Seq<char>, k: int) -> bool {
    &&& 1 <= k < pat.len()
    &&& k <= x.len()
    &&& pat.len() - k <= y.len()
    &&& x.skip(x.len() - k) == pat.take(k)
    &&& y.take(pat.len() - k) == pat.skip(k)
}

proof fn lemma_joined(x: Seq<char>, y: Seq<char>, pat: Seq<char>)
    requires
        pat.len() > 0,
    ensures
        contains(x + y, pat) ==> contains(x, pat) || contains(y, pat) || exists|k: int|
            across(x, y, pat, k),
        contains(x, pat) ==> contains(x + y, pat),
        contains(y, pat) ==> contains(x + y, pat),
{
    let s = x + y;
    if contains(s, pat) {
        let i = choose|i: int| occurs_at(s, pat, i);
        let n = pat.len() as int;
        assert forall|j: int| 0 <= j < n implies s[i + j] == pat[j] by {
            assert(s.subrange(i, i + n)[j] == pat[j]);
        }
        if i + n <= x.len() {
            assert(x.subrange(i, i + n) =~= pat);
            assert(occurs_at(x, pat, i));
        } else if i >= x.len() {
            assert(y.subrange(i - x.len(), i - x.len() + n) =~= pat);
            assert(occurs_at(y, pat, i - x.len()));
        } else {
            let k = x.len() - i;
            assert(x.skip(x.len() - k) =~= pat.take(k));
            assert(y.take(n - k) =~= pat.skip(k));
            assert(across(x, y, pat, k));
        }
    }
    if contains(x, pat) {
        let i = choose|i: int| occurs_at(x, pat, i);
        assert(s.subrange(i, i + pat.len()) =~= x.subrange(i, i + pat.len()));
        assert(occurs_at(s, pat, i));
    }
    if contains(y, pat) {
        let i = choose|i: int| occurs_at(y, pat, i);
        assert(s.subrange(i + x.len(), i + x.len() + pat.len()) =~= y.subrange(i, i + pat.len()));
        assert(occurs_at(s, pat, i + x.len()));
    }
}

/// Text that starts with a character that the pattern has nowhere but at its start brings
/// nothing across the seam.
proof fn lemma_seam(x: Seq<char>, y: Seq<char>, pat: Seq<char>, k: int)
    requires
        across(x, y, pat, k),
    ensures
        y[0] == pat[k],
        pat.len() - k >= 2 ==> y[1] == pat[k + 1],
        x.last() == pat[k - 1],
        k >= 2 ==> x[x.len() - 2] == pat[k - 2],
{
    assert(y.take(pat.len() - k)[0] == pat.skip(k)[0]);
    if pat.len() - k >= 2 {
        assert(y.take(pat.len() - k)[1] == pat.skip(k)[1]);
    }
    assert(x.skip(x.len() - k)[k - 1] == pat.take(k)[k - 1]);
    if k >= 2 {
        assert(x.skip(x.len() - k)[k - 2] == pat.take(k)[k - 2]);
    }
}

/// Whether two characters stand side by side somewhere.
spec fn side_by_side(s: Seq<char>, a: char, b: char) -> bool {
    exists|j: int| 0 <= j < s.len() - 1 && #[trigger] s[j] == a && s[j + 1] == b
}

proof fn lemma_pair(s: Seq<char>, pat: Seq<char>, i: int)
    requires
        0 <= i < pat.len() - 1,
        !side_by_side(s, pat[i], pat[i + 1]),
    ensures
        !contains(s, pat),
{
    if contains(s, pat) {
        let at = choose|at: int| occurs_at(s, pat, at);
        assert(s.subrange(at, at + pat.len())[i] == pat[i]);
        assert(s.subrange(at, at + pat.len())[i + 1] == pat[i + 1]);
        assert(s[at + i] == pat[i] && s[at + i + 1] == pat[i + 1]);
    }
}

/// A text whose characters all differ from one that the pattern holds lacks the pattern.
proof fn lemma_lacks(s: Seq<char>, pat: Seq<char>, i: int)
    requires
        0 <= i < pat.len(),
        forall|j: int| 0 <= j < s.len() ==> #[trigger] s[j] != pat[i],
    ensures
        !contains(s, pat),
{
    if contains(s, pat) {
        let at = choose|at: int| occurs_at(s, pat, at);
        assert(s.subrange(at, at + pat.len())[i] == pat[i]);
        assert(s[at + i] == pat[i]);
    }
}

// ------------------------------------------------------------------ characters of texts

/// No `t` and no `u`.
spec fn calm(s: Seq<char>) -> bool {
    forall|i: int| 0 <= i < s.len() ==> #[trigger] s[i] != 't' && s[i] != 'u'
}

proof fn lemma_calm_joined(a: Seq<char>, b: Seq<char>)
    requires
        calm(a),
        calm(b),
    ensures
        calm(a + b),
{
}

proof fn lemma_calm_decimal(n: nat)
    ensures
        calm(decimal(n)),
{
    lemma_decimal(n);
    assert forall|i: int| 0 <= i < decimal(n).len() implies #[trigger] decimal(n)[i] != 't'
        && decimal(n)[i] != 'u' by {
        assert('0' as int <= decimal(n)[i] as int <= '9' as int);
    }
}

proof fn lemma_calm_hex(n: nat, width: nat)
    ensures
        calm(hex(n, width)),
    decreases width,
{
    if width > 0 {
        lemma_calm_hex(n / 16, (width - 1) as nat);
        let d = digit_char((n % 16) as int);
        assert(d != 't' && d != 'u');
    }
}

proof fn lemma_calm_square(sq: int)
    requires
        0 <= sq < 64,
    ensures
        calm(square_text(sq)),
{
    assert(file_char(sq) as int == 'a' as int + sq % 8);
    assert(rank_char(sq) as int == '1' as int + sq / 8);
}

proof fn lemma_calm_uci(m: u16)
    ensures
        calm(uci(m)),
{
    lemma_calm_square(from_of(m));
    lemma_calm_square(to_of(m));
}

proof fn lemma_calm_row(row: Seq<Option<Man>>)
    ensures
        calm(row_run(row).0),
        calm(row_text(row)),
    decreases row.len(),
{
    if row.len() > 0 {
        lemma_calm_row(row.drop_last());
        lemma_calm_decimal(row_run(row.drop_last()).1);
        if let Some(m) = row.last() {
            assert(letter(m) != 't' && letter(m) != 'u');
        }
    }
    lemma_calm_decimal(row_run(row).1);
}

proof fn lemma_calm_ranks(at: Seq<Option<Man>>, n: int)
    ensures
        calm(ranks_text(at, n)),
    decreases n,
{
    if n > 0 {
        lemma_calm_ranks(at, n - 1);
        lemma_calm_row(row_of(at, 8 - n));
        lemma_calm_row(row_of(at, 7));
    }
}

proof fn lemma_calm_fen(p: Pos)
    requires
        p.wf(),
    ensures
        calm(p.fen()),
{
    lemma_calm_ranks(p.at, 8);
    lemma_calm_decimal(p.halfmove as nat);
    if p.ep < 64 {
        lemma_calm_square(p.ep);
    }
    assert(calm(rights_text(p.rights)));
}

// ------------------------------------------------------------------------------ the laws

/// The words by which notes are sorted, in the order in which they are looked for.
proof fn lemma_words()
    ensures
        "crashed with signal"@.len() == 19,
        "crashed with signal"@[10] == 't',
        "crashed with signal"@[11] == 'h',
        forall|k: int| 0 <= k < 19 ==> #[trigger] "crashed with signal"@[k] != ':',
        forall|k: int|
            0 <= k < 18 && #[trigger] "crashed with signal"@[k] == ' ' ==> "crashed with signal"@[k
                + 1] == 'w' || "crashed with signal"@[k + 1] == 's',
        "crashed with signal"@[0] == 'c',
        "crashed with signal"@[18] == 'l',
        "exited with status"@.len() == 18,
        "exited with status"@[9] == 't',
        "exited with status"@[10] == 'h',
        forall|k: int| 0 <= k < 18 ==> #[trigger] "exited with status"@[k] != ':',
        forall|k: int|
            0 <= k < 17 && #[trigger] "exited with status"@[k] == ' ' ==> "exited with status"@[k
                + 1] == 'w' || "exited with status"@[k + 1] == 's',
        "exited with status"@[0] == 'e',
        "exited with status"@[1] == 'x',
        "exited with status"@[17] == 's',
        "hung"@.len() == 4,
        "hung"@[0] == 'h',
        "hung"@[1] == 'u',
        forall|k: int| 0 <= k < 4 ==> #[trigger] "hung"@[k] != ':' && "hung"@[k] != ' ',
        "illegal move"@.len() == 12,
        "illegal move"@[0] == 'i',
        "illegal move"@[1] == 'l',
        forall|k: int| 0 <= k < 12 ==> #[trigger] "illegal move"@[k] != ':',
        "budget overrun"@.len() == 14,
        "budget overrun"@[0] == 'b',
        forall|k: int| 0 <= k < 14 ==> #[trigger] "budget overrun"@[k] != ':',
        "returned move 0"@.len() == 15,
{
    reveal_strlit("crashed with signal");
    reveal_strlit("exited with status");
    reveal_strlit("hung");
    reveal_strlit("illegal move");
    reveal_strlit("budget overrun");
    reveal_strlit("returned move 0");
}

/// A colon after the name keeps a pattern without colons from standing across the seam.
proof fn lemma_after_colon(name: Seq<char>, y: Seq<char>, pat: Seq<char>)
    requires
        pat.len() > 0,
        y.len() > 0,
        y[0] == ':',
        forall|k: int| 0 <= k < pat.len() ==> #[trigger] pat[k] != ':',
        !contains(y, pat),
    ensures
        contains(name + y, pat) == contains(name, pat),
{
    lemma_joined(name, y, pat);
    if exists|k: int| across(name, y, pat, k) {
        let k = choose|k: int| across(name, y, pat, k);
        lemma_seam(name, y, pat, k);
        assert(pat[k] != ':');
    }
}

proof fn lemma_word_inside(a: Seq<char>, pat: Seq<char>, b: Seq<char>)
    ensures
        contains(a + pat + b, pat),
{
    let s = a + pat + b;
    assert(s.subrange(a.len() as int, a.len() as int + pat.len()) =~= pat);
    assert(occurs_at(s, pat, a.len() as int));
}

/// A note about a move that was not returned is sorted as one, unless the engine's own name
/// reads like a failure that is looked for earlier.
pub proof fn law_no_move_notes_are_sorted(name: Seq<char>)
    ensures
        bucket(name + ": "@ + "returned move 0 (no move chosen)"@) == if bucket(name) < 4 {
            bucket(name)
        } else {
            4
        },
{
    lemma_words();
    reveal_strlit(": ");
    reveal_strlit("returned move 0 (no move chosen)");
    reveal_strlit("returned move 0");
    reveal_strlit(" (no move chosen)");
    let y = ": "@ + "returned move 0 (no move chosen)"@;
    let note = name + ": "@ + "returned move 0 (no move chosen)"@;
    assert(note =~= name + y);
    assert(y[0] == ':');
    assert(!side_by_side(y, 't', 'h'));
    lemma_pair(y, "crashed with signal"@, 10);
    lemma_pair(y, "exited with status"@, 9);
    assert(!side_by_side(y, 'h', 'u'));
    lemma_pair(y, "hung"@, 0);
    lemma_lacks(y, "illegal move"@, 0);
    lemma_lacks(y, "budget overrun"@, 0);
    lemma_after_colon(name, y, "crashed with signal"@);
    lemma_after_colon(name, y, "exited with status"@);
    lemma_after_colon(name, y, "hung"@);
    lemma_after_colon(name, y, "illegal move"@);
    lemma_after_colon(name, y, "budget overrun"@);
    assert("returned move 0 (no move chosen)"@ =~= "returned move 0"@ + " (no move chosen)"@);
    lemma_word_inside(name + ": "@, "returned move 0"@, " (no move chosen)"@);
    assert(note =~= name + ": "@ + "returned move 0"@ + " (no move chosen)"@);
}

/// A note about an overrun is sorted as one, unless the engine's own name reads like a
/// failure that is looked for earlier. The text of the percentage holds no `t`, `h` or `l`.
pub proof fn law_overrun_notes_are_sorted(
    name: Seq<char>,
    t0: u64,
    t1: u64,
    answer: u16,
    budget: u64,
    percent: Seq<char>,
)
    requires
        t0 <= t1 < u64::MAX,
        t1 - t0 > budget + GRACE,
        forall|i: int|
            0 <= i < percent.len() ==> #[trigger] percent[i] != 't' && percent[i] != 'h'
                && percent[i] != 'l',
    ensures
        judged(t0, t1, answer, budget, percent) matches Answer::Forfeit(why) && bucket(
            name + ": "@ + why,
        ) == if bucket(name) < 3 {
            bucket(name)
        } else {
            3
        },
{
    lemma_words();
    reveal_strlit(": ");
    reveal_strlit("budget overrun");
    reveal_strlit(": spent ");
    reveal_strlit("budget overrun: spent ");
    reveal_strlit(" cycles of ");
    reveal_strlit(" (");
    reveal_strlit("%, grace ");
    reveal_strlit(")");
    let d1 = decimal((t1 - t0) as nat);
    let d2 = decimal(budget as nat);
    let d3 = decimal(GRACE as nat);
    let why = "budget overrun: spent "@ + d1 + " cycles of "@ + d2 + " ("@ + percent + "%, grace "@
        + d3 + ")"@;
    let rest = ": spent "@ + d1 + " cycles of "@ + d2 + " ("@ + percent + "%, grace "@ + d3 + ")"@;
    let y = ": "@ + why;
    let note = name + ": "@ + why;
    assert(note =~= name + y);
    assert(y[0] == ':');
    lemma_digit_range(d1, (t1 - t0) as nat);
    lemma_digit_range(d2, budget as nat);
    lemma_digit_range(d3, GRACE as nat);
    assert(y =~= ": "@ + "budget overrun"@ + rest);
    // The parts of the note hold no `h`, and a `t` is never followed by one.
    assert(quiet(": "@) && quiet("budget overrun"@) && quiet(": spent "@) && quiet(
        " cycles of "@,
    ) && quiet(" ("@) && quiet("%, grace "@) && quiet(")"@));
    assert(quiet(y)) by {
        assert forall|i: int| 0 <= i < y.len() implies #[trigger] y[i] != 'h' by {}
    }
    assert(!side_by_side(y, 'i', 'l')) by {
        lemma_no_il(percent, d1, d2, d3);
    }
    lemma_lacks(y, "crashed with signal"@, 11);
    lemma_lacks(y, "exited with status"@, 10);
    lemma_lacks(y, "hung"@, 0);
    lemma_pair(y, "illegal move"@, 0);
    lemma_after_colon(name, y, "crashed with signal"@);
    lemma_after_colon(name, y, "exited with status"@);
    lemma_after_colon(name, y, "hung"@);
    lemma_after_colon(name, y, "illegal move"@);
    assert("budget overrun: spent "@ =~= "budget overrun"@ + ": spent "@);
    lemma_word_inside(name + ": "@, "budget overrun"@, rest);
    assert(note =~= name + ": "@ + "budget overrun"@ + rest);
}

/// No `h`.
spec fn quiet(s: Seq<char>) -> bool {
    forall|i: int| 0 <= i < s.len() ==> #[trigger] s[i] != 'h'
}

proof fn lemma_digit_range(d: Seq<char>, n: nat)
    requires
        d == decimal(n),
    ensures
        quiet(d),
        forall|i: int| 0 <= i < d.len() ==> '0' as int <= #[trigger] d[i] as int <= '9' as int,
{
    lemma_decimal(n);
    assert forall|i: int| 0 <= i < d.len() implies #[trigger] d[i] != 'h' by {
        assert('0' as int <= d[i] as int <= '9' as int);
    }
}

proof fn lemma_no_il(percent: Seq<char>, d1: Seq<char>, d2: Seq<char>, d3: Seq<char>)
    requires
        forall|i: int| 0 <= i < percent.len() ==> #[trigger] percent[i] != 'l',
        forall|i: int| 0 <= i < d1.len() ==> '0' as int <= #[trigger] d1[i] as int <= '9' as int,
        forall|i: int| 0 <= i < d2.len() ==> '0' as int <= #[trigger] d2[i] as int <= '9' as int,
        forall|i: int| 0 <= i < d3.len() ==> '0' as int <= #[trigger] d3[i] as int <= '9' as int,
    ensures
        !side_by_side(
            ": "@ + ("budget overrun: spent "@ + d1 + " cycles of "@ + d2 + " ("@ + percent
                + "%, grace "@ + d3 + ")"@),
            'i',
            'l',
        ),
{
    reveal_strlit(": ");
    reveal_strlit("budget overrun: spent ");
    reveal_strlit(" cycles of ");
    reveal_strlit(" (");
    reveal_strlit("%, grace ");
    reveal_strlit(")");
    let a = ": "@ + ("budget overrun: spent "@ + d1);
    let b = " cycles of "@;
    let c = d2 + " ("@ + percent + "%, grace "@ + d3 + ")"@;
    let y = ": "@ + ("budget overrun: spent "@ + d1 + " cycles of "@ + d2 + " ("@ + percent
        + "%, grace "@ + d3 + ")"@);
    assert(y =~= a + b + c);
    assert forall|j: int| 0 <= j < y.len() - 1 && #[trigger] y[j] == 'i' implies y[j + 1]
        != 'l' by {
        // An `l` stands in one of the parts alone, behind a `c`.
        if j + 1 < a.len() {
            assert(y[j + 1] == a[j + 1]);
        } else if j + 1 < a.len() + b.len() {
            assert(y[j + 1] == b[j + 1 - a.len()]);
            if j + 1 - a.len() == 4 {
                assert(y[j] == b[3]);
            }
        } else {
            assert(y[j + 1] == c[j + 1 - a.len() - b.len()]);
        }
    }
}

/// What follows the name in the report of a hang.
spec fn hung_tail() -> Seq<char> {
    " hung: no reply within "@ + decimal(REPLY_TIMEOUT_MS as nat) + "ms"@
}

proof fn lemma_hung_tail()
    ensures
        hung_tail().len() >= 2,
        hung_tail()[0] == ' ',
        hung_tail()[1] == 'h',
        !contains(hung_tail(), "crashed with signal"@),
        !contains(hung_tail(), "exited with status"@),
{
    lemma_words();
    reveal_strlit(" hung: no reply within ");
    reveal_strlit("ms");
    let d = decimal(REPLY_TIMEOUT_MS as nat);
    lemma_digit_range(d, REPLY_TIMEOUT_MS as nat);
    let tail = hung_tail();
    assert forall|j: int| 0 <= j < tail.len() implies #[trigger] tail[j] != 'c' && tail[j]
        != 'x' by {
        if 23 <= j < 23 + d.len() {
            assert(tail[j] == d[j - 23]);
        }
    }
    lemma_lacks(tail, "crashed with signal"@, 0);
    lemma_lacks(tail, "exited with status"@, 1);
}

proof fn lemma_hung_inside(x: Seq<char>)
    ensures
        contains(x + hung_tail(), "hung"@),
{
    reveal_strlit(" hung: no reply within ");
    reveal_strlit(" ");
    reveal_strlit("hung");
    reveal_strlit(": no reply within ");
    let rest = ": no reply within "@ + decimal(REPLY_TIMEOUT_MS as nat) + "ms"@;
    lemma_word_inside(x + " "@, "hung"@, rest);
    assert(" hung: no reply within "@ =~= " "@ + "hung"@ + ": no reply within "@);
    assert(x + hung_tail() =~= x + " "@ + "hung"@ + rest);
}

/// A note about a hang is sorted as one, unless the engine's own name reads like a crash.
pub proof fn law_hang_notes_are_sorted(name: Seq<char>)
    ensures
        bucket(name + ": "@ + hung_text(name)) == if bucket(name) < 1 {
            bucket(name)
        } else {
            1
        },
{
    lemma_words();
    lemma_hung_tail();
    let tail = hung_tail();
    let note = name + ": "@ + hung_text(name);
    assert(note =~= name + ": "@ + name + tail);
    lemma_twice_named(name, tail, "crashed with signal"@);
    lemma_twice_named(name, tail, "exited with status"@);
    lemma_hung_inside(name + ": "@ + name);
}

/// A pattern in a note that gives the name twice stands in the name.
proof fn lemma_twice_named(name: Seq<char>, tail: Seq<char>, pat: Seq<char>)
    requires
        pat.len() > 2,
        !contains(tail, pat),
        tail.len() >= 2,
        tail[0] == ' ',
        tail[1] == 'h',
        pat[0] != ' ',
        pat.last() != ' ',
        forall|k: int| 0 <= k < pat.len() ==> #[trigger] pat[k] != ':',
        forall|k: int|
            0 <= k < pat.len() - 1 && #[trigger] pat[k] == ' ' ==> pat[k + 1] == 'w' || pat[k + 1]
                == 's',
    ensures
        contains(name + ": "@ + name + tail, pat) == contains(name, pat),
{
    reveal_strlit(": ");
    let colon = ": "@;
    let x = name + colon;
    let xx = x + name;
    assert(colon.len() == 2 && colon[0] == ':' && colon[1] == ' ');
    assert(!contains(colon, pat)) by {
        lemma_lacks(colon, pat, 0);
    }
    lemma_after_colon(name, colon, pat);
    lemma_joined(x, name, pat);
    if exists|k: int| across(x, name, pat, k) {
        let k = choose|k: int| across(x, name, pat, k);
        lemma_seam(x, name, pat, k);
        assert(x.last() == ' ');
        assert(x[x.len() - 2] == ':');
        assert(pat[k - 1] == ' ');
        if k >= 2 {
            assert(pat[k - 2] != ':');
        }
    }
    lemma_joined(xx, tail, pat);
    if exists|k: int| across(xx, tail, pat, k) {
        let k = choose|k: int| across(xx, tail, pat, k);
        lemma_seam(xx, tail, pat, k);
        assert(pat[k] == ' ');
        if k == pat.len() - 1 {
            assert(pat.last() == pat[k]);
        } else {
            assert(pat[k + 1] == 'h');
        }
    }
}

/// A note about an illegal move is sorted as one, unless the engine's own name reads like a
/// failure that is looked for earlier.
pub proof fn law_illegal_move_notes_are_sorted(name: Seq<char>, m: u16, p: Pos)
    requires
        p.wf(),
    ensures
        bucket(illegal_text(name, m, p)) == if bucket(name) < 2 {
            bucket(name)
        } else {
            2
        },
{
    lemma_words();
    reveal_strlit(" played illegal move ");
    reveal_strlit(" played ");
    reveal_strlit("illegal move");
    reveal_strlit(" ");
    reveal_strlit(" (0x");
    reveal_strlit(") in position ");
    lemma_calm_uci(m);
    lemma_calm_hex(m as nat, 4);
    lemma_calm_fen(p);
    let mid = " played illegal move "@ + uci(m) + " (0x"@ + hex(m as nat, 4);
    let pos = ") in position "@;
    let y = mid + pos + p.fen();
    let note = illegal_text(name, m, p);
    assert(note =~= name + y);
    assert(y[0] == ' ' && y[1] == 'p');
    assert(calm(mid)) by {
        assert(calm(" played illegal move "@));
        lemma_calm_joined(" played illegal move "@, uci(m));
        assert(calm(" (0x"@));
        lemma_calm_joined(" played illegal move "@ + uci(m), " (0x"@);
        lemma_calm_joined(" played illegal move "@ + uci(m) + " (0x"@, hex(m as nat, 4));
    }
    assert(!side_by_side(y, 't', 'h')) by {
        assert forall|j: int| 0 <= j < y.len() - 1 && #[trigger] y[j] == 't' implies y[j + 1]
            != 'h' by {
            if j < mid.len() {
                assert(y[j] == mid[j]);
            } else if j < mid.len() + pos.len() {
                assert(y[j] == pos[j - mid.len()]);
                assert(j - mid.len() == 9);
                assert(y[j + 1] == pos[10]);
            } else {
                assert(y[j] == p.fen()[j - mid.len() - pos.len()]);
            }
        }
    }
    assert forall|j: int| 0 <= j < y.len() implies #[trigger] y[j] != 'u' by {
        if j < mid.len() {
            assert(y[j] == mid[j]);
        } else if j < mid.len() + pos.len() {
            assert(y[j] == pos[j - mid.len()]);
        } else {
            assert(y[j] == p.fen()[j - mid.len() - pos.len()]);
        }
    }
    lemma_pair(y, "crashed with signal"@, 10);
    lemma_pair(y, "exited with status"@, 9);
    lemma_lacks(y, "hung"@, 1);
    lemma_after_played(name, y, "crashed with signal"@);
    lemma_after_played(name, y, "exited with status"@);
    lemma_after_played(name, y, "hung"@);
    let rest = " "@ + uci(m) + " (0x"@ + hex(m as nat, 4) + pos + p.fen();
    assert(" played illegal move "@ =~= " played "@ + "illegal move"@ + " "@);
    lemma_word_inside(name + " played "@, "illegal move"@, rest);
    assert(note =~= name + " played "@ + "illegal move"@ + rest);
}

/// Text that goes on with a space and a `p` completes no pattern that has no such pair.
proof fn lemma_after_played(name: Seq<char>, y: Seq<char>, pat: Seq<char>)
    requires
        pat.len() > 0,
        y.len() >= 2,
        y[0] == ' ',
        y[1] == 'p',
        pat.last() != ' ',
        forall|k: int| 0 <= k < pat.len() - 1 && #[trigger] pat[k] == ' ' ==> pat[k + 1] != 'p',
        !contains(y, pat),
    ensures
        contains(name + y, pat) == contains(name, pat),
{
    lemma_joined(name, y, pat);
    if exists|k: int| across(name, y, pat, k) {
        let k = choose|k: int| across(name, y, pat, k);
        lemma_seam(name, y, pat, k);
        assert(pat[k] == ' ');
        if k == pat.len() - 1 {
            assert(pat.last() == pat[k]);
        } else {
            assert(pat[k + 1] == 'p');
        }
    }
}

} // verus!
