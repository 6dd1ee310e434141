//! The text of a position, and that reading it gives the position back.
use vstd::prelude::*;

use crate::bits::lemma_single_hit;
use crate::board::{rights_of, Board};
use crate::fen::{clock, no_rights};
use crate::geometry::{file_of, rank_of};
use crate::moves::WHITE;
use crate::position::{Man, Pos, Rights};
use crate::text::{decimal, push_decimal};

verus! {

// ------------------------------------------------------------------------- rules

/// The letter of a man, in upper case for White.
pub open spec fn letter(m: Man) -> char {
    if m.color == 0 {
        if m.kind == 0 {
            'P'
        } else if m.kind == 1 {
            'N'
        } else if m.kind == 2 {
            'B'
        } else if m.kind == 3 {
            'R'
        } else if m.kind == 4 {
            'Q'
        } else {
            'K'
        }
    } else {
        if m.kind == 0 {
            'p'
        } else if m.kind == 1 {
            'n'
        } else if m.kind == 2 {
            'b'
        } else if m.kind == 3 {
            'r'
        } else if m.kind == 4 {
            'q'
        } else {
            'k'
        }
    }
}

/// A text with the number of free squares that follow it, if there are any.
pub open spec fn with_run(t: Seq<char>, free: nat) -> Seq<char> {
    if free > 0 {
        t + decimal(free)
    } else {
        t
    }
}

/// The text of squares up to the last man among them, and how many free ones follow.
pub open spec fn row_run(row: Seq<Option<Man>>) -> (Seq<char>, nat)
    decreases row.len(),
{
    if row.len() == 0 {
        (Seq::<char>::empty(), 0)
    } else {
        let (t, free) = row_run(row.drop_last());
        match row.last() {
            None => (t, free + 1),
            Some(m) => (with_run(t, free).push(letter(m)), 0),
        }
    }
}

/// The text of a row of squares.
pub open spec fn row_text(row: Seq<Option<Man>>) -> Seq<char> {
    with_run(row_run(row).0, row_run(row).1)
}

pub open spec fn row_of(at: Seq<Option<Man>>, r: int) -> Seq<Option<Man>> {
    Seq::new(8, |f: int| at[r * 8 + f])
}

/// The first `n` ranks, from the eighth down.
pub open spec fn ranks_text(at: Seq<Option<Man>>, n: int) -> Seq<char>
    decreases n,
{
    if n <= 0 {
        Seq::<char>::empty()
    } else if n == 1 {
        row_text(row_of(at, 7))
    } else {
        ranks_text(at, n - 1).push('/') + row_text(row_of(at, 8 - n))
    }
}

pub open spec fn right_text(t: Seq<char>, held: bool, ch: char) -> Seq<char> {
    if held {
        t.push(ch)
    } else {
        t
    }
}

pub open spec fn rights_text(r: Rights) -> Seq<char> {
    if r == no_rights() {
        seq!['-']
    } else {
        let k = right_text(Seq::<char>::empty(), r.wk, 'K');
        let q = right_text(k, r.wq, 'Q');
        let bk = right_text(q, r.bk, 'k');
        right_text(bk, r.bq, 'q')
    }
}

pub open spec fn file_char(sq: int) -> char {
    ('a' as int + file_of(sq)) as char
}

pub open spec fn rank_char(sq: int) -> char {
    ('1' as int + rank_of(sq)) as char
}

pub open spec fn square_text(sq: int) -> Seq<char> {
    seq![file_char(sq), rank_char(sq)]
}

impl Pos {
    /// The text of the position; the move number is always one.
    pub open spec fn fen(self) -> Seq<char> {
        let men = ranks_text(self.at, 8);
        let turn = men.push(' ') + seq![
            if self.stm == 0 {
                'w'
            } else {
                'b'
            },
        ];
        let castle = turn.push(' ') + rights_text(self.rights);
        let ep = castle.push(' ') + if self.ep < 64 {
            square_text(self.ep)
        } else {
            seq!['-']
        };
        let clock = ep.push(' ') + decimal(self.halfmove as nat);
        clock.push(' ') + seq!['1']
    }

    /// An en passant square is kept only while a pawn stands ready to use it.
    pub open spec fn ep_usable(self) -> bool {
        self.ep < 64 ==> Pos::pawn_beside(self.at, self.stm, self.ep_victim(self.ep))
    }

    /// What holds of every position that is read from a text.
    pub open spec fn readable(self) -> bool {
        &&& self.wf()
        &&& self.one_king(0)
        &&& self.one_king(1)
        &&& self.pawns_between()
        &&& self.rights_sound()
        &&& self.ep_behind_pawn()
        &&& self.ep_usable()
        &&& !self.in_check(1 - self.stm)
    }
}

// --------------------------------------------------------------------- execution

/// The letter of a file.
pub fn file_ch(sq: u32) -> (c: char)
    requires
        sq < 64,
    ensures
        c == file_char(sq as int),
{
    (97 + (sq % 8) as u8) as char
}

/// The digit of a rank.
pub fn rank_ch(sq: u32) -> (c: char)
    requires
        sq < 64,
    ensures
        c == rank_char(sq as int),
{
    (49 + (sq / 8) as u8) as char
}

fn man_letter(white: bool, kind: u8) -> (c: char)
    requires
        kind < 6,
    ensures
        c == letter(Man { color: if white { 0 } else { 1 }, kind: kind as int }),
{
    if white {
        match kind {
            0 => 'P',
            1 => 'N',
            2 => 'B',
            3 => 'R',
            4 => 'Q',
            _ => 'K',
        }
    } else {
        match kind {
            0 => 'p',
            1 => 'n',
            2 => 'b',
            3 => 'r',
            4 => 'q',
            _ => 'k',
        }
    }
}

fn push_if(out: &mut String, held: bool, ch: char)
    ensures
        final(out)@ == right_text(old(out)@, held, ch),
{
    if held {
        out.push(ch);
    }
}

impl Board {
    /// Appends the text of rank `r`.
    fn push_rank(&self, out: &mut String, r: usize)
        requires
            self.wf(),
            r < 8,
        ensures
            final(out)@ == old(out)@ + row_text(row_of(self@.at, r as int)),
    {
        let ghost before = out@;
        let ghost row = row_of(self@.at, r as int);
        let mut free: u32 = 0;
        let mut f: usize = 0;
        assert(row.take(0) =~= Seq::<Option<Man>>::empty());
        while f < 8
            invariant
                self.wf(),
                r < 8,
                f <= 8,
                free <= f,
                row == row_of(self@.at, r as int),
                row_run(row.take(f as int)).1 == free,
                out@ == before + row_run(row.take(f as int)).0,
            decreases 8 - f,
        {
            let sq = r * 8 + f;
            let p = self.mailbox[sq];
            proof {
                self.lemma_fields();
                lemma_single_hit(self.colors@[0], sq as u32);
                assert(row.take(f + 1).drop_last() =~= row.take(f as int));
                assert(row.take(f + 1).last() == self@.at[sq as int]);
                assert(self@.at[sq as int] == self.man_on(sq as int));
            }
            if p == 6 {
                free = free + 1;
            } else {
                if free > 0 {
                    push_decimal(out, free as u128);
                    free = 0;
                }
                out.push(man_letter(self.colors[WHITE] & (1u64 << (sq as u32)) != 0, p));
                assert(out@ =~= before + row_run(row.take(f + 1)).0);
            }
            f = f + 1;
        }
        assert(row.take(8) =~= row);
        if free > 0 {
            push_decimal(out, free as u128);
        }
        assert(out@ =~= before + row_text(row));
    }

    fn rights_string(&self) -> (s: String)
        requires
            self.wf(),
        ensures
            s@ == rights_text(self@.rights),
    {
        let mut s = String::new();
        proof {
            lemma_castle_zero(self.castle);
        }
        if self.castle == 0 {
            s.push('-');
            assert(s@ =~= seq!['-']);
        } else {
            push_if(&mut s, self.castle & 1 != 0, 'K');
            push_if(&mut s, self.castle & 2 != 0, 'Q');
            push_if(&mut s, self.castle & 4 != 0, 'k');
            push_if(&mut s, self.castle & 8 != 0, 'q');
        }
        s
    }

    /// The text of the position.
    pub fn to_fen(&self) -> (s: String)
        requires
            self.wf(),
        ensures
            s@ == self@.fen(),
    {
        let mut s = String::new();
        let mut n: usize = 0;
        while n < 8
            invariant
                self.wf(),
                n <= 8,
                s@ == ranks_text(self@.at, n as int),
            decreases 8 - n,
        {
            if n > 0 {
                s.push('/');
            }
            self.push_rank(&mut s, 7 - n);
            assert(s@ =~= ranks_text(self@.at, n + 1));
            n = n + 1;
        }
        let ghost men = s@;
        s.push(' ');
        s.push(
            if self.stm == WHITE {
                'w'
            } else {
                'b'
            },
        );
        let ghost turn = men.push(' ') + seq![
            if self.stm == 0 {
                'w'
            } else {
                'b'
            },
        ];
        assert(s@ =~= turn);
        s.push(' ');
        s.append(self.rights_string().as_str());
        let ghost castle = turn.push(' ') + rights_text(self@.rights);
        assert(s@ =~= castle);
        s.push(' ');
        if self.ep < 64 {
            s.push(file_ch(self.ep as u32));
            s.push(rank_ch(self.ep as u32));
        } else {
            s.push('-');
        }
        let ghost ep = castle.push(' ') + if self@.ep < 64 {
            square_text(self@.ep)
        } else {
            seq!['-']
        };
        assert(s@ =~= ep);
        s.push(' ');
        push_decimal(&mut s, self.halfmove as u128);
        let ghost clock = ep.push(' ') + decimal(self@.halfmove as nat);
        assert(s@ =~= clock);
        s.push(' ');
        s.push('1');
        assert(s@ =~= self@.fen());
        s
    }
}

proof fn lemma_castle_zero(castle: u8)
    requires
        castle < 16,
    ensures
        castle == 0 <==> rights_of(castle) == no_rights(),
{
    assert(castle == 0 <==> castle & 1u8 == 0 && castle & 2u8 == 0 && castle & 4u8 == 0 && castle
        & 8u8 == 0) by (bit_vector)
        requires
            castle < 16,
    ;
}

} // verus!
