//! Position hashes: one pseudo-random key for each thing that tells positions apart.
use vstd::prelude::*;

use crate::board::{rights_of, Board};
use crate::moves::BLACK;
use crate::position::{Man, Pos, Rights};

verus! {

/// The state of the generator before its first draw.
pub const SEED: u64 = 0x1234_5678_9ABC_DEF0;

/// What each draw adds to the state.
pub const GAMMA: u64 = 0x9E37_79B9_7F4A_7C15;

/// How the splitmix64 generator turns its state into a number.
pub open spec fn mixed(state: u64) -> u64 {
    let a = (state ^ (state >> 30u64)).wrapping_mul(0xBF58_476D_1CE4_E5B9);
    let b = (a ^ (a >> 27u64)).wrapping_mul(0x94D0_49BB_1331_11EB);
    b ^ (b >> 31u64)
}

/// The key that is drawn after `i` others.
pub open spec fn key(i: int) -> u64 {
    mixed(((SEED + (i + 1) * GAMMA) % 0x1_0000_0000_0000_0000) as u64)
}

/// The keys of the men come first, by colour, kind and square.
pub open spec fn man_key(m: Man, sq: int) -> u64 {
    key((m.color * 6 + m.kind) * 64 + sq)
}

/// The rights as a number below sixteen.
pub open spec fn rights_code(r: Rights) -> int {
    (if r.wk {
        1int
    } else {
        0int
    }) + (if r.wq {
        2int
    } else {
        0int
    }) + (if r.bk {
        4int
    } else {
        0int
    }) + (if r.bq {
        8int
    } else {
        0int
    })
}

impl Pos {
    /// The keys of the men below `n`, combined.
    pub open spec fn men_hash(self, n: int) -> u64
        decreases n,
    {
        if n <= 0 {
            0
        } else {
            match self.at[n - 1] {
                Some(m) => self.men_hash(n - 1) ^ man_key(m, n - 1),
                None => self.men_hash(n - 1),
            }
        }
    }

    /// The hash of the position: every man, the castling rights, the file of the en passant
    /// square and the side to move count; the halfmove clock does not.
    pub open spec fn hash(self) -> u64 {
        let men = self.men_hash(64) ^ key(768 + rights_code(self.rights));
        let ep = if self.ep < 64 {
            men ^ key(784 + self.ep % 8)
        } else {
            men
        };
        if self.stm == 1 {
            ep ^ key(792)
        } else {
            ep
        }
    }
}

/// Positions that differ in the halfmove clock alone have one hash.
pub proof fn law_hash_ignores_clock(p: Pos, q: Pos)
    requires
        p.at == q.at,
        p.stm == q.stm,
        p.rights == q.rights,
        p.ep == q.ep,
    ensures
        p.hash() == q.hash(),
{
    lemma_men_hash(p, q, 64);
}

proof fn lemma_men_hash(p: Pos, q: Pos, n: int)
    requires
        p.at == q.at,
    ensures
        p.men_hash(n) == q.men_hash(n),
    decreases n,
{
    if n > 0 {
        lemma_men_hash(p, q, n - 1);
    }
}

/// The keys of the position hash, drawn as they are asked for.
pub struct Zobrist {
    pub seed: u64,
}

impl Zobrist {
    pub fn new() -> (z: Zobrist)
        ensures
            z.seed == SEED,
    {
        Zobrist { seed: SEED }
    }

    /// Draws the key that follows `i` others.
    fn draw(&self, i: u64) -> (r: u64)
        requires
            self.seed == SEED,
            i < 1000,
        ensures
            r == key(i as int),
    {
        let state = self.seed.wrapping_add((i + 1).wrapping_mul(GAMMA));
        proof {
            let x = (i + 1) * GAMMA;
            vstd::arithmetic::div_mod::lemma_add_mod_noop(
                SEED as int,
                x,
                0x1_0000_0000_0000_0000,
            );
            assert(state as int == (SEED + x) % 0x1_0000_0000_0000_0000);
        }
        let a = (state ^ (state >> 30)).wrapping_mul(0xBF58_476D_1CE4_E5B9);
        let b = (a ^ (a >> 27)).wrapping_mul(0x94D0_49BB_1331_11EB);
        b ^ (b >> 31)
    }

    /// The key of a man of colour `c` and kind `p` on `sq`.
    pub fn piece(&self, c: usize, p: usize, sq: usize) -> (r: u64)
        requires
            self.seed == SEED,
            c < 2,
            p < 6,
            sq < 64,
        ensures
            r == man_key(Man { color: c as int, kind: p as int }, sq as int),
    {
        self.draw(((c * 6 + p) * 64 + sq) as u64)
    }

    /// The key of the castling rights `i`.
    pub fn castle(&self, i: u8) -> (r: u64)
        requires
            self.seed == SEED,
            i < 16,
        ensures
            r == key(768 + i),
    {
        self.draw(768 + i as u64)
    }

    /// The key of an en passant square on file `f`.
    pub fn ep(&self, f: u8) -> (r: u64)
        requires
            self.seed == SEED,
            f < 8,
        ensures
            r == key(784 + f),
    {
        self.draw(784 + f as u64)
    }

    /// The key of Black being to move.
    pub fn stm(&self) -> (r: u64)
        requires
            self.seed == SEED,
        ensures
            r == key(792),
    {
        self.draw(792)
    }
}

proof fn lemma_rights_code(castle: u8)
    requires
        castle < 16,
    ensures
        rights_code(rights_of(castle)) == castle,
{
    assert(castle == (if castle & 1u8 != 0 { 1u8 } else { 0u8 }) + (if castle & 2u8 != 0 { 2u8 } else { 0u8 }) + (if castle & 4u8 != 0 {
        4u8
    } else {
        0u8
    }) + (if castle & 8u8 != 0 { 8u8 } else { 0u8 })) by (bit_vector)
        requires
            castle < 16,
    ;
}

impl Board {
    /// The hash of the position.
    pub fn hash(&self) -> (h: u64)
        requires
            self.wf(),
        ensures
            h == self@.hash(),
    {
        let z = Zobrist::new();
        let ghost p = self@;
        let mut h: u64 = 0;
        let mut sq: usize = 0;
        proof {
            self.lemma_fields();
            lemma_rights_code(self.castle);
        }
        while sq < 64
            invariant
                self.wf(),
                z.seed == SEED,
                p == self@,
                sq <= 64,
                h == p.men_hash(sq as int),
            decreases 64 - sq,
        {
            proof {
                self.lemma_fields();
                assert(p.at[sq as int] == self.man_on(sq as int));
            }
            let k = self.mailbox[sq];
            if k < 6 {
                let c: usize = if self.colors[0] & (1u64 << (sq as u32)) != 0 {
                    0
                } else {
                    1
                };
                proof {
                    crate::bits::lemma_single_hit(self.colors@[0], sq as u32);
                }
                h = h ^ z.piece(c, k as usize, sq);
            }
            sq = sq + 1;
        }
        h = h ^ z.castle(self.castle);
        if self.ep < 64 {
            h = h ^ z.ep(self.ep % 8);
        }
        if self.stm == BLACK {
            h = h ^ z.stm();
        }
        h
    }
}

} // verus!
