//! Hashes tell positions apart: every key is its own, and whatever differs in one place
//! differs in its hash.
use vstd::arithmetic::div_mod::{
    lemma_add_mod_noop, lemma_mod_equivalence, lemma_mul_mod_noop_left, lemma_small_mod,
};
use vstd::prelude::*;

use crate::geometry::is_square;
use crate::mixing::{
    lemma_factor_undone, lemma_folds_undone, lemma_product_undone, lemma_xor, words64,
};
use crate::position::{Man, Pos};
use crate::zobrist::{key, man_key, mixed, rights_code};

verus! {

proof fn lemma_mixed_undone(x: u64, y: u64)
    requires
        mixed(x) == mixed(y),
    ensures
        x == y,
{
    let a = (x ^ (x >> 30u64)).wrapping_mul(0xBF58_476D_1CE4_E5B9);
    let b = (a ^ (a >> 27u64)).wrapping_mul(0x94D0_49BB_1331_11EB);
    let c = (y ^ (y >> 30u64)).wrapping_mul(0xBF58_476D_1CE4_E5B9);
    let d = (c ^ (c >> 27u64)).wrapping_mul(0x94D0_49BB_1331_11EB);
    lemma_folds_undone(b, d);
    lemma_product_undone(
        a ^ (a >> 27u64),
        c ^ (c >> 27u64),
        0x94D0_49BB_1331_11EB,
        0x3196_42b2_d24d_8ec3,
    );
    lemma_folds_undone(a, c);
    lemma_product_undone(
        x ^ (x >> 30u64),
        y ^ (y >> 30u64),
        0xBF58_476D_1CE4_E5B9,
        0x96de_1b17_3f11_9089,
    );
    lemma_folds_undone(x, y);
}

proof fn lemma_mixed_zero()
    ensures
        mixed(0) == 0,
{
    assert(0u64 ^ (0u64 >> 30u64) == 0 && 0u64 ^ (0u64 >> 27u64) == 0 && 0u64 ^ (0u64 >> 31u64)
        == 0) by (bit_vector);
}

/// The keys are the numbers of a splitmix64 generator with a fixed seed, in the order in which
/// it gives them.
pub proof fn law_keys_are_drawn_in_order(i: int)
    requires
        0 <= i,
    ensures
        ({
            let state = ((0x1234_5678_9ABC_DEF0 + (i + 1) * 0x9E37_79B9_7F4A_7C15)
                % 0x1_0000_0000_0000_0000) as u64;
            let once = ((state ^ (state >> 30u64)) * 0xBF58_476D_1CE4_E5B9
                % 0x1_0000_0000_0000_0000) as u64;
            let twice = ((once ^ (once >> 27u64)) * 0x94D0_49BB_1331_11EB
                % 0x1_0000_0000_0000_0000) as u64;
            key(i) == twice ^ (twice >> 31u64)
        }),
{
}

/// No two draws of the schedule give the same key, and none gives nothing.
pub proof fn law_no_two_keys_are_the_same(i: int, j: int)
    requires
        0 <= i < 793,
        0 <= j < 793,
    ensures
        key(i) == key(j) ==> i == j,
        key(i) != 0,
{
    let seed: int = 0x1234_5678_9ABC_DEF0;
    let gamma: int = 0x9E37_79B9_7F4A_7C15;
    let inverse: int = 0xf1de_83e1_9937_733d;
    let m = words64();
    let x = seed + (i + 1) * gamma;
    let y = seed + (j + 1) * gamma;
    if key(i) == key(j) {
        lemma_mixed_undone((x % m) as u64, (y % m) as u64);
        lemma_mod_equivalence(x, y, m);
        assert(x - y == (i - j) * gamma) by (nonlinear_arith)
            requires
                x == seed + (i + 1) * gamma,
                y == seed + (j + 1) * gamma,
        ;
        lemma_factor_undone(i - j, gamma, inverse);
        lemma_mod_equivalence(i, j, m);
        lemma_small_mod(i as nat, m as nat);
        lemma_small_mod(j as nat, m as nat);
    }
    if key(i) == 0 {
        lemma_mixed_zero();
        lemma_mixed_undone((x % m) as u64, 0);
        lemma_mul_mod_noop_left(x, inverse, m);
        assert(x * inverse == seed * inverse + (i + 1) * gamma * inverse) by (nonlinear_arith)
            requires
                x == seed + (i + 1) * gamma,
        ;
        lemma_factor_undone(i + 1, gamma, inverse);
        lemma_mul_mod_noop_left((i + 1) * gamma, inverse, m);
        lemma_add_mod_noop(seed * inverse, (i + 1) * gamma * inverse, m);
        lemma_small_mod((i + 1) as nat, m as nat);
    }
}

/// Every man on every square has a key of its own, the draw with this number, and shares it
/// with nothing else: neither with another man or square, nor with castling rights, an en
/// passant file or the side to move.
pub proof fn law_every_man_has_its_own_key(m: Man, s: int, n: Man, t: int, other: int)
    requires
        0 <= m.color < 2,
        0 <= m.kind < 6,
        is_square(s),
        0 <= n.color < 2,
        0 <= n.kind < 6,
        is_square(t),
        768 <= other < 793,
    ensures
        man_key(m, s) == key(m.color * 384 + m.kind * 64 + s),
        man_key(m, s) == man_key(n, t) ==> m == n && s == t,
        man_key(m, s) != key(other),
        man_key(m, s) != 0,
{
    let i = (m.color * 6 + m.kind) * 64 + s;
    let j = (n.color * 6 + n.kind) * 64 + t;
    law_no_two_keys_are_the_same(i, j);
    law_no_two_keys_are_the_same(i, other);
    law_no_two_keys_are_the_same(m.color * 384 + m.kind * 64 + s, j);
}

/// What a cell adds to a hash.
spec fn cell_key(cell: Option<Man>, s: int) -> u64 {
    match cell {
        Some(m) => man_key(m, s),
        None => 0,
    }
}

proof fn lemma_men_hash_update(p: Pos, s: int, x: Option<Man>, n: int)
    requires
        p.at.len() == 64,
        is_square(s),
        0 <= n <= 64,
    ensures
        (Pos { at: p.at.update(s, x), ..p }).men_hash(n) == if s < n {
            (p.men_hash(n) ^ cell_key(p.at[s], s)) ^ cell_key(x, s)
        } else {
            p.men_hash(n)
        },
    decreases n,
{
    let q = Pos { at: p.at.update(s, x), ..p };
    if n > 0 {
        lemma_men_hash_update(p, s, x, n - 1);
        let h = p.men_hash(n - 1);
        let k = cell_key(p.at[s], s);
        let l = cell_key(x, s);
        lemma_xor(h, k, l);
        lemma_xor(h, l, 0);
        lemma_xor(h ^ k, k, l);
        lemma_xor(h, 0, 0);
        lemma_xor(h ^ k, 0, 0);
        if n - 1 != s {
            let c = cell_key(p.at[n - 1], n - 1);
            lemma_xor(h ^ k, l, c);
            lemma_xor(h, k, c);
            lemma_xor(h ^ c, k, 0);
        }
    }
}

/// Putting a man on a square, or taking it off, changes the hash by the key of that man on
/// that square, and by nothing else.
pub proof fn law_a_man_adds_its_key(p: Pos, s: int, m: Man)
    requires
        p.wf(),
        is_square(s),
        p.at[s] is None,
    ensures
        (Pos { at: p.at.update(s, Some(m)), ..p }).hash() == p.hash() ^ man_key(m, s),
{
    let q = Pos { at: p.at.update(s, Some(m)), ..p };
    lemma_men_hash_update(p, s, Some(m), 64);
    let h = p.men_hash(64);
    let k = man_key(m, s);
    lemma_xor(h, 0, k);
    assert(q.men_hash(64) == h ^ k);
    lemma_tail(p, q, h, k);
}

proof fn lemma_tail(p: Pos, q: Pos, h: u64, k: u64)
    requires
        p.men_hash(64) == h,
        q.men_hash(64) == h ^ k,
        p.rights == q.rights,
        p.ep == q.ep,
        p.stm == q.stm,
    ensures
        q.hash() == p.hash() ^ k,
{
    let r = key(768 + rights_code(p.rights));
    let e = key(784 + p.ep % 8);
    let s = key(792);
    lemma_xor(h, k, r);
    lemma_xor(h ^ r, k, e);
    lemma_xor(h ^ r, k, s);
    lemma_xor(h ^ r ^ e, k, s);
}

/// Positions that differ in what stands on one square have different hashes.
pub proof fn law_one_square_tells_positions_apart(p: Pos, q: Pos, s: int)
    requires
        p.wf(),
        q.wf(),
        is_square(s),
        q.at[s] != p.at[s],
        q == (Pos { at: p.at.update(s, q.at[s]), ..p }),
    ensures
        q.hash() != p.hash(),
{
    let k = cell_key(p.at[s], s);
    let l = cell_key(q.at[s], s);
    lemma_men_hash_update(p, s, q.at[s], 64);
    let h = p.men_hash(64);
    lemma_xor(h, k, l);
    lemma_tail(p, q, h, k ^ l);
    lemma_xor(p.hash(), k ^ l, 0);
    lemma_xor(k, l, 0);
    match (p.at[s], q.at[s]) {
        (Some(m), Some(n)) => law_every_man_has_its_own_key(m, s, n, s, 792),
        (Some(m), None) => law_every_man_has_its_own_key(m, s, m, s, 792),
        (None, Some(n)) => law_every_man_has_its_own_key(n, s, n, s, 792),
        (None, None) => {},
    }
}

/// Positions that differ in where one man stands have different hashes.
pub proof fn law_a_moved_man_tells_positions_apart(p: Pos, m: Man, s: int, t: int)
    requires
        p.wf(),
        0 <= m.color < 2,
        0 <= m.kind < 6,
        is_square(s),
        is_square(t),
        s != t,
        p.at[s] == Some(m),
        p.at[t] is None,
    ensures
        (Pos { at: p.at.update(s, None).update(t, Some(m)), ..p }).hash() != p.hash(),
{
    let gone = Pos { at: p.at.update(s, None), ..p };
    let there = Pos { at: gone.at.update(t, Some(m)), ..gone };
    assert(there == (Pos { at: p.at.update(s, None).update(t, Some(m)), ..p }));
    assert(gone.at.update(s, Some(m)) =~= p.at);
    law_a_man_adds_its_key(gone, s, m);
    law_a_man_adds_its_key(gone, t, m);
    law_every_man_has_its_own_key(m, s, m, t, 792);
    lemma_xor(man_key(m, s), man_key(m, t), gone.hash());
}

/// The side to move, the castling rights and the file of an en passant square each add one key:
/// White to move and no en passant square add none. So positions that differ in one of these
/// alone have different hashes.
pub proof fn law_side_rights_and_file_tell_positions_apart(p: Pos, q: Pos)
    requires
        p.wf(),
        q.wf(),
        p.at == q.at,
    ensures
        p.rights == q.rights && p.ep == q.ep && p.stm == 0 && q.stm == 1 ==> q.hash() == p.hash()
            ^ key(792) && q.hash() != p.hash(),
        p.rights != q.rights && p.ep == q.ep && p.stm == q.stm ==> q.hash() != p.hash(),
        p.rights == q.rights && p.stm == q.stm && p.ep == 64 && q.ep < 64 ==> q.hash() == p.hash()
            ^ key(784 + q.ep % 8) && q.hash() != p.hash(),
        p.rights == q.rights && p.stm == q.stm && p.ep < 64 && q.ep < 64 && p.ep % 8 != q.ep % 8
            ==> q.hash() != p.hash(),
{
    lemma_same_men(p, q, 64);
    let h = p.men_hash(64);
    let a = rights_code(p.rights);
    let b = rights_code(q.rights);
    let r = key(768 + a);
    let t = key(768 + b);
    let e = key(784 + p.ep % 8);
    let f = key(784 + q.ep % 8);
    let s = key(792);
    law_no_two_keys_are_the_same(768 + a, 768 + b);
    law_no_two_keys_are_the_same(784 + p.ep % 8, 784 + q.ep % 8);
    law_no_two_keys_are_the_same(784 + q.ep % 8, 792);
    law_no_two_keys_are_the_same(792, 792);
    lemma_xor(r, t, h);
    lemma_xor(h ^ r, h ^ t, e);
    lemma_xor(h ^ r, h ^ t, s);
    lemma_xor(h ^ r ^ e, h ^ t ^ e, s);
    lemma_xor(h ^ r, f, s);
    lemma_xor(h ^ r ^ s, f, 0);
    lemma_xor(h ^ r, s, 0);
    lemma_xor(h ^ r, f, 0);
    lemma_xor(h ^ r ^ e, s, 0);
    lemma_xor(e, f, h ^ r);
    lemma_xor(h ^ r ^ e, h ^ r ^ f, s);
}

proof fn lemma_same_men(p: Pos, q: Pos, n: int)
    requires
        p.at == q.at,
    ensures
        p.men_hash(n) == q.men_hash(n),
    decreases n,
{
    if n > 0 {
        lemma_same_men(p, q, n - 1);
    }
}

/// A board with nothing on it, White to move, has the key of its castling rights: the draws
/// from 768 on, by the sum of 1, 2, 4 and 8 for the rights that are held.
pub proof fn law_rights_have_their_keys(p: Pos)
    requires
        p.wf(),
        forall|s: int| is_square(s) ==> #[trigger] p.at[s] is None,
        p.stm == 0,
        p.ep == 64,
    ensures
        p.hash() == key(
            768 + (if p.rights.wk {
                1int
            } else {
                0
            }) + (if p.rights.wq {
                2int
            } else {
                0
            }) + (if p.rights.bk {
                4int
            } else {
                0
            }) + (if p.rights.bq {
                8int
            } else {
                0
            }),
        ),
{
    lemma_no_men(p, 64);
    lemma_xor(key(768 + rights_code(p.rights)), 0, 0);
}

proof fn lemma_no_men(p: Pos, n: int)
    requires
        0 <= n <= 64,
        forall|s: int| is_square(s) ==> #[trigger] p.at[s] is None,
    ensures
        p.men_hash(n) == 0,
    decreases n,
{
    if n > 0 {
        assert(p.at[n - 1] is None);
        lemma_no_men(p, n - 1);
    }
}

} // verus!
