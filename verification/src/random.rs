//! An engine that plays a legal move picked by the hash of the position.
use vstd::prelude::*;

use crate::board::Board;
use crate::position::Pos;
use crate::tables::Tables;

verus! {

/// A hash with its bits mixed once more.
pub open spec fn stirred(h: u64) -> u64 {
    let a = (h ^ (h >> 33u64)).wrapping_mul(0xFF51_AFD7_ED55_8CCD);
    a ^ (a >> 33u64)
}

impl Pos {
    /// The move that the hash picks, or none.
    pub open spec fn random_move(self) -> u16 {
        let list = self.legal_list();
        if list.len() == 0 {
            0
        } else {
            list[stirred(self.hash()) as int % list.len() as int]
        }
    }
}

/// The same move in the same position, every time.
pub fn hfc_play(t: &Tables, board: &Board) -> (m: u16)
    requires
        t.wf(),
        board.wf(),
        board@.movable(),
    ensures
        m == board@.random_move(),
{
    let legal = board.legal_moves(t);
    if legal.len() == 0 {
        return 0;
    }
    let h = board.hash();
    let a = (h ^ (h >> 33)).wrapping_mul(0xFF51_AFD7_ED55_8CCD);
    let k = a ^ (a >> 33);
    legal[(k % legal.len() as u64) as usize]
}

/// The engine answers a legal move whenever there is one, and no move otherwise.
pub proof fn law_random_move_is_legal(p: Pos)
    requires
        p.movable(),
    ensures
        p.legal_list().len() == 0 ==> p.random_move() == 0,
        p.legal_list().len() > 0 ==> p.legal(p.random_move()) && p.random_move() != 0,
{
    let list = p.legal_list();
    if list.len() > 0 {
        let m = p.random_move();
        assert(list.contains(m));
        p.law_legal_list_is_legal(m);
        crate::trial::lemma_move_not_zero(p, m);
    }
}

} // verus!
