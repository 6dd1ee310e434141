//! Stable ordering, best first, and the order in which a search tries moves.
use vstd::prelude::*;

use crate::board::Board;
use crate::evaluation::PIECE_VAL;
use crate::moves::{
    flag_of, from_of, is_capture, is_promotion, mv_flag, mv_from, mv_is_cap, mv_is_promo, mv_to,
    to_of, F_EP, PAWN,
};
use crate::position::Pos;

verus! {

/// Where a key of `x` goes in a list that is ordered best first: behind the last item that
/// is at least as good.
pub open spec fn slot<A>(s: Seq<A>, key: spec_fn(A) -> int, x: int) -> int
    decreases s.len(),
{
    if s.len() == 0 || key(s.last()) >= x {
        s.len() as int
    } else {
        slot(s.drop_last(), key, x)
    }
}

/// The items, best first; those that are equally good stay in their order.
pub open spec fn best_first<A>(s: Seq<A>, key: spec_fn(A) -> int) -> Seq<A>
    decreases s.len(),
{
    if s.len() == 0 {
        s
    } else {
        let done = best_first(s.drop_last(), key);
        done.insert(slot(done, key, key(s.last())), s.last())
    }
}

pub open spec fn descending<A>(s: Seq<A>, key: spec_fn(A) -> int) -> bool {
    forall|i: int, j: int| 0 <= i <= j < s.len() ==> key(#[trigger] s[i]) >= key(#[trigger] s[j])
}

/// Whether `k` is the first of the best items.
pub open spec fn is_first_best<A>(s: Seq<A>, key: spec_fn(A) -> int, k: int) -> bool {
    &&& 0 <= k < s.len()
    &&& forall|j: int| 0 <= j < s.len() ==> key(#[trigger] s[j]) <= key(s[k])
    &&& forall|j: int| 0 <= j < k ==> key(#[trigger] s[j]) < key(s[k])
}

proof fn lemma_slot<A>(s: Seq<A>, key: spec_fn(A) -> int, x: int)
    requires
        descending(s, key),
    ensures
        0 <= slot(s, key, x) <= s.len(),
        forall|i: int| 0 <= i < slot(s, key, x) ==> key(#[trigger] s[i]) >= x,
        forall|i: int| slot(s, key, x) <= i < s.len() ==> key(#[trigger] s[i]) < x,
    decreases s.len(),
{
    if s.len() > 0 && key(s.last()) < x {
        let t = s.drop_last();
        assert(descending(t, key)) by {
            assert forall|i: int, j: int| 0 <= i <= j < t.len() implies key(#[trigger] t[i]) >= key(
                #[trigger] t[j],
            ) by {
                assert(t[i] == s[i] && t[j] == s[j]);
            }
        }
        lemma_slot(t, key, x);
        assert forall|i: int| 0 <= i < slot(s, key, x) implies key(#[trigger] s[i]) >= x by {
            assert(s[i] == t[i]);
        }
        assert forall|i: int| slot(s, key, x) <= i < s.len() implies key(#[trigger] s[i]) < x by {
            if i < t.len() {
                assert(s[i] == t[i]);
            }
        }
    } else if s.len() > 0 {
        assert forall|i: int| 0 <= i < s.len() implies key(#[trigger] s[i]) >= x by {
            assert(key(s[i]) >= key(s[s.len() - 1]));
        }
    }
}

proof fn lemma_filter_insert<A>(s: Seq<A>, i: int, x: A, pred: spec_fn(A) -> bool)
    requires
        0 <= i <= s.len(),
    ensures
        s.insert(i, x).filter(pred) == s.take(i).filter(pred) + (if pred(x) {
            seq![x]
        } else {
            seq![]
        }) + s.skip(i).filter(pred),
        s.filter(pred) == s.take(i).filter(pred) + s.skip(i).filter(pred),
{
    broadcast use Seq::filter_distributes_over_add;

    assert(s.insert(i, x) =~= s.take(i) + seq![x] + s.skip(i));
    assert(s =~= s.take(i) + s.skip(i));
    let one = seq![x];
    assert(one.filter(pred) == if pred(x) {
        one
    } else {
        seq![]
    }) by {
        reveal(Seq::filter);
        assert(one.drop_last() =~= seq![]);
        assert(one.drop_last().filter(pred) =~= seq![]);
        assert(seq![].push(x) =~= one);
    }
}

proof fn lemma_filter_none<A>(s: Seq<A>, pred: spec_fn(A) -> bool)
    requires
        forall|i: int| 0 <= i < s.len() ==> !pred(#[trigger] s[i]),
    ensures
        s.filter(pred) == Seq::<A>::empty(),
    decreases s.len(),
{
    reveal(Seq::filter);
    if s.len() > 0 {
        let t = s.drop_last();
        assert forall|i: int| 0 <= i < t.len() implies !pred(#[trigger] t[i]) by {
            assert(t[i] == s[i]);
        }
        lemma_filter_none(t, pred);
        assert(!pred(s[s.len() - 1]));
    }
}

/// Ordering best first moves items and does nothing else: the result runs from the best
/// down, holds the same items as often, and keeps equally good items in their order.
pub proof fn law_best_first_is_a_stable_sort<A>(s: Seq<A>, key: spec_fn(A) -> int, k: int)
    ensures
        descending(best_first(s, key), key),
        best_first(s, key).to_multiset() == s.to_multiset(),
        best_first(s, key).len() == s.len(),
        best_first(s, key).filter(|a: A| key(a) == k) == s.filter(|a: A| key(a) == k),
    decreases s.len(),
{
    broadcast use vstd::seq_lib::group_to_multiset_ensures;

    let pred = |a: A| key(a) == k;
    if s.len() > 0 {
        let t = s.drop_last();
        let x = s.last();
        law_best_first_is_a_stable_sort(t, key, k);
        let done = best_first(t, key);
        lemma_slot(done, key, key(x));
        let i = slot(done, key, key(x));
        let r = done.insert(i, x);
        assert(descending(r, key)) by {
            assert forall|a: int, b: int| 0 <= a <= b < r.len() implies key(#[trigger] r[a]) >= key(
                #[trigger] r[b],
            ) by {
                if a < i {
                    assert(r[a] == done[a]);
                } else if a > i {
                    assert(r[a] == done[a - 1]);
                }
                if b < i {
                    assert(r[b] == done[b]);
                } else if b > i {
                    assert(r[b] == done[b - 1]);
                }
            }
        }
        assert(t.push(x) =~= s);
        vstd::seq_lib::to_multiset_insert(done, i, x);
        assert(r.to_multiset() =~= s.to_multiset());
        lemma_filter_insert(done, i, x, pred);
        if pred(x) {
            let low = done.skip(i);
            assert forall|j: int| 0 <= j < low.len() implies !pred(#[trigger] low[j]) by {
                assert(low[j] == done[i + j]);
            }
            lemma_filter_none(low, pred);
        }
        reveal(Seq::filter);
        assert(r.filter(pred) =~= s.filter(pred));
    }
}

/// Ordering best first keeps what is in the list.
pub proof fn lemma_best_first_contains<A>(s: Seq<A>, key: spec_fn(A) -> int, x: A)
    ensures
        best_first(s, key).contains(x) <==> s.contains(x),
        best_first(s, key).len() == s.len(),
{
    broadcast use vstd::seq_lib::group_to_multiset_ensures;

    law_best_first_is_a_stable_sort(s, key, 0);
    assert(best_first(s, key).contains(x) <==> best_first(s, key).to_multiset().count(x) > 0);
    assert(s.contains(x) <==> s.to_multiset().count(x) > 0);
}

/// Orders `items` by `keys`, which are their keys under `key`.
pub(crate) fn sort_desc<A: Copy>(
    items: &Vec<A>,
    keys: &Vec<i32>,
    key: Ghost<spec_fn(A) -> int>,
) -> (r: Vec<A>)
    requires
        items@.len() == keys@.len(),
        forall|i: int| 0 <= i < items@.len() ==> #[trigger] keys@[i] == key@(items@[i]),
    ensures
        r@ == best_first(items@, key@),
{
    let mut out: Vec<A> = Vec::new();
    let mut ks: Vec<i32> = Vec::new();
    let mut i: usize = 0;
    assert(items@.take(0) =~= Seq::<A>::empty());
    while i < items.len()
        invariant
            items@.len() == keys@.len(),
            forall|i: int| 0 <= i < items@.len() ==> #[trigger] keys@[i] == key@(items@[i]),
            i <= items@.len(),
            out@.len() == i,
            ks@.len() == i,
            out@ == best_first(items@.take(i as int), key@),
            forall|j: int| 0 <= j < i ==> #[trigger] ks@[j] == key@(out@[j]),
        decreases items@.len() - i,
    {
        let x = items[i];
        let k = keys[i];
        let ghost done = out@;
        let mut j: usize = i;
        assert(done.take(j as int) =~= done);
        while j > 0 && ks[j - 1] < k
            invariant
                j <= i,
                ks@.len() == i,
                done.len() == i,
                forall|j: int| 0 <= j < i ==> #[trigger] ks@[j] == key@(done[j]),
                slot(done.take(j as int), key@, k as int) == slot(done, key@, k as int),
            decreases j,
        {
            assert(done.take(j as int).last() == done[j - 1]);
            assert(done.take(j as int).drop_last() =~= done.take(j - 1));
            j = j - 1;
        }
        assert(j > 0 ==> done.take(j as int).last() == done[j - 1]);
        assert(slot(done, key@, k as int) == j);
        proof {
            assert(items@.take(i + 1).drop_last() =~= items@.take(i as int));
            assert(items@.take(i + 1).last() == x);
        }
        let ghost old_ks = ks@;
        out.insert(j, x);
        ks.insert(j, k);
        assert forall|a: int| 0 <= a < i + 1 implies #[trigger] ks@[a] == key@(out@[a]) by {
            if a < j {
                assert(ks@[a] == old_ks[a] && out@[a] == done[a]);
            } else if a > j {
                assert(ks@[a] == old_ks[a - 1] && out@[a] == done[a - 1]);
            }
        }
        i = i + 1;
    }
    assert(items@.take(i as int) =~= items@);
    out
}

// -------------------------------------------------------------------- move ordering

impl Pos {
    /// The kind on `s`; a free square counts as worthless.
    pub open spec fn kind_or_king(self, s: int) -> int {
        match self.at[s] {
            Some(m) => m.kind,
            None => 5,
        }
    }

    /// How promising a move looks: captures first, of the most valuable by the least
    /// valuable, and promotions.
    pub open spec fn promise(self, m: u16) -> int {
        let take = if is_capture(m) {
            let victim = if flag_of(m) == F_EP {
                PAWN as int
            } else {
                self.kind_or_king(to_of(m))
            };
            10_000 + PIECE_VAL@[victim] * 10 - PIECE_VAL@[self.kind_or_king(from_of(m))]
        } else {
            0
        };
        take + if is_promotion(m) {
            9_000int
        } else {
            0int
        }
    }
}

fn promise(b: &Board, m: u16) -> (s: i32)
    requires
        b.wf(),
    ensures
        s == b@.promise(m),
{
    let mut s: i32 = 0;
    proof {
        b.lemma_fields();
    }
    if mv_is_cap(m) {
        let at_to = b.piece_at(mv_to(m));
        let victim = if mv_flag(m) == F_EP {
            PAWN
        } else if at_to > 5 {
            5
        } else {
            at_to
        };
        let at_from = b.piece_at(mv_from(m));
        let attacker = if at_from > 5 {
            5
        } else {
            at_from
        };
        s = 10_000 + PIECE_VAL[victim] * 10 - PIECE_VAL[attacker];
    }
    if mv_is_promo(m) {
        s = s + 9_000;
    }
    s
}

/// The moves, most promising first.
pub fn order(b: &Board, moves: &Vec<u16>) -> (r: Vec<u16>)
    requires
        b.wf(),
    ensures
        r@ == best_first(moves@, |m: u16| b@.promise(m)),
{
    let ghost p = b@;
    let mut scores: Vec<i32> = Vec::new();
    let mut i: usize = 0;
    while i < moves.len()
        invariant
            b.wf(),
            p == b@,
            i <= moves@.len(),
            scores@.len() == i,
            forall|j: int| 0 <= j < i ==> #[trigger] scores@[j] == p.promise(moves@[j]),
        decreases moves@.len() - i,
    {
        scores.push(promise(b, moves[i]));
        i = i + 1;
    }
    sort_desc(moves, &scores, Ghost(|m: u16| p.promise(m)))
}

} // verus!
