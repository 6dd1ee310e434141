//! The move that the reference engine settles on, said over the legal moves.
use vstd::prelude::*;

use crate::game::occurrences;
use crate::order_laws::{law_legal_moves_come_in_order, turn_of};
use crate::ordering::{law_best_first_is_a_stable_sort, lemma_best_first_contains};
use crate::position::Pos;
use crate::searcher::{is_choice, root_value};

verus! {

/// Whether a hash stands at two different places of a history.
pub open spec fn twice(s: Seq<u64>, x: u64) -> bool {
    exists|i: int, j: int| 0 <= i < j < s.len() && #[trigger] s[i] == x && #[trigger] s[j] == x
}

/// What a move is worth at the root: nothing where it would bring a position of the game about
/// for the third time, and else the opposite of what the other side then has.
pub open spec fn outlook(p: Pos, history: Seq<u64>, depth: int, m: u16) -> int {
    if history.len() > 2 && twice(history, p.after(m).hash()) {
        0
    } else {
        -p.after(m).deep_value(depth - 1, 1)
    }
}

/// The same, judged at a glance.
pub open spec fn first_look(p: Pos, history: Seq<u64>, m: u16) -> int {
    if history.len() > 2 && twice(history, p.after(m).hash()) {
        0
    } else {
        -p.after(m).eval()
    }
}

proof fn lemma_twice(s: Seq<u64>, x: u64)
    ensures
        occurrences(s, x) <= s.len(),
        occurrences(s, x) >= 1 <==> exists|i: int| 0 <= i < s.len() && #[trigger] s[i] == x,
        occurrences(s, x) >= 2 <==> twice(s, x),
    decreases s.len(),
{
    if s.len() > 0 {
        let t = s.drop_last();
        let n = s.len() - 1;
        lemma_twice(t, x);
        assert forall|i: int| 0 <= i < n implies #[trigger] t[i] == s[i] by {}
        if occurrences(t, x) >= 1 {
            let i = choose|i: int| 0 <= i < t.len() && #[trigger] t[i] == x;
            assert(s[i] == x);
            if s[n] == x {
                assert(s[i] == x && s[n] == x);
            }
        }
        if occurrences(t, x) >= 2 {
            let (i, j) = choose|i: int, j: int|
                0 <= i < j < t.len() && #[trigger] t[i] == x && #[trigger] t[j] == x;
            assert(s[i] == x && s[j] == x);
        }
        if exists|i: int| 0 <= i < s.len() && #[trigger] s[i] == x {
            let i = choose|i: int| 0 <= i < s.len() && #[trigger] s[i] == x;
            if i < n {
                assert(t[i] == x);
            }
        }
        if twice(s, x) {
            let (i, j) = choose|i: int, j: int|
                0 <= i < j < s.len() && #[trigger] s[i] == x && #[trigger] s[j] == x;
            assert(t[i] == x);
            if j < n {
                assert(t[i] == x && t[j] == x);
            }
        }
    }
}

pub proof fn lemma_rep(p: Pos, history: Seq<u64>, depth: int, m: u16)
    requires
        history.len() <= usize::MAX,
    ensures
        root_value(p, depth, (p.root_move(history))(m)) == outlook(p, history, depth, m),
        p.glance()((p.root_move(history))(m)) == first_look(p, history, m),
{
    lemma_twice(history, p.after(m).hash());
}

/// The move that a search of `depth` plies settles on is legal, no legal move is worth more, and
/// of those worth as much none looks better at first sight; where several look as good, it is
/// the one that is listed first.
pub proof fn law_the_best_move_is_played(p: Pos, history: Seq<u64>, depth: int, m: u16, o: u16)
    requires
        p.legal_position(),
        history.len() <= usize::MAX,
        p.chosen_at(history, depth, m),
        p.legal(o),
    ensures
        p.legal(m),
        outlook(p, history, depth, o) <= outlook(p, history, depth, m),
        outlook(p, history, depth, o) == outlook(p, history, depth, m) ==> first_look(
            p,
            history,
            o,
        ) <= first_look(p, history, m),
        o != m && outlook(p, history, depth, o) == outlook(p, history, depth, m) && first_look(
            p,
            history,
            o,
        ) == first_look(p, history, m) ==> turn_of(p, m) < turn_of(p, o),
{
    let list = p.legal_list();
    let f = p.root_move(history);
    let reps = list.map_values(f);
    let sorted = p.root_moves(history);
    let k = choose|k: int|
        #![trigger sorted[k]]
        is_choice(p, depth, sorted, k) && m == sorted[k].0;
    p.lemma_sound();
    law_best_first_is_a_stable_sort(reps, p.glance(), 0);
    lemma_best_first_contains(reps, p.glance(), sorted[k]);
    assert(sorted.contains(sorted[k]));
    let i = choose|i: int| 0 <= i < reps.len() && reps[i] == sorted[k];
    assert(list[i] == m);
    assert(list.contains(m));
    p.law_legal_list_is_legal(m);
    p.law_legal_list_is_legal(o);
    let j = choose|j: int| 0 <= j < list.len() && list[j] == o;
    assert(reps[j] == f(o));
    assert(reps.contains(f(o)));
    lemma_best_first_contains(reps, p.glance(), f(o));
    let n = choose|n: int| 0 <= n < sorted.len() && sorted[n] == f(o);
    lemma_rep(p, history, depth, m);
    lemma_rep(p, history, depth, o);
    assert(sorted[k] == f(m));
    assert(root_value(p, depth, sorted[n]) <= root_value(p, depth, sorted[k]));
    if n < k {
        assert(root_value(p, depth, sorted[n]) < root_value(p, depth, sorted[k]));
    } else {
        assert(p.glance()(sorted[k]) >= p.glance()(sorted[n]));
        let key = p.glance();
        let v = key(sorted[k]);
        if n > k && key(sorted[n]) == v {
            let pred = |a: (u16, usize)| key(a) == v;
            law_best_first_is_a_stable_sort(reps, key, v);
            assert(sorted.filter(pred) == reps.filter(pred));
            lemma_filter_order(sorted, pred, k, n);
            let (a, b) = choose|a: int, b: int|
                0 <= a < b < sorted.filter(pred).len() && #[trigger] sorted.filter(pred)[a]
                    == sorted[k] && #[trigger] sorted.filter(pred)[b] == sorted[n];
            lemma_filter_order_back(reps, pred, a, b);
            let (x, y) = choose|x: int, y: int|
                0 <= x < y < reps.len() && #[trigger] reps[x] == sorted[k] && #[trigger] reps[y]
                    == sorted[n];
            assert(list[x] == m && list[y] == o);
            law_legal_moves_come_in_order(p, x, y);
        }
    }
}

proof fn lemma_kept_from<A>(s: Seq<A>, pred: spec_fn(A) -> bool, i: int)
    requires
        0 <= i < s.len(),
        pred(s[i]),
    ensures
        exists|a: int| 0 <= a < s.filter(pred).len() && #[trigger] s.filter(pred)[a] == s[i],
    decreases s.len(),
{
    reveal(Seq::filter);
    let front = s.drop_last();
    if i == s.len() - 1 {
        assert(s.filter(pred)[s.filter(pred).len() - 1] == s[i]);
    } else {
        lemma_kept_from(front, pred, i);
        let a = choose|a: int|
            0 <= a < front.filter(pred).len() && #[trigger] front.filter(pred)[a] == front[i];
        assert(s.filter(pred)[a] == s[i]);
    }
}

proof fn lemma_kept_of<A>(s: Seq<A>, pred: spec_fn(A) -> bool, a: int)
    requires
        0 <= a < s.filter(pred).len(),
    ensures
        exists|i: int| 0 <= i < s.len() && #[trigger] s[i] == s.filter(pred)[a],
    decreases s.len(),
{
    reveal(Seq::filter);
    let front = s.drop_last();
    if s.len() > 0 {
        if a < front.filter(pred).len() {
            lemma_kept_of(front, pred, a);
            let i = choose|i: int|
                0 <= i < front.len() && #[trigger] front[i] == front.filter(pred)[a];
            assert(s[i] == s.filter(pred)[a]);
        } else {
            assert(s[s.len() - 1] == s.filter(pred)[a]);
        }
    }
}

/// What is kept keeps its order.
proof fn lemma_filter_order<A>(s: Seq<A>, pred: spec_fn(A) -> bool, i: int, j: int)
    requires
        0 <= i < j < s.len(),
        pred(s[i]),
        pred(s[j]),
    ensures
        exists|a: int, b: int|
            0 <= a < b < s.filter(pred).len() && #[trigger] s.filter(pred)[a] == s[i]
                && #[trigger] s.filter(pred)[b] == s[j],
    decreases s.len(),
{
    reveal(Seq::filter);
    let front = s.drop_last();
    let kept = s.filter(pred);
    if j == s.len() - 1 {
        assert(front[i] == s[i]);
        lemma_kept_from(front, pred, i);
        let a = choose|a: int|
            0 <= a < front.filter(pred).len() && #[trigger] front.filter(pred)[a] == front[i];
        assert(kept[a] == s[i] && kept[kept.len() - 1] == s[j]);
    } else {
        assert(front[i] == s[i] && front[j] == s[j]);
        lemma_filter_order(front, pred, i, j);
        let (a, b) = choose|a: int, b: int|
            0 <= a < b < front.filter(pred).len() && #[trigger] front.filter(pred)[a] == front[i]
                && #[trigger] front.filter(pred)[b] == front[j];
        assert(kept[a] == s[i] && kept[b] == s[j]);
    }
}

proof fn lemma_filter_order_back<A>(s: Seq<A>, pred: spec_fn(A) -> bool, a: int, b: int)
    requires
        0 <= a < b < s.filter(pred).len(),
    ensures
        exists|i: int, j: int|
            0 <= i < j < s.len() && #[trigger] s[i] == s.filter(pred)[a] && #[trigger] s[j]
                == s.filter(pred)[b],
    decreases s.len(),
{
    reveal(Seq::filter);
    if s.len() > 0 {
        let front = s.drop_last();
        let few = front.filter(pred);
        let kept = s.filter(pred);
        if b < few.len() {
            lemma_filter_order_back(front, pred, a, b);
            let (i, j) = choose|i: int, j: int|
                0 <= i < j < front.len() && #[trigger] front[i] == few[a] && #[trigger] front[j]
                    == few[b];
            assert(s[i] == kept[a] && s[j] == kept[b]);
        } else {
            lemma_kept_of(front, pred, a);
            let i = choose|i: int| 0 <= i < front.len() && #[trigger] front[i] == few[a];
            assert(s[i] == kept[a] && s[s.len() - 1] == kept[b]);
        }
    }
}

} // verus!
