//! How looks at the clock pace a search: it stops at the first that shows that the deadline
//! has passed, and goes on to its end if none does.
use vstd::arithmetic::div_mod::{
    lemma_basic_div, lemma_div_by_self, lemma_div_is_ordered, lemma_fundamental_div_mod,
    lemma_hoist_over_denominator, lemma_mod_multiples_vanish, lemma_small_mod,
};
use vstd::prelude::*;

use crate::budget::Clock;
use crate::searcher::Searcher;

verus! {

/// Whether a clock with these readings was read on.
pub open spec fn extends(log: Seq<u64>, after: Seq<u64>) -> bool {
    log.len() <= after.len() && after.take(log.len() as int) == log
}

/// Whether the readings from the `from`-th up to the `to`-th all lie before `deadline`.
pub open spec fn all_early(readings: Seq<u64>, from: int, to: int, deadline: int) -> bool {
    forall|i: int| from <= i < to ==> (#[trigger] readings[i]) < deadline
}

/// How a search of `n` nodes went from `first` to `later`, while the readings of its clock
/// grew from `log` to `after`. It is due to look at the clock once every `interval` nodes. A
/// look that shows that the deadline has passed aborts it, and is the last; otherwise it makes
/// every look that is due and counts every node. An aborted search looks no more.
pub open spec fn paced(
    first: Searcher,
    log: Seq<u64>,
    later: Searcher,
    after: Seq<u64>,
    n: int,
) -> bool {
    let looks = after.len() - log.len();
    let due = (first.check + n) / first.interval as int;
    &&& extends(log, after)
    &&& if first.aborted {
        later.aborted && after == log
    } else if later.aborted {
        &&& 0 < looks <= due
        &&& all_early(after, log.len() as int, after.len() - 1, first.deadline as int)
        &&& after.last() >= first.deadline
    } else {
        &&& looks == due
        &&& all_early(after, log.len() as int, after.len() as int, first.deadline as int)
        &&& later.check == (first.check + n) % first.interval as int
        &&& later.nodes == if first.nodes + n <= u64::MAX {
            first.nodes + n
        } else {
            u64::MAX as int
        }
    }
}

/// The same, kept folded.
#[verifier::opaque]
pub open spec fn spent(
    first: Searcher,
    log: Seq<u64>,
    later: Searcher,
    after: Seq<u64>,
    n: int,
) -> bool {
    paced(first, log, later, after, n)
}

/// A search that has not begun has gone no node.
pub proof fn lemma_spent_starts(first: Searcher, log: Seq<u64>)
    requires
        first.wf(),
    ensures
        spent(first, log, first, log, 0),
{
    reveal(spent);
    lemma_small_mod(first.check as nat, first.interval as nat);
    lemma_basic_div(first.check as int, first.interval as int);
    assert(log.take(log.len() as int) =~= log);
}

/// A search that was aborted early on was aborted before its end.
pub proof fn lemma_spent_widens(
    first: Searcher,
    log: Seq<u64>,
    later: Searcher,
    after: Seq<u64>,
    n: int,
    whole: int,
)
    requires
        first.wf(),
        later.aborted,
        n <= whole,
        spent(first, log, later, after, n),
    ensures
        spent(first, log, later, after, whole),
{
    reveal(spent);
    lemma_div_is_ordered(first.check + n, first.check + whole, first.interval as int);
}

/// A search of no nodes changes nothing.
pub proof fn lemma_spent_nothing(first: Searcher, log: Seq<u64>, later: Searcher, after: Seq<u64>)
    requires
        first.wf(),
        !first.aborted,
        first.goes_on_as(&later),
        spent(first, log, later, after, 0),
    ensures
        later == first,
        after == log,
{
    reveal(spent);
    lemma_small_mod(first.check as nat, first.interval as nat);
    lemma_basic_div(first.check as int, first.interval as int);
    assert(after.take(log.len() as int) =~= after);
}

/// Whether a clock can show that `deadline` has passed.
pub open spec fn can_be_late<F: Fn() -> u64>(now: F, deadline: u64) -> bool {
    exists|x: u64| #![trigger call_ensures(now, (), x)] call_ensures(now, (), x) && x >= deadline
}

/// Whether a clock shows nothing but that `deadline` has passed.
pub open spec fn always_late<F: Fn() -> u64>(now: F, deadline: u64) -> bool {
    forall|x: u64| #![trigger call_ensures(now, (), x)] call_ensures(now, (), x) ==> x >= deadline
}

/// A search that is due for a look at once is aborted by a clock that can only show that the
/// deadline has passed, and only a clock that can show it aborts a search.
pub proof fn lemma_abort_due<F: Fn() -> u64>(
    first: Searcher,
    log: Seq<u64>,
    later: Searcher,
    clock: Clock<F>,
    n: int,
)
    requires
        first.wf(),
        clock.wf(),
        n >= 1,
        paced(first, log, later, clock.readings@, n),
    ensures
        first.check + 1 >= first.interval && always_late(clock.now, first.deadline)
            ==> later.aborted,
        later.aborted && !first.aborted ==> can_be_late(clock.now, first.deadline),
{
    reveal(Clock::wf);
    let after = clock.readings@;
    if later.aborted && !first.aborted {
        assert(call_ensures(clock.now, (), after[after.len() - 1]));
    }
    if first.check + 1 >= first.interval && !later.aborted {
        lemma_div_is_ordered(first.interval as int, first.check + n, first.interval as int);
        lemma_div_by_self(first.interval as int);
        assert(call_ensures(clock.now, (), after[log.len() as int]));
        assert(after[log.len() as int] < first.deadline);
    }
}

/// Looks that were due before and after make up the looks that are due.
proof fn lemma_looks_add(c: int, n: int, m: int, d: int)
    requires
        0 < d,
    ensures
        (c + n) / d + ((c + n) % d + m) / d == (c + n + m) / d,
        ((c + n) % d + m) % d == (c + n + m) % d,
{
    let x = c + n;
    lemma_fundamental_div_mod(x, d);
    lemma_hoist_over_denominator(x % d + m, x / d, d as nat);
    lemma_mod_multiples_vanish(x / d, x % d + m, d);
    assert(x % d + m + x / d * d == d * (x / d) + (x % d + m)) by (nonlinear_arith);
}

/// What is searched after something else adds to it. `used` nodes led to `mid`, and `n` more
/// were to follow, out of `whole`.
pub proof fn lemma_spent_goes_on(
    first: Searcher,
    log: Seq<u64>,
    mid: Searcher,
    halfway: Seq<u64>,
    later: Searcher,
    after: Seq<u64>,
    used: int,
    n: int,
    whole: int,
)
    requires
        first.wf(),
        first.goes_on_as(&mid),
        mid.goes_on_as(&later),
        !first.aborted,
        mid.aborted ==> spent(first, log, mid, halfway, whole),
        !mid.aborted ==> spent(first, log, mid, halfway, used) && used + n <= whole,
        0 <= n,
        spent(mid, halfway, later, after, n),
    ensures
        first.goes_on_as(&later),
        later.aborted ==> spent(first, log, later, after, whole),
        !later.aborted ==> spent(first, log, later, after, used + n),
{
    reveal(spent);
    let d = first.interval as int;
    assert(after.take(log.len() as int) =~= halfway.take(log.len() as int)) by {
        assert(after.take(halfway.len() as int) == halfway);
        assert forall|i: int| 0 <= i < log.len() implies after[i] == halfway[i] by {
            assert(after.take(halfway.len() as int)[i] == after[i]);
        }
    }
    assert forall|i: int| 0 <= i < halfway.len() implies after[i] == halfway[i] by {
        assert(after.take(halfway.len() as int)[i] == after[i]);
    }
    if !mid.aborted {
        lemma_looks_add(first.check as int, used, n, d);
        lemma_div_is_ordered(first.check + used + n, first.check + whole, d);
        assert(all_early(after, log.len() as int, halfway.len() as int, first.deadline as int)) by {
            assert(forall|i: int|
                log.len() <= i < halfway.len() ==> (#[trigger] after[i]) == halfway[i]);
        }
    }
}

/// The look that aborted a search came after those that were due before it, and no later than
/// those that were due with it.
pub proof fn lemma_last_look(
    first: Searcher,
    log: Seq<u64>,
    mid: Searcher,
    halfway: Seq<u64>,
    later: Searcher,
    after: Seq<u64>,
    used: int,
    n: int,
)
    requires
        !first.aborted,
        !mid.aborted,
        later.aborted,
        spent(first, log, mid, halfway, used),
        spent(mid, halfway, later, after, n),
        spent(first, log, later, after, used + n),
    ensures
        (first.check + used) / (first.interval as int) < after.len() - log.len(),
        after.len() - log.len() <= (first.check + used + n) / (first.interval as int),
{
    reveal(spent);
}

} // verus!
