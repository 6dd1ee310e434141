//! The cycles that a move may cost, and clocks that count them.
use vstd::prelude::*;

use vstd::arithmetic::div_mod::lemma_small_mod;
use vstd::arithmetic::power2::{
    lemma2_to64, lemma2_to64_rest, lemma_pow2_strictly_increases, lemma_pow2_unfold, pow2,
};
use vstd::bits::{lemma_u64_low_bits_mask_is_mod, lemma_u64_shl_is_mul, low_bits_mask};

verus! {

/// What the host and an engine must agree on.
pub const ABI_VERSION: u32 = 1;

/// The most positions that are handed to an engine to see repetitions by.
pub const MAX_HISTORY: usize = 256;

/// Core cycles that one move may consume.
#[derive(Clone, Copy)]
pub struct Budget {
    pub cycles: u64,
}

/// When `percent` hundredths of the cycles are gone, counted from `start`.
pub open spec fn deadline_of(start: u64, cycles: u64, percent: u64) -> int {
    let end = start + cycles * percent / 100;
    if end <= u64::MAX {
        end
    } else {
        u64::MAX as int
    }
}

impl Budget {
    /// When `percent` hundredths of the budget are gone, counted from `start`.
    pub fn deadline(&self, start: u64, percent: u64) -> (r: u64)
        requires
            percent <= 100,
        ensures
            r == deadline_of(start, self.cycles, percent),
    {
        assert(0 <= self.cycles * percent <= u64::MAX * 100) by (nonlinear_arith)
            requires
                percent <= 100,
                self.cycles <= u64::MAX,
        ;
        let end: u128 = start as u128 + (self.cycles as u128) * (percent as u128) / 100;
        if end <= u64::MAX as u128 {
            end as u64
        } else {
            u64::MAX
        }
    }
}

/// A clock, and what it has shown so far.
pub struct Clock<F: Fn() -> u64> {
    pub now: F,
    pub readings: Ghost<Seq<u64>>,
}

impl<F: Fn() -> u64> Clock<F> {
    /// The clock can be read, and has shown nothing but its readings.
    #[verifier::opaque]
    pub open spec fn wf(&self) -> bool {
        &&& call_requires(self.now, ())
        &&& forall|i: int|
            0 <= i < self.readings@.len() ==> call_ensures(self.now, (), #[trigger] self.readings@[i])
    }

    /// A clock that has not been read.
    pub fn new(now: F) -> (c: Clock<F>)
        requires
            call_requires(now, ()),
        ensures
            c.wf(),
            c.now == now,
            c.readings@ == Seq::<u64>::empty(),
    {
        let c = Clock { now, readings: Ghost(Seq::empty()) };
        proof {
            reveal(Clock::wf);
        }
        c
    }

    /// Reads the clock.
    pub fn read(&mut self) -> (x: u64)
        requires
            old(self).wf(),
        ensures
            final(self).wf(),
            final(self).now == old(self).now,
            final(self).readings@ == old(self).readings@.push(x),
            call_ensures(old(self).now, (), x),
    {
        proof {
            reveal(Clock::wf);
        }
        let x = (self.now)();
        self.readings = Ghost(self.readings@.push(x));
        x
    }
}

/// Whether a clock always shows `c`.
pub open spec fn stands_at<F: Fn() -> u64>(now: F, c: u64) -> bool {
    forall|x: u64| call_ensures(now, (), x) ==> x == c
}

/// The length of the shared page: whole pages that hold `size` bytes.
pub fn shared_len(size: usize) -> (r: usize)
    requires
        size + 4095 <= usize::MAX,
    ensures
        r % 4096 == 0,
        size <= r < size + 4096,
{
    (size + 4095) / 4096 * 4096
}

/// The low `width` bits of a hardware counter as a signed number.
pub open spec fn signed_low(raw: u64, width: nat) -> int {
    let low = raw as int % pow2(width) as int;
    if low < pow2((width - 1) as nat) {
        low
    } else {
        low - pow2(width)
    }
}

/// What a counter page shows: its offset and, while the counter runs, the low bits of the
/// hardware counter, which are signed. Counts wrap around.
pub fn counter_value(offset: i64, raw: Option<u64>, width: u16) -> (r: u64)
    requires
        raw is Some ==> 1 <= width <= 64,
    ensures
        r == (offset + match raw {
            None => 0,
            Some(x) => signed_low(x, width as nat),
        }) % 0x1_0000_0000_0000_0000,
{
    let base = offset as u64;
    assert(base == if offset >= 0 {
        offset as int
    } else {
        offset + 0x1_0000_0000_0000_0000
    }) by (bit_vector)
        requires
            base == offset as u64,
    ;
    match raw {
        None => base,
        Some(x) => {
            if width == 64 {
                proof {
                    lemma2_to64();
                    lemma2_to64_rest();
                    lemma_small_mod(x as nat, pow2(64));
                }
                return base.wrapping_add(x);
            }
            let size: u64 = 1u64 << width;
            proof {
                lemma_pow2_strictly_increases(width as nat, 64);
                lemma2_to64();
                lemma2_to64_rest();
                lemma_u64_shl_is_mul(1, width as u64);
                lemma_u64_low_bits_mask_is_mod(x, width as nat);
                lemma_pow2_unfold(width as nat);
                assert(1u64 << width == 1u64 << (width as u64)) by (bit_vector);
                assert(size == pow2(width as nat));
                assert(low_bits_mask(width as nat) == size - 1);
            }
            let low: u64 = x & (size - 1);
            let half = size / 2;
            if low < half {
                base.wrapping_add(low)
            } else {
                base.wrapping_add(low).wrapping_sub(size)
            }
        },
    }
}

} // verus!
