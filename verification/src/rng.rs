//! Tiny deterministic random number generator (xorshift).

use vstd::prelude::*;

verus! {

/// One xorshift round.
pub open spec fn step_spec(x: u64) -> u64 {
    let a = x ^ (x << 13u64);
    let b = a ^ (a >> 7u64);
    b ^ (b << 17u64)
}

/// The number drawn when the generator reaches a state: its high half.
pub open spec fn drawn(x: u64) -> int {
    (x / 0x1_0000_0000) as int
}

/// State after drawing from `lo .. hi`; an empty range draws nothing.
pub open spec fn range_next(x: u64, lo: int, hi: int) -> u64 {
    if hi <= lo {
        x
    } else {
        step_spec(x)
    }
}

pub open spec fn range_value(x: u64, lo: int, hi: int) -> int {
    if hi <= lo {
        lo
    } else {
        lo + drawn(step_spec(x)) % (hi - lo)
    }
}

pub struct Rng(u64);

impl View for Rng {
    type V = u64;

    closed spec fn view(&self) -> u64 {
        self.0
    }
}

impl Rng {
    pub fn new(seed: u64) -> (r: Rng)
        ensures
            r@ == seed | 1,
    {
        Rng(seed | 1)
    }

    /// A generator taken up where another stood.
    pub fn resume(state: u64) -> (r: Rng)
        ensures
            r@ == state,
    {
        Rng(state)
    }

    /// Where the generator stands.
    pub fn state(&self) -> (r: u64)
        ensures
            r == self@,
    {
        self.0
    }

    pub fn next_u32(&mut self) -> (r: u32)
        ensures
            final(self)@ == step_spec(old(self)@),
            r == drawn(final(self)@),
    {
        let mut x: u64 = self.0;
        x = x ^ (x << 13u64);
        x = x ^ (x >> 7u64);
        x = x ^ (x << 17u64);
        self.0 = x;
        (x / 0x1_0000_0000) as u32
    }

    /// A number in `lo .. hi`, or `lo` when the range is empty.
    pub fn range(&mut self, lo: i32, hi: i32) -> (r: i32)
        ensures
            final(self)@ == range_next(old(self)@, lo as int, hi as int),
            r == range_value(old(self)@, lo as int, hi as int),
            lo < hi ==> lo <= r < hi,
    {
        if hi <= lo {
            return lo;
        }
        let span: i64 = hi as i64 - lo as i64;
        let n: i64 = self.next_u32() as i64;
        (lo as i64 + n % span) as i32
    }
}

/// A generator never gets stuck at zero: a fresh one is not there, and no draw
/// leads there.
pub proof fn law_never_zero(seed: u64, x: u64)
    ensures
        seed | 1 != 0,
        x != 0 ==> step_spec(x) != 0,
{
    assert(seed | 1 != 0) by (bit_vector);
    assert(x != 0 ==> ({
        let a = x ^ (x << 13u64);
        let b = a ^ (a >> 7u64);
        b ^ (b << 17u64)
    }) != 0) by (bit_vector);
}

/// Different states draw on to different states, so no two histories merge.
pub proof fn law_steps_apart(x: u64, y: u64)
    ensures
        step_spec(x) == step_spec(y) ==> x == y,
{
    let (a1, a2) = (x ^ (x << 13u64), y ^ (y << 13u64));
    let (b1, b2) = (a1 ^ (a1 >> 7u64), a2 ^ (a2 >> 7u64));
    assert(x ^ (x << 13u64) == y ^ (y << 13u64) ==> x == y) by (bit_vector);
    assert(a1 ^ (a1 >> 7u64) == a2 ^ (a2 >> 7u64) ==> a1 == a2) by (bit_vector);
    assert(b1 ^ (b1 << 17u64) == b2 ^ (b2 << 17u64) ==> b1 == b2) by (bit_vector);
}

} // verus!
