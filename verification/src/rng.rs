//! A small deterministic generator for channel simulations.

use vstd::prelude::*;

verus! {

/// The state after one round of xorshift with shifts 13, 7 and 17.
pub open spec fn xorshift(state: u64) -> u64 {
    let a = state ^ (state << 13);
    let b = a ^ (a >> 7);
    b ^ (b << 17)
}

/// Deterministic xorshift generator.
pub struct Rng(u64);

impl View for Rng {
    type V = u64;

    closed spec fn view(&self) -> u64 {
        self.0
    }
}

impl Rng {
    /// A generator whose numbers are fixed by `seed`. Its state is odd, so not
    /// zero.
    pub fn new(seed: u64) -> (rng: Rng)
        ensures
            rng@ == seed | 1,
            rng@ != 0,
    {
        assert(seed | 1 != 0) by (bit_vector);
        Rng(seed | 1)
    }

    /// The next number, which is also the next state.
    pub fn next_u64(&mut self) -> (next: u64)
        ensures
            next == xorshift(old(self)@),
            final(self)@ == next,
            old(self)@ != 0 ==> next != 0,
    {
        proof {
            if self.0 != 0 {
                law_never_zero(self.0);
            }
        }
        let mut x: u64 = self.0;
        x = x ^ (x << 13);
        x = x ^ (x >> 7);
        x = x ^ (x << 17);
        self.0 = x;
        x
    }

    /// A number of the unit interval, in units of two to the power of -53: the
    /// upper bits of the next number.
    pub fn unit(&mut self) -> (numerator: u64)
        ensures
            numerator == xorshift(old(self)@) >> 11,
            numerator < 0x20_0000_0000_0000,
            final(self)@ == xorshift(old(self)@),
    {
        let next: u64 = self.next_u64();
        assert(next >> 11 < 0x20_0000_0000_0000) by (bit_vector);
        next >> 11
    }
}

/// A state that is not zero leads only to states that are not zero.
pub proof fn law_never_zero(state: u64)
    requires
        state != 0,
    ensures
        xorshift(state) != 0,
{
    let a = state ^ (state << 13);
    let b = a ^ (a >> 7);
    assert(a != 0) by (bit_vector)
        requires
            state != 0,
            a == state ^ (state << 13),
    ;
    assert(b != 0) by (bit_vector)
        requires
            a != 0,
            b == a ^ (a >> 7),
    ;
    assert(b ^ (b << 17) != 0) by (bit_vector)
        requires
            b != 0,
    ;
}

/// Different states have different successors, so no two sequences of numbers
/// ever run together.
pub proof fn law_states_stay_apart(left: u64, right: u64)
    requires
        xorshift(left) == xorshift(right),
    ensures
        left == right,
{
    let (a, c) = (left ^ (left << 13), right ^ (right << 13));
    let (b, d) = (a ^ (a >> 7), c ^ (c >> 7));
    assert(b == d) by (bit_vector)
        requires
            b ^ (b << 17) == d ^ (d << 17),
    ;
    assert(a == c) by (bit_vector)
        requires
            a ^ (a >> 7) == c ^ (c >> 7),
    ;
    assert(left == right) by (bit_vector)
        requires
            left ^ (left << 13) == right ^ (right << 13),
    ;
}

/// The state before can be worked out from the state after: each of the three
/// rounds is undone by adding the shifted copies that it left out. So the state
/// after is fixed by it.
pub proof fn law_step_can_be_undone(state: u64)
    ensures
        ({
            let y = xorshift(state);
            let b = y ^ (y << 17) ^ (y << 34) ^ (y << 51);
            let a = b ^ (b >> 7) ^ (b >> 14) ^ (b >> 21) ^ (b >> 28) ^ (b >> 35) ^ (b >> 42) ^ (b
                >> 49) ^ (b >> 56) ^ (b >> 63);
            state == a ^ (a << 13) ^ (a << 26) ^ (a << 39) ^ (a << 52)
        }),
{
    let a = state ^ (state << 13);
    let b = a ^ (a >> 7);
    let y = b ^ (b << 17);
    assert(b == y ^ (y << 17) ^ (y << 34) ^ (y << 51)) by (bit_vector)
        requires
            y == b ^ (b << 17),
    ;
    assert(a == b ^ (b >> 7) ^ (b >> 14) ^ (b >> 21) ^ (b >> 28) ^ (b >> 35) ^ (b >> 42) ^ (b >> 49)
        ^ (b >> 56) ^ (b >> 63)) by (bit_vector)
        requires
            b == a ^ (a >> 7),
    ;
    assert(state == a ^ (a << 13) ^ (a << 26) ^ (a << 39) ^ (a << 52)) by (bit_vector)
        requires
            a == state ^ (state << 13),
    ;
}

} // verus!
