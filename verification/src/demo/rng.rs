//! A small reproducible random number generator.

use vstd::prelude::*;

verus! {

/// One step of xorshift32.
pub open spec fn xorshift(x: u32) -> u32 {
    let a = x ^ (x << 13u32);
    let b = a ^ (a >> 17u32);
    b ^ (b << 5u32)
}

/// The state after `k` steps.
pub open spec fn drawn(state: u32, k: nat) -> u32
    decreases k,
{
    if k == 0 {
        state
    } else {
        xorshift(drawn(state, (k - 1) as nat))
    }
}

/// Reproducible random numbers. The state is never zero.
pub struct DemoRng(pub u32);

impl DemoRng {
    pub open spec fn wf(&self) -> bool {
        self.0 != 0
    }

    pub fn new(seed: u32) -> (rng: Self)
        ensures
            rng.wf(),
            rng.0 == seed | 1,
    {
        assert(seed | 1 != 0) by (bit_vector);
        DemoRng(seed | 1)
    }

    /// The next number, which is also the next state.
    pub fn next_u32(&mut self) -> (x: u32)
        requires
            old(self).wf(),
        ensures
            final(self).wf(),
            x == xorshift(old(self).0),
            final(self).0 == x,
    {
        proof {
            law_xorshift_never_zero(self.0);
        }
        let mut x: u32 = self.0;
        x = x ^ (x << 13u32);
        x = x ^ (x >> 17u32);
        x = x ^ (x << 5u32);
        self.0 = x;
        x
    }

    /// A number below `n`; zero if `n` is.
    pub fn range(&mut self, n: u32) -> (r: u32)
        requires
            old(self).wf(),
        ensures
            final(self).wf(),
            final(self).0 == xorshift(old(self).0),
            r == if n == 0 {
                0
            } else {
                (xorshift(old(self).0) % n) as int
            },
            n > 0 ==> r < n,
    {
        let bound: u32 = if n == 0 {
            1
        } else {
            n
        };
        self.next_u32() % bound
    }
}

/// A state that is not zero never becomes zero.
pub proof fn law_xorshift_never_zero(x: u32)
    requires
        x != 0,
    ensures
        xorshift(x) != 0,
{
    assert(({
        let a = x ^ (x << 13u32);
        let b = a ^ (a >> 17u32);
        b ^ (b << 5u32)
    }) != 0) by (bit_vector)
        requires
            x != 0,
    ;
}

/// Different states lead to different states: no numbers are lost.
pub proof fn law_xorshift_is_injective(x: u32, y: u32)
    requires
        xorshift(x) == xorshift(y),
    ensures
        x == y,
{
    let a = x ^ (x << 13u32);
    let b = a ^ (a >> 17u32);
    let c = y ^ (y << 13u32);
    let d = c ^ (c >> 17u32);
    assert(b == d) by (bit_vector)
        requires
            b ^ (b << 5u32) == d ^ (d << 5u32),
    ;
    assert(a == c) by (bit_vector)
        requires
            a ^ (a >> 17u32) == c ^ (c >> 17u32),
    ;
    assert(x == y) by (bit_vector)
        requires
            x ^ (x << 13u32) == y ^ (y << 13u32),
    ;
}

/// One step, in arithmetic: the state is mixed with itself 13 places higher, then
/// with itself 17 places lower, then with itself 5 places higher, that is times 8192,
/// by 131072 and times 32, where what does not fit into 32 bits is lost.
pub proof fn law_step_mixes_three_times(x: u32, a: u32, b: u32)
    requires
        a ^ x == (x * 8192) % 0x1_0000_0000,
        b ^ a == a / 131072,
    ensures
        xorshift(x) ^ b == (b * 32) % 0x1_0000_0000,
{
    assert(a == x ^ (x << 13u32)) by (bit_vector)
        requires
            a ^ x == (x * 8192) % 0x1_0000_0000,
    ;
    assert(b == a ^ (a >> 17u32)) by (bit_vector)
        requires
            b ^ a == a / 131072,
    ;
    assert((b ^ (b << 5u32)) ^ b == (b * 32) % 0x1_0000_0000) by (bit_vector);
}

/// A step keeps what two states have in common apart: it mixes bit by bit.
pub proof fn law_step_is_linear(x: u32, y: u32)
    ensures
        xorshift(x ^ y) == xorshift(x) ^ xorshift(y),
{
    assert(({
        let z = x ^ y;
        let a = z ^ (z << 13u32);
        let b = a ^ (a >> 17u32);
        b ^ (b << 5u32)
    }) == ({
        let a = x ^ (x << 13u32);
        let b = a ^ (a >> 17u32);
        b ^ (b << 5u32)
    }) ^ ({
        let a = y ^ (y << 13u32);
        let b = a ^ (a >> 17u32);
        b ^ (b << 5u32)
    })) by (bit_vector);
}

/// Drawing goes on where it stopped: `j` numbers and then `k` are `j + k` numbers,
/// and one number is one step.
pub proof fn law_drawing_goes_on(state: u32, j: nat, k: nat)
    ensures
        drawn(state, 0) == state,
        drawn(state, 1) == xorshift(state),
        drawn(drawn(state, j), k) == drawn(state, j + k),
    decreases k,
{
    reveal_with_fuel(drawn, 2);
    if k > 0 {
        law_drawing_goes_on(state, j, (k - 1) as nat);
    }
}

} // verus!
