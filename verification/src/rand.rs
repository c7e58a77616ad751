use vstd::prelude::*;

verus! {

/// Multiplier of the linear congruential step.
pub const MULTIPLIER: u64 = 6364136223846793005;

/// Increment of the linear congruential step.
pub const INCREMENT: u64 = 1442695040888963407;

/// A permuted congruential generator (PCG-XSH-RR with 64 bits of state and
/// 32 bits of output).
#[derive(Debug, Clone, PartialEq, Eq, Structural)]
pub struct RNG {
    pub state: u64,
}

/// The state after one step: `state * MULTIPLIER + INCREMENT` modulo 2^64.
#[verifier::opaque]
pub open spec fn next_state(s: u64) -> u64 {
    ((s as nat * MULTIPLIER as nat + INCREMENT as nat) % 0x1_0000_0000_0000_0000nat) as u64
}

/// The state after `k` steps.
pub open spec fn nth_state(s: u64, k: nat) -> u64
    decreases k,
{
    if k == 0 {
        s
    } else {
        next_state(nth_state(s, (k - 1) as nat))
    }
}

/// `v` rotated right by `c` bits.
pub open spec fn rotr(v: u32, c: u32) -> u32 {
    if c == 0 {
        v
    } else {
        (v >> c) | (v << ((32 - c) as u32))
    }
}

/// The 32-bit output drawn from state `s`: the xorshifted high bits of the
/// state, rotated right by the top five bits of the state.
pub open spec fn output(s: u64) -> u32 {
    rotr(((s ^ (s >> 18u64)) >> 27u64) as u32, (s >> 59u64) as u32)
}

/// The `k`-th 32-bit output from state `s`.
pub open spec fn nth_output(s: u64, k: nat) -> u32 {
    output(nth_state(s, k))
}

/// The 64-bit value drawn from state `s`: two outputs, the first one high.
pub open spec fn output64(s: u64) -> u64 {
    (output(s) as nat * 0x1_0000_0000nat + output(next_state(s)) as nat) as u64
}

/// The 128-bit value drawn from state `s`: two 64-bit values, the first one
/// high.
pub open spec fn output128(s: u64) -> u128 {
    (output64(s) as nat * 0x1_0000_0000_0000_0000nat + output64(nth_state(s, 2)) as nat) as u128
}

/// The `k`-th 64-bit value from state `s`.
pub open spec fn nth_output64(s: u64, k: nat) -> u64 {
    output64(nth_state(s, 2 * k))
}

/// The `k`-th 128-bit value from state `s`.
pub open spec fn nth_output128(s: u64, k: nat) -> u128 {
    output128(nth_state(s, 4 * k))
}

/// The number of draws after which the nonzero draws give up.
pub open spec fn draw_bound() -> nat {
    u64::MAX as nat
}

/// `v` rotated right by `c` bits.
fn rotate_right(v: u32, c: u32) -> (r: u32)
    requires
        c < 32,
    ensures
        r == rotr(v, c),
{
    if c == 0 {
        v
    } else {
        (v >> c) | (v << (32 - c))
    }
}

proof fn lemma_nth_state_succ(s: u64, k: nat)
    ensures
        nth_state(s, k + 1) == next_state(nth_state(s, k)),
{
}

impl RNG {
    /// Creates a new random number generator with the specified seed.
    pub fn new(seed: u64) -> (r: RNG)
        ensures
            r.state == seed,
    {
        RNG { state: seed }
    }

    /// Draws a bit: whether the next 32-bit output is even.
    pub fn next_bool(&mut self) -> (r: bool)
        ensures
            r == (output(old(self).state) % 2 == 0),
            final(self).state == next_state(old(self).state),
    {
        let v = self.next_u32();
        assert((v & 1) == 0 <==> v % 2 == 0) by (bit_vector);
        v & 1 == 0
    }

    /// Draws 32 bits and advances the state by one step.
    pub fn next_u32(&mut self) -> (r: u32)
        ensures
            r == output(old(self).state),
            final(self).state == next_state(old(self).state),
    {
        let x0 = self.state;
        let count = (x0 >> 59u64) as u32;
        assert(x0 >> 59u64 < 32) by (bit_vector);
        let m = x0.wrapping_mul(MULTIPLIER);
        self.state = m.wrapping_add(INCREMENT);
        proof {
            reveal(next_state);
            let big: int = 0x1_0000_0000_0000_0000;
            assert(m == (x0 as nat * MULTIPLIER as nat) % 0x1_0000_0000_0000_0000nat);
            vstd::arithmetic::div_mod::lemma_add_mod_noop(
                x0 as int * MULTIPLIER as int,
                INCREMENT as int,
                big,
            );
            vstd::arithmetic::div_mod::lemma_small_mod(INCREMENT as nat, big as nat);
            vstd::arithmetic::div_mod::lemma_mod_bound(x0 as int * MULTIPLIER as int, big);
            if m as int + INCREMENT as int >= big {
                vstd::arithmetic::div_mod::lemma_mod_sub_multiples_vanish(m as int + INCREMENT as int, big);
                vstd::arithmetic::div_mod::lemma_small_mod(
                    (m as int + INCREMENT as int - big) as nat,
                    big as nat,
                );
            } else {
                vstd::arithmetic::div_mod::lemma_small_mod(
                    (m as int + INCREMENT as int) as nat,
                    big as nat,
                );
            }
        }
        let x = x0 ^ (x0 >> 18u64);
        #[verifier::truncate]
        let v = (x >> 27u64) as u32;
        rotate_right(v, count)
    }

    /// Draws until the output is not zero and returns that output. The
    /// generator passes through all 2^64 states before it repeats one, so a
    /// nonzero output comes long before `draw_bound()` draws; only were all
    /// of those zero would the result be 1.
    pub fn next_nonzero_u32(&mut self) -> (r: u32)
        ensures
            r != 0,
            (exists|k: nat|
                #![trigger nth_output(old(self).state, k)]
                k < draw_bound() && r == nth_output(old(self).state, k) && (forall|j: nat|
                    j < k ==> #[trigger] nth_output(old(self).state, j) == 0) && final(self).state
                    == nth_state(old(self).state, 1 * k + 1)) || (r == 1 && forall|j: nat|
                j < draw_bound() ==> #[trigger] nth_output(old(self).state, j) == 0),
    {
        let ghost s0 = self.state;
        let mut remaining: u64 = u64::MAX;
        let ghost mut k: nat = 0;
        loop
            invariant
                s0 == old(self).state,
                k + remaining == u64::MAX,
                self.state == nth_state(s0, 1 * k),
                forall|j: nat| j < k ==> #[trigger] nth_output(s0, j) == 0,
            decreases remaining,
        {
            if remaining == 0 {
                return 1;
            }
            let v = self.next_u32();
            proof {
                lemma_nth_state_add(s0, 1 * k, 1);
                assert(nth_output(s0, k) == v);
            }
            if v != 0 {
                return v;
            }
            remaining = remaining - 1;
            proof {
                k = k + 1;
            }
        }
    }

    /// Draws 64 bits: two 32-bit outputs, the first one high.
    pub fn next_u64(&mut self) -> (r: u64)
        ensures
            r == output64(old(self).state),
            final(self).state == nth_state(old(self).state, 2),
    {
        let a = self.next_u32();
        let b = self.next_u32();
        let hi = (a as u64) << 32u64;
        assert(hi == a as u64 * 0x1_0000_0000u64) by (bit_vector)
            requires
                hi == (a as u64) << 32u64,
        ;
        proof {
            lemma_nth_state_succ(old(self).state, 0);
            lemma_nth_state_succ(old(self).state, 1);
        }
        hi + b as u64
    }

    /// Draws 64-bit values until one is not zero and returns it; see
    /// `next_nonzero_u32` for the bound.
    pub fn next_nonzero_u64(&mut self) -> (r: u64)
        ensures
            r != 0,
            (exists|k: nat|
                #![trigger nth_output64(old(self).state, k)]
                k < draw_bound() && r == nth_output64(old(self).state, k) && (forall|j: nat|
                    j < k ==> #[trigger] nth_output64(old(self).state, j) == 0) && final(self).state
                    == nth_state(old(self).state, 2 * k + 2)) || (r == 1 && forall|j: nat|
                j < draw_bound() ==> #[trigger] nth_output64(old(self).state, j) == 0),
    {
        let ghost s0 = self.state;
        let mut remaining: u64 = u64::MAX;
        let ghost mut k: nat = 0;
        loop
            invariant
                s0 == old(self).state,
                k + remaining == u64::MAX,
                self.state == nth_state(s0, 2 * k),
                forall|j: nat| j < k ==> #[trigger] nth_output64(s0, j) == 0,
            decreases remaining,
        {
            if remaining == 0 {
                return 1;
            }
            let v = self.next_u64();
            proof {
                lemma_nth_state_add(s0, 2 * k, 2);
                assert(nth_output64(s0, k) == v);
            }
            if v != 0 {
                return v;
            }
            remaining = remaining - 1;
            proof {
                k = k + 1;
            }
        }
    }

    /// Draws 128 bits: two 64-bit values, the first one high.
    pub fn next_u128(&mut self) -> (r: u128)
        ensures
            r == output128(old(self).state),
            final(self).state == nth_state(old(self).state, 4),
    {
        let a = self.next_u64();
        let b = self.next_u64();
        let hi = (a as u128) << 64u128;
        assert(hi == a as u128 * 0x1_0000_0000_0000_0000u128) by (bit_vector)
            requires
                hi == (a as u128) << 64u128,
        ;
        proof {
            lemma_nth_state_add(old(self).state, 2, 2);
        }
        hi + b as u128
    }

    /// Draws 128-bit values until one is not zero and returns it; see
    /// `next_nonzero_u32` for the bound.
    pub fn next_nonzero_u128(&mut self) -> (r: u128)
        ensures
            r != 0,
            (exists|k: nat|
                #![trigger nth_output128(old(self).state, k)]
                k < draw_bound() && r == nth_output128(old(self).state, k) && (forall|j: nat|
                    j < k ==> #[trigger] nth_output128(old(self).state, j) == 0) && final(self).state
                    == nth_state(old(self).state, 4 * k + 4)) || (r == 1 && forall|j: nat|
                j < draw_bound() ==> #[trigger] nth_output128(old(self).state, j) == 0),
    {
        let ghost s0 = self.state;
        let mut remaining: u64 = u64::MAX;
        let ghost mut k: nat = 0;
        loop
            invariant
                s0 == old(self).state,
                k + remaining == u64::MAX,
                self.state == nth_state(s0, 4 * k),
                forall|j: nat| j < k ==> #[trigger] nth_output128(s0, j) == 0,
            decreases remaining,
        {
            if remaining == 0 {
                return 1;
            }
            let v = self.next_u128();
            proof {
                lemma_nth_state_add(s0, 4 * k, 4);
                assert(nth_output128(s0, k) == v);
            }
            if v != 0 {
                return v;
            }
            remaining = remaining - 1;
            proof {
                k = k + 1;
            }
        }
    }
}

/// Taking `a` steps and then `b` steps is taking `a + b` steps.
pub proof fn lemma_nth_state_add(s: u64, a: nat, b: nat)
    ensures
        nth_state(nth_state(s, a), b) == nth_state(s, a + b),
    decreases b,
{
    if b > 0 {
        lemma_nth_state_add(s, a, (b - 1) as nat);
    }
}

} // verus!
