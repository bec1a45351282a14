//! The match's random number generator.
//!
//! SplitMix64: a few lines, no dependency, and identical on every platform,
//! which is the whole point. A generator that draws from the platform's entropy
//! or from the clock cannot be replayed, and a match that cannot be replayed
//! cannot be tested or reproduced from a bug report.

use crate::order::{at_most, below, lemma_one, less, one, zero};
use crate::scalar::{
    difference, from_whole, lemma_factors_swap, lemma_fraction_of_count, lemma_plus_zero, lemma_product_not_below,
    lemma_product_ordered, lemma_rounded_is_nearest, lemma_rounds_exactly, lemma_sum_ordered, lemma_times_one,
    lemma_times_zero, lemma_value_orders, magnitude, negated, product, quotient, sum, unit, Scalar,
};
use vstd::arithmetic::div_mod::{
    lemma_add_mod_noop, lemma_mod_bound, lemma_mod_twice, lemma_mul_mod_noop_general, lemma_small_mod, lemma_sub_mod_noop,
};
use vstd::arithmetic::power2::{lemma_pow2_adds, lemma_pow2_pos, lemma2_to64, pow2};
use vstd::prelude::*;

verus! {

/// What the state advances by at every draw.
pub const STRIDE: u64 = 0x9E37_79B9_7F4A_7C15;

/// The state after one draw.
pub open spec fn advanced(state: u64) -> u64 {
    ((state + STRIDE) % 0x1_0000_0000_0000_0000) as u64
}

/// A product, reduced to 64 bits.
#[verifier::opaque]
pub open spec fn wrapped(a: u64, b: u64) -> u64 {
    ((a * b) % 0x1_0000_0000_0000_0000) as u64
}

/// The value drawn from a state.
pub open spec fn mixed(state: u64) -> u64 {
    let a = wrapped(state ^ (state >> 30), 0xBF58_476D_1CE4_E5B9);
    let b = wrapped(a ^ (a >> 27), 0x94D0_49BB_1331_11EB);
    b ^ (b >> 31)
}

/// The fraction in `[0, 1)` made of the top 24 bits of a draw.
pub open spec fn fraction(draw: u64) -> Scalar {
    quotient(from_whole((draw >> 40) as int), from_whole(0x100_0000))
}

/// The number that a fraction stands for between two others: as far from the
/// first to the second as the fraction says, and before the second. Where
/// rounding would reach the second it is the number next below.
pub open spec fn drawn(low: Scalar, high: Scalar, f: Scalar) -> Scalar {
    let r = sum(low, product(difference(high, low), f));
    if less(r, high) {
        r
    } else {
        below(high)
    }
}

/// The generator's state after `n` draws.
pub open spec fn state_after(state: u64, n: nat) -> u64
    decreases n,
{
    if n == 0 {
        state
    } else {
        advanced(state_after(state, (n - 1) as nat))
    }
}

/// A seeded generator.
#[derive(Clone, Copy, PartialEq, Eq, Debug, Structural)]
pub struct Rng {
    state: u64,
}

impl View for Rng {
    type V = u64;

    closed spec fn view(&self) -> u64 {
        self.state
    }
}

impl Rng {
    /// A generator that will produce the same sequence for the same `seed`,
    /// forever, and a different one for a different seed.
    pub fn from_seed(seed: u64) -> (rng: Rng)
        ensures
            rng@ == seed,
    {
        Rng { state: seed }
    }

    /// The next 64 bits.
    pub fn next_u64(&mut self) -> (draw: u64)
        ensures
            final(self)@ == advanced(old(self)@),
            draw == mixed(advanced(old(self)@)),
    {
        proof {
            reveal(wrapped);
        }
        self.state = self.state.wrapping_add(STRIDE);
        let mut z: u64 = self.state;
        z = (z ^ (z >> 30)).wrapping_mul(0xBF58_476D_1CE4_E5B9);
        z = (z ^ (z >> 27)).wrapping_mul(0x94D0_49BB_1331_11EB);
        z ^ (z >> 31)
    }

    /// The next number in `[0, 1)`, from the top 24 bits -- exactly what a
    /// single-precision significand holds, so every value is equally likely and
    /// none is rounded into one.
    pub fn next_f32(&mut self) -> (f: Scalar)
        ensures
            final(self)@ == advanced(old(self)@),
            f == fraction(mixed(advanced(old(self)@))),
    {
        let draw: u64 = self.next_u64();
        assert(draw >> 40 < 0x100_0000) by (bit_vector);
        Scalar::from_u32((draw >> 40) as u32).over(Scalar::from_u32(0x100_0000))
    }

    /// The next number in `[low, high)`. An empty or inverted range yields `low`
    /// and draws nothing, so a misconfigured table does no harm here.
    pub fn range_f32(&mut self, low: Scalar, high: Scalar) -> (r: Scalar)
        ensures
            !less(low, high) ==> r == low && final(self)@ == old(self)@,
            less(low, high) ==> {
                &&& final(self)@ == advanced(old(self)@)
                &&& r == drawn(low, high, fraction(mixed(advanced(old(self)@))))
                &&& at_most(low, r)
                &&& less(r, high)
            },
    {
        if !high.gt(low) {
            return low;
        }
        proof {
            law_a_draw_stays_in_its_range(low, high, mixed(advanced(self@)));
        }
        let r = low.plus(high.minus(low).times(self.next_f32()));
        if r.lt(high) {
            r
        } else {
            high.next_below()
        }
    }
}

/// Every fraction drawn lies in `[0, 1)`.
pub proof fn law_fractions_stay_below_one(draw: u64)
    ensures
        at_most(zero(), fraction(draw)),
        less(fraction(draw), one()),
{
    assert(draw >> 40 < 0x100_0000) by (bit_vector);
    lemma_fraction_of_count((draw >> 40) as int);
    lemma_one();
    lemma_value_orders(fraction(draw), one());
}

/// A draw from a range lies in it: not before its start, and before its end.
pub proof fn law_a_draw_stays_in_its_range(low: Scalar, high: Scalar, draw: u64)
    requires
        less(low, high),
    ensures
        at_most(low, drawn(low, high, fraction(draw))),
        less(drawn(low, high, fraction(draw)), high),
{
    assert(draw >> 40 < 0x100_0000) by (bit_vector);
    lemma_fraction_of_count((draw >> 40) as int);
    let f = fraction(draw);
    let width = difference(high, low);
    let part = product(width, f);
    let r = sum(low, part);
    if less(r, high) && low.finite() {
        reveal(sum);
        reveal(product);
        if high.finite() {
            lemma_value_orders(low, high);
            lemma_rounded_is_nearest(high.value() - low.value(), 1);
        }
        assert(!width.nan() && !width.negative());
        if width.finite() {
            lemma_product_not_below(width, f);
        }
        assert(!part.nan());
        if part.finite() {
            lemma_sum_ordered(low, zero(), part);
            lemma_plus_zero(low, zero());
        }
    }
}

// ---------------------------------------------------------------------------
// The generator does not repeat itself
// ---------------------------------------------------------------------------

/// The factors of the generator are odd, so each has an inverse.
proof fn lemma_inverses()
    ensures
        wrapped(0x94D0_49BB_1331_11EB, 0x3196_42B2_D24D_8EC3) == 1,
        wrapped(0xBF58_476D_1CE4_E5B9, 0x96DE_1B17_3F11_9089) == 1,
        wrapped(STRIDE, 0xF1DE_83E1_9937_733D) == 1,
        forall|b: u64| wrapped(0, b) == 0,
{
    reveal(wrapped);
    assert(0x94D049BB133111EBint * 0x3196_42B2_D24D_8EC3int == 0x1CD336EDA85F1453int * 0x1_0000_0000_0000_0000 + 1);
    assert(0xBF58476D1CE4E5B9int * 0x96DE_1B17_3F11_9089int == 0x70C3BCA78F27F46Cint * 0x1_0000_0000_0000_0000 + 1);
    assert(0x9E3779B97F4A7C15int * 0xF1DE_83E1_9937_733Dint == 0x957BBF35006ED677int * 0x1_0000_0000_0000_0000 + 1);
    assert forall|b: u64| wrapped(0, b) == 0 by {
        assert(0 * b == 0);
    }
}

pub(crate) proof fn lemma_odd_factor(a: u64, b: u64, factor: u64, inverse: u64)
    requires
        wrapped(a, factor) == wrapped(b, factor),
        wrapped(factor, inverse) == 1,
    ensures
        a == b,
{
    lemma_undo(a, factor, inverse);
    lemma_undo(b, factor, inverse);
}

pub(crate) proof fn lemma_undo(a: u64, factor: u64, inverse: u64)
    requires
        wrapped(factor, inverse) == 1,
    ensures
        wrapped(wrapped(a, factor), inverse) == a,
{
    reveal(wrapped);
    let m: int = 0x1_0000_0000_0000_0000;
    lemma_mod_bound(a * factor, m);
    lemma_mod_bound(factor * inverse, m);
    lemma_mul_mod_noop_general(a * factor, inverse as int, m);
    lemma_mul_mod_noop_general(a as int, factor * inverse, m);
    assert((a * factor) * inverse == a * (factor * inverse)) by (nonlinear_arith);
    assert(a * 1 == a);
    lemma_small_mod(a as nat, m as nat);
    lemma_mod_bound(wrapped(a, factor) * inverse, m);
}

/// Different states give different draws.
pub proof fn law_draws_tell_states_apart(a: u64, b: u64)
    requires
        mixed(a) == mixed(b),
    ensures
        a == b,
{
    lemma_inverses();
    let a1 = a ^ (a >> 30);
    let b1 = b ^ (b >> 30);
    let a2 = wrapped(a1, 0xBF58_476D_1CE4_E5B9);
    let b2 = wrapped(b1, 0xBF58_476D_1CE4_E5B9);
    let a3 = a2 ^ (a2 >> 27);
    let b3 = b2 ^ (b2 >> 27);
    let a4 = wrapped(a3, 0x94D0_49BB_1331_11EB);
    let b4 = wrapped(b3, 0x94D0_49BB_1331_11EB);
    assert(a4 ^ (a4 >> 31) == b4 ^ (b4 >> 31) ==> a4 == b4) by (bit_vector);
    lemma_odd_factor(a3, b3, 0x94D0_49BB_1331_11EB, 0x3196_42B2_D24D_8EC3);
    assert(a2 ^ (a2 >> 27) == b2 ^ (b2 >> 27) ==> a2 == b2) by (bit_vector);
    lemma_odd_factor(a1, b1, 0xBF58_476D_1CE4_E5B9, 0x96DE_1B17_3F11_9089);
    assert(a ^ (a >> 30) == b ^ (b >> 30) ==> a == b) by (bit_vector);
}

proof fn lemma_state_after(state: u64, n: nat)
    ensures
        state_after(state, n) == ((state + n * STRIDE) % 0x1_0000_0000_0000_0000) as u64,
    decreases n,
{
    let m: int = 0x1_0000_0000_0000_0000;
    if n == 0 {
        lemma_small_mod(state as nat, m as nat);
    } else {
        lemma_state_after(state, (n - 1) as nat);
        let before = state + (n - 1) * STRIDE;
        lemma_mod_bound(before, m);
        assert((n - 1) * STRIDE + STRIDE == n * STRIDE) by (nonlinear_arith);
        lemma_add_mod_noop(before, STRIDE as int, m);
        lemma_add_mod_noop(before % m, STRIDE as int, m);
        lemma_mod_twice(before, m);
        lemma_mod_bound(before + STRIDE, m);
    }
}

/// The generator has the full period: from one state, no two draws among two to
/// the power of 64 are the same.
pub proof fn law_the_period_is_full(state: u64, i: nat, j: nat)
    requires
        i < j,
        j - i < 0x1_0000_0000_0000_0000,
    ensures
        mixed(state_after(state, i)) != mixed(state_after(state, j)),
{
    if mixed(state_after(state, i)) == mixed(state_after(state, j)) {
        law_draws_tell_states_apart(state_after(state, i), state_after(state, j));
        lemma_state_after(state, i);
        lemma_state_after(state, j);
        let m: int = 0x1_0000_0000_0000_0000;
        let a = state + i * STRIDE;
        let b = state + j * STRIDE;
        lemma_mod_bound(a, m);
        lemma_mod_bound(b, m);
        let d: u64 = (j - i) as u64;
        assert(b - a == d * STRIDE) by (nonlinear_arith)
            requires
                a == state + i * STRIDE,
                b == state + j * STRIDE,
                d == j - i,
        ;
        lemma_sub_mod_noop(b, a, m);
        assert((b % m) - (a % m) == 0);
        lemma_small_mod(0, m as nat);
        assert(wrapped(d, STRIDE) == 0) by {
            reveal(wrapped);
        }
        lemma_inverses();
        lemma_odd_factor(d, 0, STRIDE, 0xF1DE_83E1_9937_733D);
    }
}

/// Different seeds start with different draws.
pub proof fn law_seeds_differ_from_the_first_draw(a: u64, b: u64)
    requires
        a != b,
    ensures
        mixed(advanced(a)) != mixed(advanced(b)),
{
    if mixed(advanced(a)) == mixed(advanced(b)) {
        law_draws_tell_states_apart(advanced(a), advanced(b));
    }
}

/// A fraction is the top 24 bits of its draw, taken as so many parts of two to the
/// power of 24; a larger draw is no smaller a fraction.
pub proof fn law_a_fraction_is_the_top_of_its_draw(low: u64, high: u64)
    requires
        low <= high,
    ensures
        fraction(low).value() * 0x100_0000 == (low / 0x100_0000_0000) * unit(),
        at_most(fraction(low), fraction(high)),
{
    assert(low >> 40 == low / 0x100_0000_0000) by (bit_vector);
    assert(high >> 40 == high / 0x100_0000_0000) by (bit_vector);
    assert(low >> 40 < 0x100_0000) by (bit_vector);
    assert(high >> 40 < 0x100_0000) by (bit_vector);
    let a = (low >> 40) as int;
    let b = (high >> 40) as int;
    lemma_fraction_of_count(a);
    lemma_fraction_of_count(b);
    lemma_pow2_adds(24, 125);
    lemma2_to64();
    let p = pow2(125) as int;
    lemma_pow2_pos(125);
    assert((a * p) * 0x100_0000 == a * (0x100_0000 * p)) by (nonlinear_arith);
    assert(a * p <= b * p) by (nonlinear_arith)
        requires
            a <= b,
            p > 0,
    ;
    lemma_value_orders(fraction(low), fraction(high));
}

/// A draw goes as far through its range as its fraction says: nothing is the near
/// end, more is no nearer, and short of the far end it is exactly that part of the
/// way.
pub proof fn law_a_draw_is_its_part_of_the_range(low: Scalar, high: Scalar, f: Scalar, g: Scalar)
    requires
        low.finite(),
        high.finite(),
        less(low, high),
        difference(high, low).finite(),
        at_most(zero(), f),
        at_most(f, g),
        less(g, one()),
    ensures
        drawn(low, high, zero()).position() == low.position(),
        at_most(drawn(low, high, f), drawn(low, high, g)),
        ({
            let part = sum(low, product(difference(high, low), f));
            less(part, high) ==> drawn(low, high, f) == part
        }),
{
    lemma_one();
    let width = difference(high, low);
    lemma_value_orders(low, high);
    lemma_sum_ordered(high, negated(high), negated(low));
    let none = difference(high, high);
    assert(none.zero()) by {
        reveal(sum);
        assert(negated(high).value() == -high.value());
        lemma_rounds_exactly(0);
        assert(magnitude(0) == 0);
    }
    assert(!width.negative() || width.zero());
    lemma_product_ordered(f, g, width);
    lemma_product_ordered(zero(), f, width);
    lemma_product_ordered(g, one(), width);
    lemma_factors_swap(f, width);
    lemma_factors_swap(g, width);
    lemma_factors_swap(one(), width);
    lemma_times_one(width);
    lemma_times_zero(zero(), width);
    let x = product(width, f);
    let y = product(width, g);
    lemma_sum_ordered(low, x, y);
    let nothing = product(width, zero());
    lemma_plus_zero(low, nothing);
}

/// The generator strides: after `n` draws its state is `n` strides on, and nothing
/// else moved it.
pub proof fn law_the_generator_strides(state: u64, n: nat)
    ensures
        state_after(state, n) as int == (state + n * 0x9E37_79B9_7F4A_7C15) % 0x1_0000_0000_0000_0000,
{
    lemma_state_after(state, n);
    lemma_mod_bound(state + n * STRIDE, 0x1_0000_0000_0000_0000);
}

/// A draw taken apart again: the state it was made from.
pub open spec fn unmixed(draw: u64) -> u64 {
    let b = draw ^ (draw >> 31) ^ (draw >> 62);
    let y = wrapped(b, 0x3196_42B2_D24D_8EC3);
    let a = y ^ (y >> 27) ^ (y >> 54);
    let x = wrapped(a, 0x96DE_1B17_3F11_9089);
    x ^ (x >> 30) ^ (x >> 60)
}

/// A draw gives its state away: what is mixed comes apart again.
pub proof fn law_a_draw_comes_apart(state: u64)
    ensures
        unmixed(mixed(state)) == state,
{
    lemma_inverses();
    let p = state ^ (state >> 30);
    let a = wrapped(p, 0xBF58_476D_1CE4_E5B9);
    let q = a ^ (a >> 27);
    let b = wrapped(q, 0x94D0_49BB_1331_11EB);
    let draw = b ^ (b >> 31);
    assert(draw == mixed(state));
    assert((b ^ (b >> 31)) ^ ((b ^ (b >> 31)) >> 31) ^ ((b ^ (b >> 31)) >> 62) == b) by (bit_vector);
    assert((a ^ (a >> 27)) ^ ((a ^ (a >> 27)) >> 27) ^ ((a ^ (a >> 27)) >> 54) == a) by (bit_vector);
    assert((state ^ (state >> 30)) ^ ((state ^ (state >> 30)) >> 30) ^ ((state ^ (state >> 30)) >> 60) == state)
        by (bit_vector);
    lemma_undo(q, 0x94D0_49BB_1331_11EB, 0x3196_42B2_D24D_8EC3);
    lemma_undo(p, 0xBF58_476D_1CE4_E5B9, 0x96DE_1B17_3F11_9089);
}

} // verus!
