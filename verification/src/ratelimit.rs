//! Per-peer command budgets.
//!
//! A budget is a token bucket. It holds `burst` tokens, earns `per_second`
//! tokens per second of frame time, and every accepted command costs one. A
//! command that finds the bucket empty is *dropped*, not deferred: a deferred
//! command would be executed a frame later, which is exactly the backlog the
//! bucket exists to prevent.

use crate::order::{at_most, larger, lemma_less_one, lemma_one, less, one, smaller, zero};
use crate::scalar::{
    difference, from_whole, lemma_plus_zero, lemma_product_not_below, lemma_sum_not_below, lemma_times_zero, lemma_value_orders, lemma_whole_is_exact,
    lemma_whole_minus_one, lemma_whole_positive, lemma_whole_product, lemma_whole_sum, product, sum, unit, Scalar,
};
use vstd::arithmetic::power2::lemma_pow2_pos;
use vstd::prelude::*;

verus! {

/// A token bucket, sized in commands.
#[derive(Clone, Copy, PartialEq, Eq, Debug, Structural)]
pub struct TokenBucket {
    tokens: Scalar,
    capacity: Scalar,
    per_second: Scalar,
}

/// The rate a bucket earns at when asked for `per_second`: a rate that is not
/// finite, or is negative, earns nothing.
pub open spec fn earning_rate(per_second: Scalar) -> Scalar {
    if per_second.finite() {
        larger(per_second, zero())
    } else {
        zero()
    }
}

/// The tokens a bucket holds after `elapsed` seconds. Time that does not move
/// forward, and time that is not a number, change nothing.
pub open spec fn after(held: Scalar, rate: Scalar, most: Scalar, elapsed: Scalar) -> Scalar {
    let earned = sum(held, product(rate, elapsed));
    if less(zero(), elapsed) && !earned.nan() {
        smaller(earned, most)
    } else {
        held
    }
}

impl TokenBucket {
    /// Tokens left.
    pub closed spec fn held(self) -> Scalar {
        self.tokens
    }

    /// The most the bucket can hold.
    pub closed spec fn most(self) -> Scalar {
        self.capacity
    }

    /// Tokens earned per second.
    pub closed spec fn rate(self) -> Scalar {
        self.per_second
    }

    /// The bucket holds between nothing and its capacity, and earns a finite
    /// amount that is not negative.
    pub open spec fn wf(self) -> bool {
        &&& self.held().finite()
        &&& at_most(zero(), self.held())
        &&& at_most(self.held(), self.most())
        &&& self.most().finite()
        &&& self.rate().finite()
        &&& at_most(zero(), self.rate())
    }

    /// A full bucket: `burst` commands may be spent immediately, and spending
    /// is sustained at `per_second` commands per second after that.
    ///
    /// A burst of zero would refuse every command, which reads to a player as a
    /// broken client rather than as a rate limit, so the floor is one. A
    /// non-finite or negative rate earns nothing.
    pub fn new(burst: u32, per_second: Scalar) -> (bucket: TokenBucket)
        ensures
            bucket.wf(),
            bucket.most() == from_whole(if burst == 0 { 1 } else { burst as int }),
            bucket.held() == bucket.most(),
            bucket.rate() == earning_rate(per_second),
    {
        let floor: u32 = if burst == 0 { 1 } else { burst };
        let capacity = Scalar::from_u32(floor);
        proof {
            lemma_whole_positive(floor as int);
        }
        TokenBucket {
            tokens: capacity,
            capacity,
            per_second: if per_second.is_finite() { per_second.max(zero()) } else { zero() },
        }
    }

    /// Earn the tokens `elapsed` seconds bought, never exceeding the burst.
    pub fn refill(&mut self, elapsed: Scalar)
        requires
            old(self).wf(),
        ensures
            final(self).wf(),
            final(self).held() == after(old(self).held(), old(self).rate(), old(self).most(), elapsed),
            final(self).most() == old(self).most(),
            final(self).rate() == old(self).rate(),
    {
        if !elapsed.gt(zero()) {
            return ;
        }
        let earned = self.tokens.plus(self.per_second.times(elapsed));
        if earned.is_nan() {
            return ;
        }
        proof {
            if product(self.per_second, elapsed).nan() {
                reveal(sum);
            } else {
                lemma_earned(self.per_second, elapsed);
                lemma_sum_not_below(self.tokens, product(self.per_second, elapsed));
            }
        }
        self.tokens = earned.min(self.capacity);
    }

    /// Spend one token if there is one. `false` means "refuse this command".
    pub fn try_consume(&mut self) -> (admitted: bool)
        requires
            old(self).wf(),
        ensures
            final(self).wf(),
            admitted == at_most(one(), old(self).held()),
            final(self).held() == (if admitted {
                difference(old(self).held(), one())
            } else {
                old(self).held()
            }),
            final(self).most() == old(self).most(),
            final(self).rate() == old(self).rate(),
    {
        if self.tokens.ge(one()) {
            proof {
                lemma_less_one(self.tokens);
            }
            self.tokens = self.tokens.minus(one());
            true
        } else {
            false
        }
    }

    /// Tokens left, for tests and diagnostics.
    pub fn tokens(&self) -> (t: Scalar)
        ensures
            t == self.held(),
    {
        self.tokens
    }

    /// The burst the bucket was built with, i.e. the most it can ever hold.
    pub fn capacity(&self) -> (c: Scalar)
        ensures
            c == self.most(),
    {
        self.capacity
    }
}

proof fn lemma_earned(rate: Scalar, elapsed: Scalar)
    requires
        rate.finite(),
        at_most(zero(), rate),
        less(zero(), elapsed),
        !product(rate, elapsed).nan(),
    ensures
        !product(rate, elapsed).negative() || product(rate, elapsed).zero(),
{
    if elapsed.finite() {
        lemma_product_not_below(rate, elapsed);
    } else {
        reveal(product);
    }
}

/// The tokens left after `n` commands were considered, all in one frame.
pub open spec fn spent(held: Scalar, n: nat) -> Scalar
    decreases n,
{
    if n == 0 {
        held
    } else {
        let before = spent(held, (n - 1) as nat);
        if at_most(one(), before) {
            difference(before, one())
        } else {
            before
        }
    }
}

/// In one frame a full bucket admits exactly its burst: the first `burst`
/// commands find a token and no later one does. Bursts of more than 24 binary
/// digits are left out, because single precision cannot count them down by one.
pub proof fn law_a_frame_spends_the_burst_and_no_more(burst: nat, n: nat)
    requires
        1 <= burst <= 0x100_0000,
    ensures
        at_most(one(), spent(from_whole(burst as int), n)) <==> n < burst,
        spent(from_whole(burst as int), n) == from_whole(if n < burst { burst - n } else { 0 }),
    decreases n,
{
    lemma_one();
    lemma_pow2_pos(149);
    let left: int = if n < burst { burst - n } else { 0 };
    if n > 0 {
        law_a_frame_spends_the_burst_and_no_more(burst, (n - 1) as nat);
        if n <= burst {
            lemma_whole_minus_one(burst - n + 1);
        }
    }
    lemma_whole_is_exact(left);
    lemma_value_orders(one(), from_whole(left));
    if left == 0 {
        assert(left * unit() == 0) by (nonlinear_arith)
            requires
                left == 0,
        ;
    } else {
        assert(left * unit() >= unit()) by (nonlinear_arith)
            requires
                left >= 1,
                unit() > 0,
        ;
    }
}

/// A bucket whose rate is not finite, or is negative, never earns a token.
pub proof fn law_a_bad_rate_earns_nothing(bucket: TokenBucket, per_second: Scalar, elapsed: Scalar)
    requires
        bucket.wf(),
        bucket.rate() == earning_rate(per_second),
        !per_second.finite() || less(per_second, zero()),
    ensures
        after(bucket.held(), bucket.rate(), bucket.most(), elapsed).position() == bucket.held().position(),
{
    if less(zero(), elapsed) {
        if elapsed.finite() {
            lemma_times_zero(bucket.rate(), elapsed);
            lemma_plus_zero(bucket.held(), product(bucket.rate(), elapsed));
        } else {
            reveal(product);
            reveal(sum);
        }
    }
}

/// Time earns what it buys and no more: a bucket that earns a whole number of
/// tokens a second has, after a whole number of seconds, that many more for each,
/// and never more than it can hold.
pub proof fn law_time_earns_tokens(held: int, rate: int, most: int, seconds: int)
    requires
        0 <= held <= most <= 0x100_0000,
        0 <= rate <= 0x100_0000,
        1 <= seconds <= 0x100_0000,
        held + rate * seconds <= 0x100_0000,
    ensures
        after(from_whole(held), from_whole(rate), from_whole(most), from_whole(seconds)) == from_whole(
            if held + rate * seconds < most {
                held + rate * seconds
            } else {
                most
            },
        ),
{
    assert(rate * seconds >= 0) by (nonlinear_arith)
        requires
            rate >= 0,
            seconds >= 0,
    ;
    lemma_whole_product(rate, seconds);
    lemma_whole_sum(held, rate * seconds);
    let earned = held + rate * seconds;
    lemma_whole_positive(seconds);
    lemma_whole_is_exact(earned);
    lemma_whole_is_exact(most);
    lemma_value_orders(from_whole(earned), from_whole(most));
    lemma_pow2_pos(149);
    assert((earned < most ==> earned * unit() < most * unit()) && (most < earned ==> most * unit() < earned * unit()))
        by (nonlinear_arith)
        requires
            unit() > 0,
    ;
}

/// A bucket never loses tokens to time, never holds more than its burst, and earns
/// nothing while time does not move forward. A sound rate is earned at as it is.
pub proof fn law_a_bucket_stays_within_its_burst(bucket: TokenBucket, elapsed: Scalar, per_second: Scalar)
    requires
        bucket.wf(),
    ensures
        ({
            let then = after(bucket.held(), bucket.rate(), bucket.most(), elapsed);
            &&& at_most(bucket.held(), then)
            &&& at_most(then, bucket.most())
            &&& !less(zero(), elapsed) ==> then == bucket.held()
        }),
        per_second.finite() && less(zero(), per_second) ==> earning_rate(per_second) == per_second,
{
    if less(zero(), elapsed) {
        let more = product(bucket.rate(), elapsed);
        if more.nan() {
            reveal(sum);
        } else {
            lemma_earned(bucket.rate(), elapsed);
            lemma_sum_not_below(bucket.held(), more);
        }
    }
}

} // verus!
