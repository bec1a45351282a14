//! Single-precision numbers, computed exactly as the binary32 format prescribes.
//!
//! A [`Scalar`] is the bit pattern of a binary32 number. Every operation works
//! on integers, so two machines that replay the same match get the same bits,
//! and every operation is proved against the format's own rule: the result is
//! the representable number nearest to the exact one, ties going to the even
//! pattern.
//!
//! Magnitudes are measured in units of the smallest positive number (two to the
//! power of minus 149), in which every finite number is a whole number. Patterns
//! without their sign bit are called *ranks*: consecutive ranks are consecutive
//! magnitudes, and the rank after the largest finite one is infinity.

use vstd::arithmetic::power2::{lemma_pow2_adds, lemma_pow2_pos, lemma_pow2_strictly_increases, lemma2_to64, lemma2_to64_rest, pow2};
use vstd::prelude::*;

verus! {

/// The rank of infinity. Larger ranks are not numbers.
pub const INFINITE: u32 = 0x7F80_0000;

/// The sign bit of a pattern.
pub const SIGN: u32 = 0x8000_0000;

/// The one pattern produced for "not a number".
pub const NOT_A_NUMBER: u32 = 0x7FC0_0000;

/// A binary32 number, by its bit pattern.
///
/// `==` compares patterns; the numeric comparisons are methods.
#[derive(Clone, Copy, PartialEq, Eq, Debug, Structural)]
pub struct Scalar {
    pub bits: u32,
}

// ---------------------------------------------------------------------------
// The format
// ---------------------------------------------------------------------------

/// The magnitude a rank stands for, in units of the smallest positive number.
pub open spec fn magnitude(rank: int) -> int {
    let exponent = rank / 0x80_0000;
    let fraction = rank % 0x80_0000;
    if exponent == 0 {
        fraction
    } else {
        (fraction + 0x80_0000) * pow2((exponent - 1) as nat)
    }
}

/// `rank` is the correct rounding of the exact magnitude `n / d`: no midpoint
/// between neighbouring magnitudes separates the two, and a magnitude that is
/// exactly a midpoint goes to the even rank.
pub open spec fn nearest(rank: int, n: int, d: int) -> bool {
    &&& 0 <= rank <= INFINITE
    &&& rank < INFINITE ==> 2 * n <= (magnitude(rank) + magnitude(rank + 1)) * d
    &&& rank < INFINITE && 2 * n == (magnitude(rank) + magnitude(rank + 1)) * d ==> rank % 2 == 0
    &&& rank > 0 ==> (magnitude(rank - 1) + magnitude(rank)) * d <= 2 * n
    &&& rank > 0 && (magnitude(rank - 1) + magnitude(rank)) * d == 2 * n ==> rank % 2 == 0
}

/// The rank of the number nearest to the exact magnitude `n / d`.
pub open spec fn rounded(n: int, d: int) -> int {
    choose|rank: int| nearest(rank, n, d)
}

impl Scalar {
    /// True when the sign bit is set.
    pub open spec fn negative(self) -> bool {
        self.bits >= SIGN
    }

    /// The pattern without its sign bit.
    pub open spec fn rank(self) -> int {
        if self.bits >= SIGN {
            self.bits - SIGN
        } else {
            self.bits as int
        }
    }

    /// Not a number.
    pub open spec fn nan(self) -> bool {
        self.rank() > INFINITE
    }

    /// A number that is neither infinite nor "not a number".
    pub open spec fn finite(self) -> bool {
        self.rank() < INFINITE
    }

    /// One of the two infinities.
    pub open spec fn infinite(self) -> bool {
        self.rank() == INFINITE
    }

    /// One of the two zeros.
    pub open spec fn zero(self) -> bool {
        self.rank() == 0
    }

    /// The exact value of a finite number, in units of the smallest positive one.
    pub open spec fn value(self) -> int {
        if self.negative() {
            -magnitude(self.rank())
        } else {
            magnitude(self.rank())
        }
    }

    /// A position on the number line: larger numbers have larger positions, and
    /// the two zeros share one.
    pub open spec fn position(self) -> int {
        if self.negative() {
            -self.rank()
        } else {
            self.rank()
        }
    }
}

/// The pattern with this sign and rank.
pub open spec fn signed(negative: bool, rank: int) -> Scalar {
    Scalar { bits: (if negative { rank + SIGN } else { rank }) as u32 }
}

// ---------------------------------------------------------------------------
// Facts about magnitudes
// ---------------------------------------------------------------------------

/// A rank written as an exponent step and a significand has the magnitude
/// significand times two to the step.
proof fn lemma_magnitude_of(step: int, significand: int)
    requires
        step >= 0,
        0 <= significand <= 0x100_0000,
        step > 0 ==> significand >= 0x80_0000,
    ensures
        magnitude(step * 0x80_0000 + significand) == significand * pow2(step as nat),
{
    let rank = step * 0x80_0000 + significand;
    lemma_pow2_pos(step as nat);
    if significand == 0x100_0000 {
        assert(rank / 0x80_0000 == step + 2);
        assert(rank % 0x80_0000 == 0);
        lemma_pow2_adds(step as nat, 1);
        lemma2_to64();
        assert((step + 1) as nat == step as nat + 1);
        let unit = pow2(step as nat);
        assert(0x80_0000 * (unit * 2) == 0x100_0000 * unit) by (nonlinear_arith);
    } else if significand >= 0x80_0000 {
        assert(rank / 0x80_0000 == step + 1);
        assert(rank % 0x80_0000 == significand - 0x80_0000);
    } else {
        assert(step == 0);
        lemma2_to64();
        assert(significand * pow2(0) == significand) by (nonlinear_arith)
            requires
                pow2(0) == 1,
        ;
    }
}

/// Every rank is an exponent step and a significand.
proof fn lemma_split(rank: int) -> (parts: (int, int))
    requires
        rank >= 0,
    ensures
        parts.0 >= 0,
        0 <= parts.1 < 0x100_0000,
        parts.0 > 0 ==> parts.1 >= 0x80_0000,
        rank == parts.0 * 0x80_0000 + parts.1,
{
    let exponent = rank / 0x80_0000;
    let fraction = rank % 0x80_0000;
    if exponent == 0 {
        (0, fraction)
    } else {
        (exponent - 1, fraction + 0x80_0000)
    }
}

/// Consecutive ranks are strictly increasing magnitudes.
proof fn lemma_magnitude_step(rank: int)
    requires
        rank >= 0,
    ensures
        0 <= magnitude(rank) < magnitude(rank + 1),
{
    let (step, significand) = lemma_split(rank);
    lemma_magnitude_of(step, significand);
    lemma_magnitude_of(step, significand + 1);
    lemma_pow2_pos(step as nat);
    let unit = pow2(step as nat) as int;
    assert(0 <= significand * unit < (significand + 1) * unit) by (nonlinear_arith)
        requires
            significand >= 0,
            unit > 0,
    ;
}

/// Larger ranks are larger magnitudes.
pub proof fn lemma_magnitude_increases(low: int, high: int)
    requires
        0 <= low < high,
    ensures
        0 <= magnitude(low) < magnitude(high),
    decreases high - low,
{
    lemma_magnitude_step(low);
    if low + 1 < high {
        lemma_magnitude_increases(low + 1, high);
    }
}

/// An exact magnitude has at most one correct rounding.
pub proof fn lemma_nearest_unique(a: int, b: int, n: int, d: int)
    requires
        nearest(a, n, d),
        nearest(b, n, d),
        d > 0,
    ensures
        a == b,
{
    lemma_nearest_ordered(a, b, n, d);
    lemma_nearest_ordered(b, a, n, d);
}

proof fn lemma_nearest_ordered(a: int, b: int, n: int, d: int)
    requires
        nearest(a, n, d),
        nearest(b, n, d),
        d > 0,
    ensures
        a >= b,
{
    let above_a = magnitude(a) + magnitude(a + 1);
    let below_b = magnitude(b - 1) + magnitude(b);
    if a + 1 == b {
        assert(above_a == below_b);
    } else if a + 1 < b {
        lemma_magnitude_increases(a, b - 1);
        lemma_magnitude_increases(a + 1, b);
        assert(above_a * d < below_b * d) by (nonlinear_arith)
            requires
                above_a < below_b,
                d > 0,
        ;
    }
}

/// What is nearest is what `rounded` names.
proof fn lemma_rounded(rank: int, n: int, d: int)
    requires
        nearest(rank, n, d),
        d > 0,
    ensures
        rounded(n, d) == rank,
{
    lemma_nearest_unique(rank, rounded(n, d), n, d);
}

// ---------------------------------------------------------------------------
// Rounding
// ---------------------------------------------------------------------------

spec fn up(x: int) -> int {
    pow2((if x > 0 { x } else { 0 }) as nat) as int
}

spec fn down(x: int) -> int {
    pow2((if x < 0 { -x } else { 0 }) as nat) as int
}

/// `rank` is the correct rounding of `significand * 2^x`, or, when `more` is
/// set, of every magnitude strictly between that and `(significand + 1) * 2^x`.
spec fn packed(rank: int, significand: int, more: bool, x: int) -> bool {
    let low = 2 * significand * up(x);
    let high = 2 * (significand + 1) * up(x);
    &&& 0 <= rank <= INFINITE
    &&& rank < INFINITE ==> {
        let middle = (magnitude(rank) + magnitude(rank + 1)) * down(x);
        if more {
            high <= middle
        } else {
            low <= middle && (low == middle ==> rank % 2 == 0)
        }
    }
    &&& rank > 0 ==> {
        let middle = (magnitude(rank - 1) + magnitude(rank)) * down(x);
        middle <= low && (!more && middle == low ==> rank % 2 == 0)
    }
}

proof fn lemma_scale(step: int, shift: int, x: int)
    requires
        step >= 0,
        shift >= 0,
        step == shift + x,
    ensures
        pow2(step as nat) * down(x) == pow2(shift as nat) * up(x),
        up(x) > 0,
        down(x) > 0,
{
    lemma_pow2_pos((if x > 0 { x } else { 0 }) as nat);
    lemma_pow2_pos((if x < 0 { -x } else { 0 }) as nat);
    lemma2_to64();
    if x >= 0 {
        lemma_pow2_adds(shift as nat, x as nat);
        let unit = pow2(step as nat) as int;
        assert(unit * 1 == unit) by (nonlinear_arith);
        assert((shift as nat + x as nat) == step as nat);
    } else {
        lemma_pow2_adds(step as nat, (-x) as nat);
        let unit = pow2(shift as nat) as int;
        assert(unit * 1 == unit) by (nonlinear_arith);
        assert((step as nat + (-x) as nat) == shift as nat);
    }
}

/// Like [`packed`], with ranks past infinity standing for the magnitudes that
/// the format would have there.
spec fn packed_open(rank: int, significand: int, more: bool, x: int) -> bool {
    let low = 2 * significand * up(x);
    let high = 2 * (significand + 1) * up(x);
    let above = (magnitude(rank) + magnitude(rank + 1)) * down(x);
    let below = (magnitude(rank - 1) + magnitude(rank)) * down(x);
    &&& rank >= 0
    &&& more ==> high <= above
    &&& !more ==> low <= above && (low == above ==> rank % 2 == 0)
    &&& rank > 0 ==> below <= low && (!more && below == low ==> rank % 2 == 0)
}

proof fn lemma_len_at_least(significand: int, len: int)
    requires
        significand >= 0x400_0000,
        1 <= len,
        significand < pow2(len as nat),
    ensures
        len >= 27,
{
    lemma2_to64();
    if len < 26 {
        lemma_pow2_strictly_increases(len as nat, 26);
    }
}

proof fn lemma_pack_exact(
    rank: int,
    significand: int,
    scaled: int,
    step: int,
    shift: int,
    x: int,
)
    requires
        significand > 0,
        step >= 0,
        shift == step - x,
        shift <= 0,
        scaled == significand * pow2((-shift) as nat),
        scaled < 0x100_0000,
        step > 0 ==> scaled >= 0x80_0000,
        rank == step * 0x80_0000 + scaled,
    ensures
        packed_open(rank, significand, false, x),
{
    lemma_magnitude_of(step, scaled);
    lemma_pow2_adds(step as nat, (-shift) as nat);
    lemma2_to64();
    let a = pow2(step as nat) as int;
    let b = pow2((-shift) as nat) as int;
    lemma_pow2_pos(step as nat);
    lemma_pow2_pos((-shift) as nat);
    assert(up(x) == a * b) by {
        assert(step as nat + (-shift) as nat == x as nat);
    }
    assert(down(x) == 1);
    assert(scaled * a == significand * (a * b)) by (nonlinear_arith)
        requires
            scaled == significand * b,
    ;
    assert(scaled > 0) by (nonlinear_arith)
        requires
            scaled == significand * b,
            significand > 0,
            b > 0,
    ;
    lemma_magnitude_step(rank);
    lemma_magnitude_step(rank - 1);
    assert(2 * significand * up(x) == 2 * magnitude(rank)) by (nonlinear_arith)
        requires
            magnitude(rank) == significand * up(x),
    ;
}

proof fn lemma_pack_tiny(significand: int, step: int, shift: int, x: int)
    requires
        0 < significand < 0x4000_0000_0000_0000,
        step >= 0,
        shift == step - x,
        shift > 62,
        step > 0 ==> shift <= 38,
    ensures
        packed_open(0, significand, false, x),
        packed_open(0, significand, true, x),
{
    lemma2_to64();
    lemma2_to64_rest();
    lemma_pow2_strictly_increases(62, shift as nat);
    assert(up(x) == 1);
    assert(down(x) == pow2(shift as nat));
    if shift > 63 {
        lemma_pow2_strictly_increases(63, shift as nat);
    }
    assert(magnitude(0) == 0);
    assert(magnitude(1) == 1);
}

proof fn lemma_pack_whole(significand: int, len: int, step: int, shift: int, x: int)
    requires
        0 < significand,
        1 <= len <= 62,
        pow2((len - 1) as nat) <= significand < pow2(len as nat),
        step == (if x + len - 24 > 0 { x + len - 24 } else { 0 }),
        shift == step - x,
        0 < shift <= 62,
    ensures
        0 <= significand / pow2(shift as nat) as int,
        significand / (pow2(shift as nat) as int) < 0x100_0000,
        step > 0 ==> significand / (pow2(shift as nat) as int) >= 0x80_0000,
{
    let unit = pow2(shift as nat) as int;
    lemma_pow2_pos(shift as nat);
    lemma2_to64();
    lemma_pow2_adds(24, shift as nat);
    if len < 24 + shift {
        lemma_pow2_strictly_increases(len as nat, (24 + shift) as nat);
    }
    assert(significand < 0x100_0000 * unit) by {
        assert(24 + shift as nat == (24 + shift) as nat);
    }
    assert(significand / unit < 0x100_0000) by (nonlinear_arith)
        requires
            significand < 0x100_0000 * unit,
            unit > 0,
    ;
    assert(0 <= significand / unit) by (nonlinear_arith)
        requires
            significand > 0,
            unit > 0,
    ;
    if step > 0 {
        lemma_pow2_adds(23, shift as nat);
        assert(23 + shift as nat == (len - 1) as nat);
        assert(significand / unit >= 0x80_0000) by (nonlinear_arith)
            requires
                significand >= 0x80_0000 * unit,
                unit > 0,
        ;
    }
}

proof fn lemma_pack_inexact(
    rank: int,
    significand: int,
    more: bool,
    whole: int,
    rest: int,
    step: int,
    shift: int,
    x: int,
)
    requires
        step >= 0,
        shift == step - x,
        shift > 0,
        0 <= whole < 0x100_0000,
        step > 0 ==> whole >= 0x80_0000,
        0 <= rest < pow2(shift as nat),
        significand == whole * pow2(shift as nat) + rest,
        rank == step * 0x80_0000 + whole + (if rest > pow2(shift as nat) / 2 || (rest == pow2(shift as nat) / 2
            && (more || (step * 0x80_0000 + whole) % 2 == 1)) {
            1int
        } else {
            0int
        }),
    ensures
        packed_open(rank, significand, more, x),
{
    let floor = step * 0x80_0000 + whole;
    let unit = pow2(shift as nat) as int;
    let half = unit / 2;
    lemma_pow2_adds(1, (shift - 1) as nat);
    lemma2_to64();
    assert(1 + (shift - 1) as nat == shift as nat);
    assert(unit == 2 * half);
    lemma_scale(step, shift, x);
    lemma_magnitude_of(step, whole);
    lemma_magnitude_of(step, whole + 1);
    lemma_magnitude_step(floor);
    lemma_magnitude_step(floor + 1);
    let p = up(x);
    let q = down(x);
    let s = pow2(step as nat) as int;
    // Magnitudes at the scale of the significand.
    assert(magnitude(floor) * q == whole * unit * p) by (nonlinear_arith)
        requires
            magnitude(floor) == whole * s,
            s * q == unit * p,
    ;
    assert(magnitude(floor + 1) * q == (whole + 1) * unit * p) by (nonlinear_arith)
        requires
            magnitude(floor + 1) == (whole + 1) * s,
            s * q == unit * p,
    ;
    let between = (magnitude(floor) + magnitude(floor + 1)) * q;
    assert(between == 2 * (whole * unit + half) * p) by (nonlinear_arith)
        requires
            between == (magnitude(floor) + magnitude(floor + 1)) * q,
            magnitude(floor) * q == whole * unit * p,
            magnitude(floor + 1) * q == (whole + 1) * unit * p,
            unit == 2 * half,
    ;
    let low = 2 * significand * p;
    let high = 2 * (significand + 1) * p;
    if rank == floor {
        if rest < half {
            assert(high <= between) by (nonlinear_arith)
                requires
                    high == 2 * (significand + 1) * p,
                    between == 2 * (whole * unit + half) * p,
                    significand + 1 <= whole * unit + half,
                    p > 0,
            ;
            assert(low < high) by (nonlinear_arith)
                requires
                    low == 2 * significand * p,
                    high == 2 * (significand + 1) * p,
                    p > 0,
            ;
        } else {
            assert(rest == half);
            assert(low == between);
        }
        if floor > 0 {
            lemma_magnitude_step(floor - 1);
            let below = (magnitude(floor - 1) + magnitude(floor)) * q;
            assert(below < low) by (nonlinear_arith)
                requires
                    below == (magnitude(floor - 1) + magnitude(floor)) * q,
                    magnitude(floor - 1) < magnitude(floor),
                    magnitude(floor) * q == whole * unit * p,
                    low == 2 * significand * p,
                    significand >= whole * unit,
                    p > 0,
                    q > 0,
            ;
        }
    } else {
        let above = (magnitude(floor + 1) + magnitude(floor + 2)) * q;
        assert((whole + 1) * unit == whole * unit + unit) by (nonlinear_arith);
        assert(high < above) by (nonlinear_arith)
            requires
                above == (magnitude(floor + 1) + magnitude(floor + 2)) * q,
                magnitude(floor + 1) < magnitude(floor + 2),
                magnitude(floor + 1) * q == (whole + 1) * unit * p,
                high == 2 * (significand + 1) * p,
                significand + 1 <= (whole + 1) * unit,
                p > 0,
                q > 0,
        ;
        assert(low < high) by (nonlinear_arith)
            requires
                low == 2 * significand * p,
                high == 2 * (significand + 1) * p,
                p > 0,
        ;
        if rest > half {
            assert(between < low) by (nonlinear_arith)
                requires
                    low == 2 * significand * p,
                    between == 2 * (whole * unit + half) * p,
                    significand > whole * unit + half,
                    p > 0,
            ;
        } else {
            assert(low == between);
        }
    }
}

proof fn lemma_pack_clamp(rank: int, significand: int, more: bool, x: int)
    requires
        packed_open(rank, significand, more, x),
    ensures
        packed(if rank < INFINITE { rank } else { INFINITE as int }, significand, more, x),
{
    if rank > INFINITE {
        lemma_magnitude_increases(INFINITE - 1, rank - 1);
        lemma_magnitude_increases(INFINITE as int, rank);
        lemma_pow2_pos((if x < 0 { -x } else { 0 }) as nat);
        let q = down(x);
        let a = magnitude(INFINITE - 1) + magnitude(INFINITE as int);
        let b = magnitude(rank - 1) + magnitude(rank);
        assert(a * q <= b * q) by (nonlinear_arith)
            requires
                a <= b,
                q > 0,
        ;
    }
}

/// Two to the power of `e`.
fn power(e: u32) -> (r: u64)
    requires
        e < 63,
    ensures
        r == pow2(e as nat),
        r > 0,
{
    let mut r: u64 = 1;
    let mut i: u32 = 0;
    proof {
        lemma2_to64();
    }
    while i < e
        invariant
            i <= e < 63,
            r == pow2(i as nat),
        decreases e - i,
    {
        proof {
            lemma_pow2_strictly_increases(i as nat, 63);
            lemma2_to64_rest();
            lemma_pow2_adds(i as nat, 1);
            lemma2_to64();
        }
        r = r * 2;
        i = i + 1;
    }
    proof {
        lemma_pow2_pos(e as nat);
    }
    r
}

/// The number of binary digits of a positive number.
fn digits(n: u64) -> (len: u32)
    requires
        0 < n < 0x4000_0000_0000_0000,
    ensures
        1 <= len <= 62,
        pow2((len - 1) as nat) <= n < pow2(len as nat),
{
    let mut len: u32 = 1;
    let mut top: u64 = 1;
    proof {
        lemma2_to64();
        lemma2_to64_rest();
    }
    while len < 62 && n / 2 >= top
        invariant
            0 < n < 0x4000_0000_0000_0000,
            1 <= len <= 62,
            top == pow2((len - 1) as nat),
            top <= n,
        decreases 62 - len,
    {
        proof {
            lemma_pow2_adds((len - 1) as nat, 1);
            lemma2_to64();
            assert((len - 1) as nat + 1 == len as nat);
        }
        top = top * 2;
        len = len + 1;
    }
    proof {
        lemma_pow2_adds((len - 1) as nat, 1);
        lemma2_to64();
        lemma2_to64_rest();
        assert((len - 1) as nat + 1 == len as nat);
    }
    len
}

/// The rank nearest to a significand times two to the power of `x`, in units of
/// the smallest positive number. `more` says that the exact magnitude is not
/// that product but lies strictly between it and the next one.
fn pack(significand: u64, more: bool, x: i32) -> (rank: u32)
    requires
        0 < significand < 0x4000_0000_0000_0000,
        -1000 <= x <= 400,
        more ==> significand >= 0x400_0000,
    ensures
        packed(rank as int, significand as int, more, x as int),
{
    let len: u32 = digits(significand);
    let want: i32 = x + len as i32 - 24;
    let step: i32 = if want > 0 { want } else { 0 };
    let shift: i32 = step - x;
    let rank: u64;
    if shift <= 0 {
        // The significand fits: the result is exact.
        let factor: u64 = power((-shift) as u32);
        proof {
            lemma_pow2_adds(len as nat, (-shift) as nat);
            lemma_pow2_adds((len - 1) as nat, (-shift) as nat);
            lemma2_to64();
            assert(!more) by {
                if more {
                    lemma_len_at_least(significand as int, len as int);
                }
            }
            let total = len + (-shift);
            assert(total <= 24);
            if total < 24 {
                lemma_pow2_strictly_increases(total as nat, 24);
            }
            assert(significand * factor < pow2(len as nat) * factor) by (nonlinear_arith)
                requires
                    significand < pow2(len as nat),
                    factor > 0,
            ;
            assert(pow2((len - 1) as nat) * factor <= significand * factor) by (nonlinear_arith)
                requires
                    pow2((len - 1) as nat) <= significand,
                    factor > 0,
            ;
            assert(len as nat + (-shift) as nat == total as nat);
            assert((len - 1) as nat + (-shift) as nat == (total - 1) as nat);
        }
        let scaled: u64 = significand * factor;
        rank = step as u64 * 0x80_0000 + scaled;
        proof {
            lemma_pack_exact(rank as int, significand as int, scaled as int, step as int, shift as int, x as int);
        }
    } else if shift > 62 {
        rank = 0;
        proof {
            lemma_pack_tiny(significand as int, step as int, shift as int, x as int);
        }
    } else {
        let unit: u64 = power(shift as u32);
        let whole: u64 = significand / unit;
        let rest: u64 = significand % unit;
        proof {
            lemma_pow2_adds(1, (shift - 1) as nat);
            lemma2_to64();
            assert(1 + (shift - 1) as nat == shift as nat);
            lemma_pack_whole(significand as int, len as int, step as int, shift as int, x as int);
            assert(significand == whole * unit + rest) by {
                vstd::arithmetic::div_mod::lemma_fundamental_div_mod(significand as int, unit as int);
                assert(unit * whole == whole * unit) by (nonlinear_arith);
            }
        }
        let half: u64 = unit / 2;
        let floor: u64 = step as u64 * 0x80_0000 + whole;
        let raise: bool = rest > half || (rest == half && (more || floor % 2 == 1));
        rank = if raise { floor + 1 } else { floor };
        proof {
            lemma_pack_inexact(
                rank as int,
                significand as int,
                more,
                whole as int,
                rest as int,
                step as int,
                shift as int,
                x as int,
            );
        }
    }
    proof {
        lemma_pack_clamp(rank as int, significand as int, more, x as int);
    }
    if rank < INFINITE as u64 {
        rank as u32
    } else {
        INFINITE
    }
}

/// The bounds of an exact magnitude `n / d` decide its rounding.
proof fn lemma_packed_nearest(rank: int, significand: int, more: bool, x: int, n: int, d: int)
    requires
        packed(rank, significand, more, x),
        d > 0,
        !more ==> significand * up(x) * d == n * down(x),
        more ==> significand * up(x) * d < n * down(x) < (significand + 1) * up(x) * d,
    ensures
        nearest(rank, n, d),
        rounded(n, d) == rank,
{
    let p = up(x);
    let q = down(x);
    lemma_pow2_pos((if x < 0 { -x } else { 0 }) as nat);
    let low = 2 * significand * p;
    let high = 2 * (significand + 1) * p;
    assert(low * d == 2 * (significand * p * d)) by (nonlinear_arith)
        requires
            low == 2 * significand * p,
    ;
    assert(high * d == 2 * ((significand + 1) * p * d)) by (nonlinear_arith)
        requires
            high == 2 * (significand + 1) * p,
    ;
    if rank < INFINITE {
        let m = magnitude(rank) + magnitude(rank + 1);
        if more {
            assert(2 * n < m * d) by (nonlinear_arith)
                requires
                    high <= m * q,
                    2 * (n * q) < high * d,
                    d > 0,
                    q > 0,
            ;
        } else {
            assert(2 * n <= m * d && (2 * n == m * d ==> low == m * q)) by (nonlinear_arith)
                requires
                    low <= m * q,
                    2 * (n * q) == low * d,
                    d > 0,
                    q > 0,
            ;
        }
    }
    if rank > 0 {
        let m = magnitude(rank - 1) + magnitude(rank);
        if more {
            assert(m * d < 2 * n) by (nonlinear_arith)
                requires
                    m * q <= low,
                    low * d < 2 * (n * q),
                    d > 0,
                    q > 0,
            ;
        } else {
            assert(m * d <= 2 * n && (2 * n == m * d ==> low == m * q)) by (nonlinear_arith)
                requires
                    m * q <= low,
                    2 * (n * q) == low * d,
                    d > 0,
                    q > 0,
            ;
        }
    }
    lemma_rounded(rank, n, d);
}

/// The exponent step and the significand of a rank.
fn split(rank: u32) -> (parts: (u32, u32))
    requires
        rank < INFINITE,
    ensures
        parts.0 <= 253,
        parts.1 < 0x100_0000,
        parts.0 > 0 ==> parts.1 >= 0x80_0000,
        rank > 0 <==> parts.1 > 0,
        magnitude(rank as int) == parts.1 * pow2(parts.0 as nat),
{
    let exponent: u32 = rank / 0x80_0000;
    let fraction: u32 = rank % 0x80_0000;
    if exponent == 0 {
        proof {
            lemma_magnitude_of(0, fraction as int);
        }
        (0, fraction)
    } else {
        proof {
            lemma_magnitude_of(exponent - 1, fraction + 0x80_0000);
        }
        (exponent - 1, fraction + 0x80_0000)
    }
}

impl Scalar {
    /// The pattern without its sign bit.
    fn pattern(self) -> (rank: u32)
        ensures
            rank == self.rank(),
    {
        if self.bits >= SIGN {
            self.bits - SIGN
        } else {
            self.bits
        }
    }

    /// True when the sign bit is set.
    pub fn is_negative(self) -> (yes: bool)
        ensures
            yes == self.negative(),
    {
        self.bits >= SIGN
    }

    /// Not a number.
    pub fn is_nan(self) -> (yes: bool)
        ensures
            yes == self.nan(),
    {
        self.pattern() > INFINITE
    }

    /// Neither infinite nor "not a number".
    pub fn is_finite(self) -> (yes: bool)
        ensures
            yes == self.finite(),
    {
        self.pattern() < INFINITE
    }
}

/// The pattern with this sign and rank.
fn with_sign(negative: bool, rank: u32) -> (s: Scalar)
    requires
        rank <= INFINITE,
    ensures
        s == signed(negative, rank as int),
{
    if negative {
        Scalar { bits: rank + SIGN }
    } else {
        Scalar { bits: rank }
    }
}

// ---------------------------------------------------------------------------
// Multiplication
// ---------------------------------------------------------------------------

/// The product: the number nearest to the exact one, or "not a number" where
/// there is none.
#[verifier::opaque]
pub open spec fn product(a: Scalar, b: Scalar) -> Scalar {
    let negative = a.negative() != b.negative();
    if a.nan() || b.nan() || (a.infinite() && b.zero()) || (a.zero() && b.infinite()) {
        Scalar { bits: NOT_A_NUMBER }
    } else if a.infinite() || b.infinite() {
        signed(negative, INFINITE as int)
    } else {
        signed(negative, rounded(magnitude(a.rank()) * magnitude(b.rank()), pow2(149) as int))
    }
}

proof fn lemma_zero_rounds(d: int)
    requires
        d > 0,
    ensures
        rounded(0, d) == 0,
{
    assert(magnitude(0) == 0 && magnitude(1) == 1);
    assert((magnitude(0) + magnitude(1)) * d == d) by (nonlinear_arith)
        requires
            magnitude(0) == 0,
            magnitude(1) == 1,
    ;
    assert(nearest(0, 0, d));
    lemma_rounded(0, 0, d);
}

impl Scalar {
    /// The product of two numbers.
    pub fn times(self, other: Scalar) -> (r: Scalar)
        ensures
            r == product(self, other),
    {
        proof {
            reveal(product);
        }
        let a: u32 = self.pattern();
        let b: u32 = other.pattern();
        let negative: bool = self.is_negative() != other.is_negative();
        if a > INFINITE || b > INFINITE || (a == INFINITE && b == 0) || (a == 0 && b == INFINITE) {
            Scalar { bits: NOT_A_NUMBER }
        } else if a == INFINITE || b == INFINITE {
            with_sign(negative, INFINITE)
        } else if a == 0 || b == 0 {
            proof {
                lemma_pow2_pos(149);
                assert(magnitude(0) == 0);
                lemma_zero_rounds(pow2(149) as int);
                assert(magnitude(a as int) * magnitude(b as int) == 0) by (nonlinear_arith)
                    requires
                        magnitude(a as int) == 0 || magnitude(b as int) == 0,
                ;
            }
            with_sign(negative, 0)
        } else {
            let (step_a, sig_a) = split(a);
            let (step_b, sig_b) = split(b);
            proof {
                assert(0 < sig_a * sig_b < 0x4000_0000_0000_0000) by (nonlinear_arith)
                    requires
                        0 < sig_a < 0x100_0000,
                        0 < sig_b < 0x100_0000,
                ;
            }
            let significand: u64 = sig_a as u64 * sig_b as u64;
            let x: i32 = step_a as i32 + step_b as i32 - 149;
            let rank: u32 = pack(significand, false, x);
            proof {
                let n = magnitude(a as int) * magnitude(b as int);
                let d = pow2(149) as int;
                lemma_pow2_pos(149);
                lemma_scale(step_a + step_b, 149, x as int);
                lemma_pow2_adds(step_a as nat, step_b as nat);
                let ua = pow2(step_a as nat) as int;
                let ub = pow2(step_b as nat) as int;
                let p = up(x as int);
                let q = down(x as int);
                assert(step_a as nat + step_b as nat == (step_a + step_b) as nat);
                assert(significand * p * d == n * q) by (nonlinear_arith)
                    requires
                        significand == sig_a * sig_b,
                        n == (sig_a * ua) * (sig_b * ub),
                        (ua * ub) * q == d * p,
                ;
                lemma_packed_nearest(rank as int, significand as int, false, x as int, n, d);
            }
            with_sign(negative, rank)
        }
    }
}

// ---------------------------------------------------------------------------
// Division
// ---------------------------------------------------------------------------

/// The quotient: the number nearest to the exact one. Dividing by zero gives an
/// infinity, and zero by zero or infinity by infinity "not a number".
#[verifier::opaque]
pub open spec fn quotient(a: Scalar, b: Scalar) -> Scalar {
    let negative = a.negative() != b.negative();
    if a.nan() || b.nan() || (a.infinite() && b.infinite()) || (a.zero() && b.zero()) {
        Scalar { bits: NOT_A_NUMBER }
    } else if a.infinite() || b.zero() {
        signed(negative, INFINITE as int)
    } else if b.infinite() {
        signed(negative, 0)
    } else {
        signed(negative, rounded(magnitude(a.rank()) * pow2(149), magnitude(b.rank())))
    }
}

impl Scalar {
    /// The quotient of two numbers.
    pub fn over(self, other: Scalar) -> (r: Scalar)
        ensures
            r == quotient(self, other),
    {
        proof {
            reveal(quotient);
        }
        let a: u32 = self.pattern();
        let b: u32 = other.pattern();
        let negative: bool = self.is_negative() != other.is_negative();
        if a > INFINITE || b > INFINITE || (a == INFINITE && b == INFINITE) || (a == 0 && b == 0) {
            Scalar { bits: NOT_A_NUMBER }
        } else if a == INFINITE || b == 0 {
            with_sign(negative, INFINITE)
        } else if b == INFINITE {
            with_sign(negative, 0)
        } else if a == 0 {
            proof {
                lemma_magnitude_increases(0, b as int);
                lemma_zero_rounds(magnitude(b as int));
                assert(magnitude(0) == 0);
                assert(magnitude(a as int) * pow2(149) == 0) by (nonlinear_arith)
                    requires
                        magnitude(a as int) == 0,
                ;
            }
            with_sign(negative, 0)
        } else {
            let (step_a, sig_a) = split(a);
            let (step_b, sig_b) = split(b);
            let len: u32 = digits(sig_a as u64);
            proof {
                lemma2_to64();
                if len > 25 {
                    lemma_pow2_strictly_increases(24, (len - 1) as nat);
                }
            }
            let widen: u32 = 62 - len;
            let factor: u64 = power(widen);
            proof {
                lemma_pow2_adds(len as nat, widen as nat);
                lemma_pow2_adds((len - 1) as nat, widen as nat);
                lemma2_to64();
                lemma2_to64_rest();
                assert(len as nat + widen as nat == 62);
                assert((len - 1) as nat + widen as nat == 61);
                let top = pow2(len as nat);
                let bottom = pow2((len - 1) as nat);
                assert(sig_a * factor < top * factor) by (nonlinear_arith)
                    requires
                        sig_a < top,
                        factor > 0,
                ;
                assert(bottom * factor <= sig_a * factor) by (nonlinear_arith)
                    requires
                        bottom <= sig_a,
                        factor > 0,
                ;
            }
            let scaled: u64 = sig_a as u64 * factor;
            let significand: u64 = scaled / sig_b as u64;
            let rest: u64 = scaled % sig_b as u64;
            proof {
                vstd::arithmetic::div_mod::lemma_fundamental_div_mod(scaled as int, sig_b as int);
                assert(0x400_0000 <= significand <= scaled) by (nonlinear_arith)
                    requires
                        significand == scaled as int / sig_b as int,
                        scaled >= 0x2000_0000_0000_0000,
                        0 < sig_b < 0x100_0000,
                ;
            }
            let x: i32 = step_a as i32 - step_b as i32 - widen as i32 + 149;
            let rank: u32 = pack(significand, rest != 0, x);
            proof {
                let n = magnitude(a as int) * pow2(149);
                let d = magnitude(b as int);
                lemma_magnitude_increases(0, b as int);
                lemma_pow2_pos(step_b as nat);
                lemma_scale(step_a + 149, step_b + widen, x as int);
                lemma_pow2_adds(step_a as nat, 149);
                lemma_pow2_adds(step_b as nat, widen as nat);
                assert(step_a as nat + 149 == (step_a + 149) as nat);
                assert(step_b as nat + widen as nat == (step_b + widen) as nat);
                lemma_quotient_bounds(
                    significand as int,
                    rest as int,
                    scaled as int,
                    sig_a as int,
                    sig_b as int,
                    pow2(step_a as nat) as int,
                    pow2(step_b as nat) as int,
                    pow2(149) as int,
                    factor as int,
                    up(x as int),
                    down(x as int),
                );
                lemma_packed_nearest(rank as int, significand as int, rest != 0, x as int, n, d);
            }
            with_sign(negative, rank)
        }
    }
}

proof fn lemma_quotient_bounds(
    whole: int,
    rest: int,
    scaled: int,
    sig_a: int,
    sig_b: int,
    unit_a: int,
    unit_b: int,
    one: int,
    factor: int,
    p: int,
    q: int,
)
    requires
        scaled == sig_a * factor,
        scaled == sig_b * whole + rest,
        0 <= rest < sig_b,
        (unit_a * one) * q == (unit_b * factor) * p,
        p > 0,
        unit_b > 0,
    ensures
        rest == 0 ==> whole * p * (sig_b * unit_b) == sig_a * unit_a * one * q,
        rest != 0 ==> whole * p * (sig_b * unit_b) < sig_a * unit_a * one * q < (whole + 1) * p * (sig_b * unit_b),
{
    let unit = unit_b * p;
    assert(sig_a * unit_a * one * q == scaled * unit) by (nonlinear_arith)
        requires
            scaled == sig_a * factor,
            (unit_a * one) * q == (unit_b * factor) * p,
            unit == unit_b * p,
    ;
    assert(whole * p * (sig_b * unit_b) == (sig_b * whole) * unit) by (nonlinear_arith)
        requires
            unit == unit_b * p,
    ;
    assert((whole + 1) * p * (sig_b * unit_b) == (sig_b * whole + sig_b) * unit) by (nonlinear_arith)
        requires
            unit == unit_b * p,
    ;
    assert(unit > 0) by (nonlinear_arith)
        requires
            unit == unit_b * p,
            unit_b > 0,
            p > 0,
    ;
    let exact = sig_b * whole;
    if rest != 0 {
        assert(exact * unit < scaled * unit < (exact + sig_b) * unit) by (nonlinear_arith)
            requires
                scaled == exact + rest,
                0 < rest < sig_b,
                unit > 0,
        ;
    }
}

// ---------------------------------------------------------------------------
// Addition and subtraction
// ---------------------------------------------------------------------------

/// The number with the other sign.
pub open spec fn negated(a: Scalar) -> Scalar {
    Scalar { bits: (if a.negative() { a.bits - SIGN } else { a.bits + SIGN }) as u32 }
}

/// The sum: the number nearest to the exact one. Opposite infinities have none;
/// an exact zero is positive unless both operands are negative.
#[verifier::opaque]
pub open spec fn sum(a: Scalar, b: Scalar) -> Scalar {
    if a.nan() || b.nan() || (a.infinite() && b.infinite() && a.negative() != b.negative()) {
        Scalar { bits: NOT_A_NUMBER }
    } else if a.infinite() {
        a
    } else if b.infinite() {
        b
    } else {
        let exact = a.value() + b.value();
        if exact == 0 {
            signed(a.negative() && b.negative(), 0)
        } else if exact < 0 {
            signed(true, rounded(-exact, 1))
        } else {
            signed(false, rounded(exact, 1))
        }
    }
}

/// The difference, which is the sum with the second operand negated.
pub open spec fn difference(a: Scalar, b: Scalar) -> Scalar {
    sum(a, negated(b))
}

/// The rank nearest to the sum, or to the difference, of two finite magnitudes,
/// the first being the larger.
fn combine(a: u32, b: u32, subtract: bool) -> (rank: u32)
    requires
        b <= a < INFINITE,
        a > 0,
        subtract ==> b < a,
    ensures
        rank <= INFINITE,
        subtract ==> rank == rounded(magnitude(a as int) - magnitude(b as int), 1),
        !subtract ==> rank == rounded(magnitude(a as int) + magnitude(b as int), 1),
{
    let (step_a, sig_a) = split(a);
    let (step_b, sig_b) = split(b);
    proof {
        lemma_steps_ordered(a as int, b as int, step_a as int, sig_a as int, step_b as int, sig_b as int);
    }
    let gap: u32 = step_a - step_b;
    let big: u64 = sig_a as u64 * 0x1_0000_0000;
    let wide: u64 = sig_b as u64 * 0x1_0000_0000;
    let small: u64;
    let more: bool;
    if gap < 63 {
        let unit: u64 = power(gap);
        small = wide / unit;
        more = wide % unit != 0;
        proof {
            vstd::arithmetic::div_mod::lemma_fundamental_div_mod(wide as int, unit as int);
            assert(small <= wide) by (nonlinear_arith)
                requires
                    small == wide as int / unit as int,
                    unit > 0,
                    wide >= 0,
            ;
            assert(unit * small == small * unit) by (nonlinear_arith);
            assert((small + 1) * unit == small * unit + unit) by (nonlinear_arith);
        }
    } else {
        small = 0;
        more = sig_b != 0;
        proof {
            lemma2_to64_rest();
            if gap > 63 {
                lemma_pow2_strictly_increases(63, gap as nat);
            }
        }
    }
    let ghost unit = pow2(gap as nat) as int;
    assert(unit > 0) by {
        lemma_pow2_pos(gap as nat);
    }
    assert(small * unit <= wide < (small + 1) * unit);
    assert(more <==> wide != small * unit);
    proof {
        if more && gap <= 32 {
            lemma_pow2_adds(gap as nat, (32 - gap) as nat);
            lemma2_to64();
            assert(gap as nat + (32 - gap) as nat == 32);
            let other = pow2((32 - gap) as nat) as int;
            lemma_pow2_pos((32 - gap) as nat);
            assert(wide == (sig_b * other) * unit) by (nonlinear_arith)
                requires
                    wide == sig_b * 0x1_0000_0000,
                    0x1_0000_0000 == unit * other,
            ;
            assert(small == sig_b * other) by (nonlinear_arith)
                requires
                    wide == (sig_b * other) * unit,
                    small * unit <= wide < (small + 1) * unit,
                    unit > 0,
            ;
        }
        if more {
            assert(gap > 32);
            lemma2_to64();
            lemma_pow2_strictly_increases(32, gap as nat);
            assert(small < 0x100_0000) by (nonlinear_arith)
                requires
                    small * unit <= wide,
                    wide < 0x100_0000_0000_0000,
                    unit > 0x1_0000_0000,
            ;
        }
    }
    let x: i32 = step_a as i32 - 32;
    proof {
        lemma_combined(
            magnitude(a as int),
            magnitude(b as int),
            sig_a as int,
            sig_b as int,
            step_a as int,
            step_b as int,
            small as int,
            more,
            x as int,
        );
    }
    if !subtract {
        let significand: u64 = big + small;
        let rank: u32 = pack(significand, more, x);
        proof {
            lemma_packed_nearest(
                rank as int,
                significand as int,
                more,
                x as int,
                magnitude(a as int) + magnitude(b as int),
                1,
            );
        }
        rank
    } else {
        proof {
            lemma_magnitude_increases(b as int, a as int);
        }
        let significand: u64 = if more { big - small - 1 } else { big - small };
        let rank: u32 = pack(significand, more, x);
        proof {
            lemma_packed_nearest(
                rank as int,
                significand as int,
                more,
                x as int,
                magnitude(a as int) - magnitude(b as int),
                1,
            );
        }
        rank
    }
}

proof fn lemma_steps_ordered(a: int, b: int, step_a: int, sig_a: int, step_b: int, sig_b: int)
    requires
        0 <= b <= a,
        step_a >= 0,
        step_b >= 0,
        0 <= sig_a < 0x100_0000,
        0 <= sig_b < 0x100_0000,
        step_a > 0 ==> sig_a >= 0x80_0000,
        step_b > 0 ==> sig_b >= 0x80_0000,
        magnitude(a) == sig_a * pow2(step_a as nat),
        magnitude(b) == sig_b * pow2(step_b as nat),
    ensures
        step_b <= step_a,
{
    if b < a {
        lemma_magnitude_increases(b, a);
    }
    if step_b > step_a {
        let gap = step_b - step_a;
        let low = pow2(step_a as nat) as int;
        let rise = pow2(gap as nat) as int;
        lemma_pow2_adds(step_a as nat, gap as nat);
        assert(step_a as nat + gap as nat == step_b as nat);
        lemma_pow2_pos(step_a as nat);
        lemma2_to64();
        if gap > 1 {
            lemma_pow2_strictly_increases(1, gap as nat);
        }
        assert(sig_b * (low * rise) > sig_a * low) by (nonlinear_arith)
            requires
                sig_b >= 0x80_0000,
                sig_a < 0x100_0000,
                low > 0,
                rise >= 2,
        ;
    }
}

proof fn lemma_combined(
    mag_a: int,
    mag_b: int,
    sig_a: int,
    sig_b: int,
    step_a: int,
    step_b: int,
    small: int,
    more: bool,
    x: int,
)
    requires
        0 <= step_b <= step_a,
        x == step_a - 32,
        mag_a == sig_a * pow2(step_a as nat),
        mag_b == sig_b * pow2(step_b as nat),
        small * pow2((step_a - step_b) as nat) <= sig_b * 0x1_0000_0000,
        sig_b * 0x1_0000_0000 < (small + 1) * pow2((step_a - step_b) as nat),
        more <==> sig_b * 0x1_0000_0000 != small * pow2((step_a - step_b) as nat),
    ensures
        mag_a * down(x) == sig_a * 0x1_0000_0000 * up(x),
        !more ==> mag_b * down(x) == small * up(x),
        more ==> small * up(x) < mag_b * down(x) < (small + 1) * up(x),
        up(x) > 0,
        down(x) > 0,
        // The shapes in which the two callers need them.
        !more ==> (sig_a * 0x1_0000_0000 + small) * up(x) * 1 == (mag_a + mag_b) * down(x),
        !more ==> (sig_a * 0x1_0000_0000 - small) * up(x) * 1 == (mag_a - mag_b) * down(x),
        more ==> (sig_a * 0x1_0000_0000 + small) * up(x) * 1 < (mag_a + mag_b) * down(x) < (sig_a * 0x1_0000_0000
            + small + 1) * up(x) * 1,
        more ==> (sig_a * 0x1_0000_0000 - small - 1) * up(x) * 1 < (mag_a - mag_b) * down(x) < (sig_a
            * 0x1_0000_0000 - small - 1 + 1) * up(x) * 1,
        mag_a > mag_b && !more ==> sig_a * 0x1_0000_0000 > small,
{
    let gap = step_a - step_b;
    let unit = pow2(gap as nat) as int;
    let ua = pow2(step_a as nat) as int;
    let ub = pow2(step_b as nat) as int;
    let p = up(x);
    let q = down(x);
    lemma_scale(step_a, 32, x);
    lemma2_to64();
    lemma_pow2_adds(step_b as nat, gap as nat);
    assert(step_b as nat + gap as nat == step_a as nat);
    lemma_pow2_pos(gap as nat);
    let big = sig_a * 0x1_0000_0000;
    assert(mag_a * q == big * p) by (nonlinear_arith)
        requires
            mag_a == sig_a * ua,
            ua * q == 0x1_0000_0000 * p,
            big == sig_a * 0x1_0000_0000,
    ;
    let wide = sig_b * 0x1_0000_0000;
    assert((mag_b * q) * unit == wide * p) by (nonlinear_arith)
        requires
            mag_b == sig_b * ub,
            ua == ub * unit,
            ua * q == 0x1_0000_0000 * p,
            wide == sig_b * 0x1_0000_0000,
    ;
    let target = mag_b * q;
    if more {
        assert(small * p < target < (small + 1) * p) by (nonlinear_arith)
            requires
                target * unit == wide * p,
                small * unit < wide,
                wide < (small + 1) * unit,
                unit > 0,
                p > 0,
        ;
    } else {
        assert(target == small * p) by (nonlinear_arith)
            requires
                target * unit == wide * p,
                small * unit == wide,
                unit > 0,
        ;
    }
    assert((mag_a + mag_b) * q == big * p + target) by (nonlinear_arith)
        requires
            mag_a * q == big * p,
            target == mag_b * q,
    ;
    assert((mag_a - mag_b) * q == big * p - target) by (nonlinear_arith)
        requires
            mag_a * q == big * p,
            target == mag_b * q,
    ;
    assert((big + small) * p * 1 == big * p + small * p) by (nonlinear_arith);
    assert((big + small + 1) * p * 1 == big * p + (small + 1) * p) by (nonlinear_arith);
    assert((big - small) * p * 1 == big * p - small * p) by (nonlinear_arith);
    assert((big - small - 1 + 1) * p * 1 == big * p - small * p) by (nonlinear_arith);
    assert((big - small - 1) * p * 1 == big * p - (small + 1) * p) by (nonlinear_arith);
    if mag_a > mag_b && !more {
        assert(big > small) by (nonlinear_arith)
            requires
                mag_a * q == big * p,
                mag_b * q == small * p,
                mag_a > mag_b,
                q > 0,
                p > 0,
        ;
    }
}

impl Scalar {
    /// The number with the other sign.
    pub fn negate(self) -> (r: Scalar)
        ensures
            r == negated(self),
    {
        if self.bits >= SIGN {
            Scalar { bits: self.bits - SIGN }
        } else {
            Scalar { bits: self.bits + SIGN }
        }
    }

    /// The sum of two numbers.
    pub fn plus(self, other: Scalar) -> (r: Scalar)
        ensures
            r == sum(self, other),
    {
        proof {
            reveal(sum);
        }
        let a: u32 = self.pattern();
        let b: u32 = other.pattern();
        let na: bool = self.is_negative();
        let nb: bool = other.is_negative();
        if a > INFINITE || b > INFINITE || (a == INFINITE && b == INFINITE && na != nb) {
            Scalar { bits: NOT_A_NUMBER }
        } else if a == INFINITE {
            self
        } else if b == INFINITE {
            other
        } else {
            proof {
                assert(magnitude(0) == 0);
                if a < b {
                    lemma_magnitude_increases(a as int, b as int);
                } else if b < a {
                    lemma_magnitude_increases(b as int, a as int);
                }
                if a > 0 {
                    lemma_magnitude_increases(0, a as int);
                }
                if b > 0 {
                    lemma_magnitude_increases(0, b as int);
                }
            }
            if a == b && na != nb {
                with_sign(false, 0)
            } else if a == 0 && b == 0 {
                with_sign(na && nb, 0)
            } else if a >= b {
                with_sign(na, combine(a, b, na != nb))
            } else {
                with_sign(nb, combine(b, a, na != nb))
            }
        }
    }

    /// The difference of two numbers.
    pub fn minus(self, other: Scalar) -> (r: Scalar)
        ensures
            r == difference(self, other),
    {
        self.plus(other.negate())
    }
}

// ---------------------------------------------------------------------------
// Square root
// ---------------------------------------------------------------------------

/// `rank` is the correct rounding of the square root of `square`: like
/// [`nearest`], with the midpoints compared by their squares.
pub open spec fn nearest_root(rank: int, square: int) -> bool {
    let above = magnitude(rank) + magnitude(rank + 1);
    let below = magnitude(rank - 1) + magnitude(rank);
    &&& 0 <= rank <= INFINITE
    &&& rank < INFINITE ==> 4 * square <= above * above
    &&& rank < INFINITE && 4 * square == above * above ==> rank % 2 == 0
    &&& rank > 0 ==> below * below <= 4 * square
    &&& rank > 0 && below * below == 4 * square ==> rank % 2 == 0
}

/// The rank of the number nearest to the square root of `square`.
pub open spec fn root_rounded(square: int) -> int {
    choose|rank: int| nearest_root(rank, square)
}

/// The square root. Negative numbers have none; a zero is its own.
#[verifier::opaque]
pub open spec fn square_root(a: Scalar) -> Scalar {
    if a.nan() || (a.negative() && !a.zero()) {
        Scalar { bits: NOT_A_NUMBER }
    } else if a.zero() || a.infinite() {
        a
    } else {
        signed(false, root_rounded(magnitude(a.rank()) * pow2(149)))
    }
}

proof fn lemma_root_ordered(a: int, b: int, square: int)
    requires
        nearest_root(a, square),
        nearest_root(b, square),
    ensures
        a >= b,
{
    let above_a = magnitude(a) + magnitude(a + 1);
    let below_b = magnitude(b - 1) + magnitude(b);
    if a + 1 == b {
        assert(above_a == below_b);
    } else if a + 1 < b {
        lemma_magnitude_increases(a, b - 1);
        lemma_magnitude_increases(a + 1, b);
        assert(above_a * above_a < below_b * below_b) by (nonlinear_arith)
            requires
                0 <= above_a < below_b,
        ;
    }
}

/// A square has at most one correctly rounded root.
pub proof fn lemma_root_unique(a: int, b: int, square: int)
    requires
        nearest_root(a, square),
        nearest_root(b, square),
    ensures
        a == b,
{
    lemma_root_ordered(a, b, square);
    lemma_root_ordered(b, a, square);
}

/// The largest number whose square does not exceed `v`.
fn whole_root(v: u64) -> (r: u64)
    requires
        0x1000_0000_0000_0000 <= v < 0x4000_0000_0000_0000,
    ensures
        r * r <= v < (r + 1) * (r + 1),
        0x4000_0000 <= r < 0x8000_0000,
{
    let mut r: u64 = 0;
    let mut bit: u64 = 0x4000_0000;
    let mut left: u32 = 31;
    proof {
        lemma2_to64();
    }
    while left > 0
        invariant
            v < 0x4000_0000_0000_0000,
            left <= 31,
            left > 0 ==> bit == pow2((left - 1) as nat),
            r + pow2(left as nat) <= 0x8000_0000,
            r * r <= v,
            v < (r + pow2(left as nat)) * (r + pow2(left as nat)),
        decreases left,
    {
        proof {
            lemma_pow2_adds((left - 1) as nat, 1);
            lemma2_to64();
            assert((left - 1) as nat + 1 == left as nat);
            lemma_pow2_pos((left - 1) as nat);
        }
        let next: u64 = r + bit;
        proof {
            assert(next * next < 0x4000_0000_0000_0000) by (nonlinear_arith)
                requires
                    0 <= next < 0x8000_0000,
            ;
            if left > 1 {
                lemma_pow2_adds((left - 2) as nat, 1);
                assert((left - 2) as nat + 1 == (left - 1) as nat);
            }
        }
        if next * next <= v {
            r = next;
        }
        left = left - 1;
        bit = bit / 2;
    }
    proof {
        assert(r >= 0x4000_0000) by (nonlinear_arith)
            requires
                v < (r + 1) * (r + 1),
                v >= 0x1000_0000_0000_0000,
                r >= 0,
        ;
    }
    r
}

proof fn lemma_packed_root(rank: int, significand: int, more: bool, x: int, square: int)
    requires
        packed(rank, significand, more, x),
        significand >= 0,
        !more ==> (significand * up(x)) * (significand * up(x)) == square * (down(x) * down(x)),
        more ==> (significand * up(x)) * (significand * up(x)) < square * (down(x) * down(x)),
        more ==> square * (down(x) * down(x)) < ((significand + 1) * up(x)) * ((significand + 1) * up(x)),
    ensures
        nearest_root(rank, square),
        root_rounded(square) == rank,
{
    let p = up(x);
    let q = down(x);
    lemma_pow2_pos((if x < 0 { -x } else { 0 }) as nat);
    lemma_pow2_pos((if x > 0 { x } else { 0 }) as nat);
    let lo = significand * p;
    let hi = (significand + 1) * p;
    assert(2 * significand * p == 2 * lo) by (nonlinear_arith)
        requires
            lo == significand * p,
    ;
    assert(2 * (significand + 1) * p == 2 * hi) by (nonlinear_arith)
        requires
            hi == (significand + 1) * p,
    ;
    assert(0 <= lo < hi) by (nonlinear_arith)
        requires
            lo == significand * p,
            hi == (significand + 1) * p,
            p > 0,
            significand >= 0,
    ;
    if rank < INFINITE {
        let m = magnitude(rank) + magnitude(rank + 1);
        lemma_magnitude_step(rank);
        lemma_magnitude_step(rank + 1);
        if more {
            assert(4 * square < m * m) by (nonlinear_arith)
                requires
                    2 * hi <= m * q,
                    0 <= hi,
                    square * (q * q) < hi * hi,
                    q > 0,
            {
                assert((2 * hi) * (2 * hi) <= (m * q) * (m * q));
                assert((m * q) * (m * q) == (m * m) * (q * q));
                assert(4 * square * (q * q) < (m * m) * (q * q));
                assert(q * q > 0);
            }
        } else {
            assert(4 * square <= m * m && (4 * square == m * m ==> 2 * lo == m * q)) by {
                lemma_root_middle(lo, m, q, square);
            }
        }
    }
    if rank > 0 {
        let m = magnitude(rank - 1) + magnitude(rank);
        lemma_magnitude_step(rank - 1);
        if more {
            assert(m * m < 4 * square) by (nonlinear_arith)
                requires
                    m * q <= 2 * lo,
                    0 <= m,
                    lo * lo < square * (q * q),
                    q > 0,
            {
                assert(0 <= m * q);
                assert((m * q) * (m * q) <= (2 * lo) * (2 * lo));
                assert((m * q) * (m * q) == (m * m) * (q * q));
                assert((m * m) * (q * q) < 4 * square * (q * q));
                assert(q * q > 0);
            }
        } else {
            lemma_root_middle(lo, m, q, square);
        }
    }
    assert(nearest_root(rank, square));
    lemma_root_unique(rank, root_rounded(square), square);
}

proof fn lemma_root_middle(lo: int, m: int, q: int, square: int)
    requires
        lo >= 0,
        m >= 0,
        q > 0,
        lo * lo == square * (q * q),
    ensures
        2 * lo <= m * q ==> 4 * square <= m * m,
        m * q <= 2 * lo ==> m * m <= 4 * square,
        4 * square == m * m ==> 2 * lo == m * q,
{
    let big = m * q;
    let unit = q * q;
    assert(unit > 0 && big >= 0 && big * big == (m * m) * unit) by (nonlinear_arith)
        requires
            unit == q * q,
            q > 0,
            big == m * q,
            m >= 0,
    ;
    if 2 * lo <= big {
        assert((2 * lo) * (2 * lo) <= big * big) by (nonlinear_arith)
            requires
                0 <= 2 * lo <= big,
        ;
        assert(4 * square <= m * m) by (nonlinear_arith)
            requires
                (2 * lo) * (2 * lo) <= (m * m) * unit,
                lo * lo == square * unit,
                unit > 0,
        ;
    }
    if big <= 2 * lo {
        assert((2 * lo) * (2 * lo) >= big * big) by (nonlinear_arith)
            requires
                0 <= big <= 2 * lo,
        ;
        assert(4 * square >= m * m) by (nonlinear_arith)
            requires
                (2 * lo) * (2 * lo) >= (m * m) * unit,
                lo * lo == square * unit,
                unit > 0,
        ;
    }
    if 4 * square == m * m {
        assert((2 * lo) * (2 * lo) == big * big) by (nonlinear_arith)
            requires
                lo * lo == square * unit,
                big * big == (m * m) * unit,
                4 * square == m * m,
        ;
        assert(2 * lo == big) by (nonlinear_arith)
            requires
                (2 * lo) * (2 * lo) == big * big,
                lo >= 0,
                big >= 0,
        ;
    }
}

proof fn lemma_double_scale(x: int)
    ensures
        up(2 * x) == up(x) * up(x),
        down(2 * x) == down(x) * down(x),
{
    lemma2_to64();
    let one = pow2(0) as int;
    assert(one * one == one) by (nonlinear_arith)
        requires
            one == 1,
    ;
    if x >= 0 {
        lemma_pow2_adds(x as nat, x as nat);
        assert(x as nat + x as nat == (2 * x) as nat);
    } else {
        lemma_pow2_adds((-x) as nat, (-x) as nat);
        assert((-x) as nat + (-x) as nat == (-(2 * x)) as nat);
    }
}

impl Scalar {
    /// The square root of a number.
    pub fn sqrt(self) -> (r: Scalar)
        ensures
            r == square_root(self),
    {
        proof {
            reveal(square_root);
        }
        let a: u32 = self.pattern();
        if a > INFINITE || (self.is_negative() && a != 0) {
            Scalar { bits: NOT_A_NUMBER }
        } else if a == 0 || a == INFINITE {
            self
        } else {
            let (step, sig) = split(a);
            let len: u32 = digits(sig as u64);
            proof {
                lemma2_to64();
                if len > 25 {
                    lemma_pow2_strictly_increases(24, (len - 1) as nat);
                }
            }
            // Widen by an amount that leaves an even exponent.
            let widen: u32 = if (step + 149 + 62 - len) % 2 == 0 { 62 - len } else { 61 - len };
            let factor: u64 = power(widen);
            proof {
                lemma2_to64_rest();
                let top = pow2(len as nat) as int;
                let bottom = pow2((len - 1) as nat) as int;
                lemma_pow2_adds(len as nat, widen as nat);
                lemma_pow2_adds((len - 1) as nat, widen as nat);
                assert(sig * factor < top * factor) by (nonlinear_arith)
                    requires
                        sig < top,
                        factor > 0,
                ;
                assert(bottom * factor <= sig * factor) by (nonlinear_arith)
                    requires
                        bottom <= sig,
                        factor > 0,
                ;
                if widen == 62 - len {
                    assert(len as nat + widen as nat == 62);
                    assert((len - 1) as nat + widen as nat == 61);
                } else {
                    assert(len as nat + widen as nat == 61);
                    assert((len - 1) as nat + widen as nat == 60);
                }
            }
            let scaled: u64 = sig as u64 * factor;
            let significand: u64 = whole_root(scaled);
            proof {
                assert(significand * significand < 0x4000_0000_0000_0000) by (nonlinear_arith)
                    requires
                        significand < 0x8000_0000,
                        significand >= 0,
                ;
            }
            let more: bool = significand * significand != scaled;
            let x: i32 = (step as i32 + 149 - widen as i32) / 2;
            let rank: u32 = pack(significand, more, x);
            proof {
                assert((step + 149 - widen) % 2 == 0);
                assert(2 * x == step + 149 - widen);
                let square = magnitude(a as int) * pow2(149);
                let p = up(x as int);
                let q = down(x as int);
                lemma_double_scale(x as int);
                lemma_pow2_pos((if x > 0 { x as int } else { 0 }) as nat);
                lemma_scale(step + 149, widen as int, 2 * x);
                lemma_pow2_adds(step as nat, 149);
                assert(step as nat + 149 == (step + 149) as nat);
                let unit = pow2(step as nat) as int;
                let one = pow2(149) as int;
                let pp = p * p;
                let qq = q * q;
                assert(square * qq == scaled * pp) by (nonlinear_arith)
                    requires
                        square == (sig * unit) * one,
                        (unit * one) * qq == factor * pp,
                        scaled == sig * factor,
                ;
                assert(pp > 0) by (nonlinear_arith)
                    requires
                        pp == p * p,
                        p > 0,
                {
                }
                assert((significand * p) * (significand * p) == (significand * significand) * pp) by (nonlinear_arith)
                    requires
                        pp == p * p,
                ;
                assert(((significand + 1) * p) * ((significand + 1) * p) == ((significand + 1) * (significand + 1)) * pp)
                    by (nonlinear_arith)
                    requires
                        pp == p * p,
                ;
                let under = significand * significand;
                let over = (significand + 1) * (significand + 1);
                assert(scaled * pp < over * pp) by (nonlinear_arith)
                    requires
                        scaled < over,
                        pp > 0,
                ;
                if more {
                    assert(under * pp < scaled * pp) by (nonlinear_arith)
                        requires
                            under < scaled,
                            pp > 0,
                    ;
                }
                lemma_packed_root(rank as int, significand as int, more, x as int, square);
            }
            with_sign(false, rank)
        }
    }
}

// ---------------------------------------------------------------------------
// Whole numbers
// ---------------------------------------------------------------------------

/// The magnitude of one, in units of the smallest positive number.
pub open spec fn unit() -> int {
    pow2(149) as int
}

/// The number nearest to a whole one.
#[verifier::opaque]
pub open spec fn from_whole(n: int) -> Scalar {
    if n < 0 {
        signed(true, rounded(-n * unit(), 1))
    } else {
        signed(false, rounded(n * unit(), 1))
    }
}

/// The whole part of a number, towards zero, held within `0..=u32::MAX`. "Not a
/// number" counts as zero.
#[verifier::opaque]
pub open spec fn whole_part(a: Scalar) -> int {
    if a.nan() || a.negative() {
        0
    } else if a.infinite() || magnitude(a.rank()) / unit() > u32::MAX {
        u32::MAX as int
    } else {
        magnitude(a.rank()) / unit()
    }
}

/// A whole part fits in 32 bits.
pub proof fn lemma_whole_part(a: Scalar)
    ensures
        0 <= whole_part(a) <= u32::MAX,
{
    reveal(whole_part);
    if !a.nan() && !a.negative() && !a.infinite() {
        if a.rank() > 0 {
            lemma_magnitude_increases(0, a.rank());
        }
        assert(magnitude(0) == 0);
        lemma_pow2_pos(149);
        vstd::arithmetic::div_mod::lemma_div_pos_is_pos(magnitude(a.rank()), unit());
    }
}

/// The whole number nearest to a magnitude, halves going up.
pub open spec fn half_up(mag: int) -> int {
    (2 * mag + unit()) / (2 * unit())
}

/// The whole number nearest to a number, halves going away from zero, held
/// within the range of `i32`. "Not a number" counts as zero.
#[verifier::opaque]
pub open spec fn nearest_whole(a: Scalar) -> int {
    if a.nan() {
        0
    } else if a.negative() {
        if a.infinite() || half_up(magnitude(a.rank())) > 0x8000_0000 {
            i32::MIN as int
        } else {
            -half_up(magnitude(a.rank()))
        }
    } else {
        if a.infinite() || half_up(magnitude(a.rank())) > i32::MAX {
            i32::MAX as int
        } else {
            half_up(magnitude(a.rank()))
        }
    }
}

/// The rank nearest to a whole magnitude.
fn whole_rank(n: u32) -> (rank: u32)
    ensures
        rank == rounded(n * unit(), 1),
        rank <= INFINITE,
{
    if n == 0 {
        proof {
            lemma_zero_rounds(1);
            assert(n * unit() == 0) by (nonlinear_arith)
                requires
                    n == 0,
            ;
        }
        0
    } else {
        let rank: u32 = pack(n as u64, false, 149);
        proof {
            lemma2_to64();
            let one = unit();
            assert(n * one * 1 == (n * one) * 1) by (nonlinear_arith);
            lemma_packed_nearest(rank as int, n as int, false, 149, n * unit(), 1);
        }
        rank
    }
}

/// A whole number of units, or everything past `u32::MAX`, from the parts of a
/// magnitude of at least one.
fn whole_units(step: u32, sig: u32) -> (w: u64)
    requires
        149 <= step <= 253,
        0x80_0000 <= sig < 0x100_0000,
    ensures
        w <= 0x1_0000_0000,
        sig * pow2(step as nat) == sig * pow2((step - 149) as nat) * unit(),
        w < 0x1_0000_0000 ==> w == sig * pow2((step - 149) as nat),
        w == 0x1_0000_0000 ==> sig * pow2((step - 149) as nat) >= 0x1_0000_0000,
{
    let k: u32 = step - 149;
    proof {
        lemma_pow2_adds(k as nat, 149);
        assert(k as nat + 149 == step as nat);
        let low = pow2(k as nat) as int;
        let one = unit();
        assert(sig * (low * one) == sig * low * one) by (nonlinear_arith);
        lemma2_to64();
        if k > 9 {
            lemma_pow2_strictly_increases(9, k as nat);
        } else if k < 9 {
            lemma_pow2_strictly_increases(k as nat, 9);
        }
        if k >= 9 {
            assert(sig * low >= 0x1_0000_0000) by (nonlinear_arith)
                requires
                    sig >= 0x80_0000,
                    low >= 0x200,
            ;
        } else {
            assert(sig * low < 0x1_0000_0000) by (nonlinear_arith)
                requires
                    sig < 0x100_0000,
                    0 <= low <= 0x100,
            ;
        }
    }
    if k >= 9 {
        0x1_0000_0000
    } else {
        let factor: u64 = power(k);
        proof {
            lemma2_to64();
            if k < 8 {
                lemma_pow2_strictly_increases(k as nat, 8);
            }
        }
        sig as u64 * factor
    }
}

proof fn lemma_units_divide(n: int, one: int)
    requires
        n >= 0,
        one > 0,
    ensures
        (n * one) / one == n,
        (2 * (n * one) + one) / (2 * one) == n,
{
    vstd::arithmetic::div_mod::lemma_div_by_multiple(n, one);
    let d = 2 * one;
    assert(2 * (n * one) + one == n * d + one) by (nonlinear_arith)
        requires
            d == 2 * one,
    ;
    vstd::arithmetic::div_mod::lemma_fundamental_div_mod_converse(2 * (n * one) + one, d, n, one);
}

/// Dividing both sides by the same power leaves the quotients.
proof fn lemma_units_shrink(sig: int, step: int, k: int)
    requires
        sig >= 0,
        step >= 0,
        k >= 0,
        step + k == 149,
    ensures
        (sig * pow2(step as nat)) / unit() == sig / (pow2(k as nat) as int),
        half_up(sig * pow2(step as nat)) == (2 * sig + pow2(k as nat)) / (2 * pow2(k as nat) as int),
{
    let low = pow2(step as nat) as int;
    let high = pow2(k as nat) as int;
    lemma_pow2_pos(step as nat);
    lemma_pow2_pos(k as nat);
    lemma_pow2_adds(step as nat, k as nat);
    assert(step as nat + k as nat == 149);
    assert(sig * low == low * sig && low * high == high * low) by (nonlinear_arith);
    vstd::arithmetic::div_mod::lemma_div_multiples_vanish_quotient(low, sig, high);
    let top = 2 * sig + high;
    let bottom = 2 * high;
    assert(2 * (sig * low) + low * high == low * top) by (nonlinear_arith)
        requires
            top == 2 * sig + high,
    ;
    assert(2 * (low * high) == low * bottom) by (nonlinear_arith)
        requires
            bottom == 2 * high,
    ;
    vstd::arithmetic::div_mod::lemma_div_multiples_vanish_quotient(low, top, bottom);
}

impl Scalar {
    /// The number nearest to a whole one.
    pub fn from_u32(n: u32) -> (r: Scalar)
        ensures
            r == from_whole(n as int),
    {
        proof {
            reveal(from_whole);
        }
        with_sign(false, whole_rank(n))
    }

    /// The number nearest to a whole one.
    pub fn from_i32(n: i32) -> (r: Scalar)
        ensures
            r == from_whole(n as int),
    {
        proof {
            reveal(from_whole);
        }
        if n < 0 {
            let size: u32 = (-(n as i64)) as u32;
            with_sign(true, whole_rank(size))
        } else {
            with_sign(false, whole_rank(n as u32))
        }
    }

    /// The whole part, towards zero and saturating.
    pub fn to_u32(self) -> (w: u32)
        ensures
            w == whole_part(self),
    {
        proof {
            reveal(whole_part);
            lemma_pow2_pos(149);
        }
        let a: u32 = self.pattern();
        if a > INFINITE || self.is_negative() {
            0
        } else if a == INFINITE {
            u32::MAX
        } else {
            let (step, sig) = split(a);
            if step >= 149 {
                let w: u64 = whole_units(step, sig);
                proof {
                    lemma_units_divide(sig * pow2((step - 149) as nat), unit());
                }
                if w < 0x1_0000_0000 {
                    w as u32
                } else {
                    u32::MAX
                }
            } else {
                let k: u32 = 149 - step;
                proof {
                    lemma_units_shrink(sig as int, step as int, k as int);
                    lemma_pow2_pos(k as nat);
                }
                if k < 63 {
                    let d: u64 = power(k);
                    let w: u64 = sig as u64 / d;
                    proof {
                        assert(w <= sig) by (nonlinear_arith)
                            requires
                                w == sig as int / d as int,
                                d > 0,
                                sig >= 0,
                        ;
                    }
                    w as u32
                } else {
                    proof {
                        lemma2_to64();
                        lemma_pow2_strictly_increases(24, k as nat);
                        vstd::arithmetic::div_mod::lemma_basic_div(sig as int, pow2(k as nat) as int);
                    }
                    0
                }
            }
        }
    }

    /// The nearest whole number, halves going away from zero, saturating.
    pub fn round_to_i32(self) -> (w: i32)
        ensures
            w == nearest_whole(self),
    {
        proof {
            reveal(nearest_whole);
            lemma_pow2_pos(149);
        }
        let a: u32 = self.pattern();
        if a > INFINITE {
            0
        } else {
            let size: u64 = if a == INFINITE {
                0x1_0000_0000
            } else {
                half_up_units(a)
            };
            if self.is_negative() {
                if size > 0x8000_0000 {
                    i32::MIN
                } else {
                    (-(size as i64)) as i32
                }
            } else if size > 0x7FFF_FFFF {
                i32::MAX
            } else {
                size as i32
            }
        }
    }
}

/// The whole number nearest to a finite magnitude, or everything past `u32::MAX`.
fn half_up_units(a: u32) -> (w: u64)
    requires
        a < INFINITE,
    ensures
        w <= 0x1_0000_0000,
        w < 0x1_0000_0000 ==> w == half_up(magnitude(a as int)),
        w == 0x1_0000_0000 ==> half_up(magnitude(a as int)) >= 0x1_0000_0000,
{
    proof {
        lemma_pow2_pos(149);
    }
    let (step, sig) = split(a);
    if step >= 149 {
        proof {
            lemma_units_divide(sig * pow2((step - 149) as nat), unit());
        }
        whole_units(step, sig)
    } else {
        let k: u32 = 149 - step;
        proof {
            lemma_units_shrink(sig as int, step as int, k as int);
            lemma_pow2_pos(k as nat);
            lemma2_to64();
        }
        if k < 60 {
            let d: u64 = power(k);
            proof {
                lemma_pow2_strictly_increases(k as nat, 60);
                lemma2_to64_rest();
                assert((2 * sig + d) / (2 * d) <= 2 * sig + d) by (nonlinear_arith)
                    requires
                        d > 0,
                        sig >= 0,
                ;
                assert((2 * sig + d) / (2 * d) < 0x200_0000) by (nonlinear_arith)
                    requires
                        d > 0,
                        0 <= sig < 0x100_0000,
                ;
            }
            (2 * sig as u64 + d) / (2 * d)
        } else {
            proof {
                lemma_pow2_strictly_increases(30, k as nat);
                let d = pow2(k as nat) as int;
                vstd::arithmetic::div_mod::lemma_basic_div(2 * sig + d, 2 * d);
            }
            0
        }
    }
}

// ---------------------------------------------------------------------------
// What rounding keeps
// ---------------------------------------------------------------------------

proof fn lemma_search(n: int, d: int, rank: int) -> (found: int)
    requires
        d > 0,
        0 <= rank <= INFINITE,
        rank > 0 ==> (magnitude(rank - 1) + magnitude(rank)) * d < 2 * n,
    ensures
        nearest(found, n, d),
    decreases INFINITE - rank,
{
    if rank == INFINITE {
        rank
    } else {
        let here = magnitude(rank) + magnitude(rank + 1);
        if 2 * n < here * d {
            rank
        } else if 2 * n == here * d {
            if rank % 2 == 0 {
                rank
            } else {
                lemma_magnitude_step(rank);
                lemma_magnitude_step(rank + 1);
                let next = magnitude(rank + 1) + magnitude(rank + 2);
                assert(here * d < next * d) by (nonlinear_arith)
                    requires
                        here < next,
                        d > 0,
                ;
                rank + 1
            }
        } else {
            lemma_search(n, d, rank + 1)
        }
    }
}

/// Every exact magnitude has a correct rounding, and `rounded` is it.
pub proof fn lemma_rounded_is_nearest(n: int, d: int)
    requires
        d > 0,
    ensures
        nearest(rounded(n, d), n, d),
{
    let found = lemma_search(n, d, 0);
    assert(nearest(found, n, d));
}

/// A magnitude that the format has is its own rounding.
pub proof fn lemma_rounds_exactly(rank: int)
    requires
        0 <= rank < INFINITE,
    ensures
        rounded(magnitude(rank), 1) == rank,
{
    lemma_magnitude_step(rank);
    lemma_magnitude_step(rank + 1);
    if rank > 0 {
        lemma_magnitude_step(rank - 1);
    }
    assert(nearest(rank, magnitude(rank), 1));
    lemma_rounded(rank, magnitude(rank), 1);
}

/// Rounding keeps order.
pub proof fn lemma_rounding_ordered(low: int, high: int, d: int)
    requires
        d > 0,
        low <= high,
    ensures
        rounded(low, d) <= rounded(high, d),
{
    lemma_rounded_is_nearest(low, d);
    lemma_rounded_is_nearest(high, d);
    let a = rounded(low, d);
    let b = rounded(high, d);
    if a > b {
        let below_a = magnitude(a - 1) + magnitude(a);
        let above_b = magnitude(b) + magnitude(b + 1);
        if a - 1 > b {
            lemma_magnitude_increases(b, a - 1);
            lemma_magnitude_increases(b + 1, a);
            assert(above_b * d < below_a * d) by (nonlinear_arith)
                requires
                    above_b < below_a,
                    d > 0,
            ;
        } else {
            assert(below_a == above_b);
        }
    }
}

/// Adding what is not negative to what is not negative never moves down, and is
/// never "not a number".
pub proof fn lemma_sum_not_below(a: Scalar, b: Scalar)
    requires
        !a.nan(),
        !b.nan(),
        !a.negative() || a.zero(),
        !b.negative() || b.zero(),
    ensures
        !sum(a, b).nan(),
        !sum(a, b).negative() || sum(a, b).zero(),
        sum(a, b).position() >= a.position(),
        sum(a, b).position() >= b.position(),
{
    reveal(sum);
    if a.finite() && b.finite() {
        assert(magnitude(0) == 0);
        if a.rank() > 0 {
            lemma_magnitude_increases(0, a.rank());
        }
        if b.rank() > 0 {
            lemma_magnitude_increases(0, b.rank());
        }
        let exact = a.value() + b.value();
        assert(exact == magnitude(a.rank()) + magnitude(b.rank()));
        lemma_rounds_exactly(a.rank());
        lemma_rounds_exactly(b.rank());
        lemma_rounding_ordered(magnitude(a.rank()), exact, 1);
        lemma_rounding_ordered(magnitude(b.rank()), exact, 1);
        lemma_rounded_is_nearest(exact, 1);
    }
}

/// The product of finite numbers that are not negative is a number, and is not
/// negative.
pub proof fn lemma_product_not_below(a: Scalar, b: Scalar)
    requires
        a.finite(),
        b.finite(),
        !a.negative() || a.zero(),
        !b.negative() || b.zero(),
    ensures
        !product(a, b).nan(),
        !product(a, b).negative() || product(a, b).zero(),
{
    reveal(product);
    lemma_pow2_pos(149);
    let n = magnitude(a.rank()) * magnitude(b.rank());
    lemma_rounded_is_nearest(n, pow2(149) as int);
    if a.zero() || b.zero() {
        assert(magnitude(0) == 0);
        assert(n == 0) by (nonlinear_arith)
            requires
                magnitude(a.rank()) == 0 || magnitude(b.rank()) == 0,
                n == magnitude(a.rank()) * magnitude(b.rank()),
        ;
        lemma_zero_rounds(pow2(149) as int);
    }
}

/// A whole number of at most 24 binary digits is represented exactly.
pub proof fn lemma_whole_is_exact(n: int)
    requires
        0 <= n <= 0x100_0000,
    ensures
        from_whole(n).finite(),
        !from_whole(n).negative(),
        from_whole(n).value() == n * unit(),
{
    reveal(from_whole);
    if n == 0 {
        assert(magnitude(0) == 0);
        assert(n * unit() == 0) by (nonlinear_arith)
            requires
                n == 0,
        ;
        lemma_zero_rounds(1);
    } else {
        lemma2_to64();
        let none = pow2(0) as int;
        assert(n * none == n) by (nonlinear_arith)
            requires
                none == 1,
        ;
        let rank = lemma_small_rank(n, 149, 0);
        lemma_rounds_exactly(rank);
    }
}

/// Finds the rank of a small significand at an exponent by doubling it up to
/// full width.
proof fn lemma_small_rank(n: int, exponent: int, doubled: int) -> (found: int)
    requires
        0 < n <= 0x100_0000,
        24 <= exponent <= 149,
        0 <= doubled <= 24,
        n * pow2(doubled as nat) <= 0x100_0000,
    ensures
        0 <= found < INFINITE,
        magnitude(found) == n * pow2(exponent as nat),
    decreases 24 - doubled,
{
    let shift = pow2(doubled as nat) as int;
    lemma_pow2_pos(doubled as nat);
    let sig = n * shift;
    if sig >= 0x80_0000 {
        let step = exponent - doubled;
        lemma_magnitude_of(step, sig);
        lemma_pow2_adds(doubled as nat, step as nat);
        assert(doubled as nat + step as nat == exponent as nat);
        let rest = pow2(step as nat) as int;
        assert((n * shift) * rest == n * (shift * rest)) by (nonlinear_arith);
        step * 0x80_0000 + sig
    } else {
        lemma_pow2_adds(doubled as nat, 1);
        lemma2_to64();
        assert(doubled as nat + 1 == (doubled + 1) as nat);
        assert(n * (shift * 2) == 2 * (n * shift)) by (nonlinear_arith);
        if doubled == 24 {
            assert(sig >= 0x100_0000) by (nonlinear_arith)
                requires
                    sig == n * shift,
                    n >= 1,
                    shift == 0x100_0000,
            ;
        }
        lemma_small_rank(n, exponent, doubled + 1)
    }
}

/// Positions order finite numbers as their values do.
pub proof fn lemma_value_orders(a: Scalar, b: Scalar)
    requires
        a.finite(),
        b.finite(),
    ensures
        a.value() == b.value() <==> a.position() == b.position(),
        a.value() < b.value() <==> a.position() < b.position(),
{
    assert(magnitude(0) == 0);
    if a.rank() > 0 {
        lemma_magnitude_increases(0, a.rank());
    }
    if b.rank() > 0 {
        lemma_magnitude_increases(0, b.rank());
    }
    if a.rank() < b.rank() {
        lemma_magnitude_increases(a.rank(), b.rank());
    } else if b.rank() < a.rank() {
        lemma_magnitude_increases(b.rank(), a.rank());
    }
}

/// Taking one from a positive whole number of at most 24 binary digits is exact.
pub proof fn lemma_whole_minus_one(n: int)
    requires
        1 <= n <= 0x100_0000,
    ensures
        difference(from_whole(n), from_whole(1)) == from_whole(n - 1),
{
    let a = from_whole(n);
    let b = from_whole(1);
    lemma_whole_is_exact(n);
    lemma_whole_is_exact(1);
    lemma_whole_is_exact(n - 1);
    let c = from_whole(n - 1);
    lemma_pow2_pos(149);
    assert(n * unit() - 1 * unit() == (n - 1) * unit()) by (nonlinear_arith);
    assert((n - 1) * unit() >= 0) by (nonlinear_arith)
        requires
            n >= 1,
            unit() > 0,
    ;
    reveal(sum);
    reveal(from_whole);
    assert(negated(b).value() == -b.value());
    lemma_rounds_exactly(c.rank());
    if n == 1 {
        assert(0 * unit() == 0) by (nonlinear_arith);
        lemma_zero_rounds(1);
    } else {
        assert((n - 1) * unit() > 0) by (nonlinear_arith)
            requires
                n > 1,
                unit() > 0,
        ;
    }
}

/// A positive whole number that fits in 32 bits is a finite, positive number.
pub proof fn lemma_whole_positive(n: int)
    requires
        1 <= n <= u32::MAX,
    ensures
        from_whole(n).finite(),
        !from_whole(n).negative(),
        from_whole(n).rank() >= from_whole(1).rank() > 0,
{
    reveal(from_whole);
    lemma_whole_is_exact(1);
    lemma_pow2_pos(149);
    assert(1 * unit() == unit()) by (nonlinear_arith);
    assert(unit() <= n * unit()) by (nonlinear_arith)
        requires
            n >= 1,
            unit() > 0,
    ;
    lemma_rounding_ordered(1 * unit(), n * unit(), 1);
    lemma_rounded_is_nearest(n * unit(), 1);
    assert(magnitude(0) == 0);
    // Two to the power of 32 is far below the largest finite number.
    let ceiling: int = 180 * 0x80_0000int + 0x80_0000;
    lemma_magnitude_of(180, 0x80_0000);
    lemma_pow2_adds(31, 149);
    lemma2_to64();
    assert(magnitude(ceiling) == 0x80_0000 * pow2(180));
    assert(n * unit() <= 0x80_0000 * (0x8000_0000 * unit())) by (nonlinear_arith)
        requires
            n <= 0xFFFF_FFFF,
            unit() > 0,
    ;
    lemma_rounding_ordered(n * unit(), magnitude(ceiling), 1);
    lemma_rounds_exactly(ceiling);
    lemma_rounded_is_nearest(1 * unit(), 1);
    assert(from_whole(1).value() > 0);
    assert(from_whole(1).rank() == rounded(1 * unit(), 1));
    assert(from_whole(n).rank() == rounded(n * unit(), 1));
}

/// Zero times a finite number is a zero.
pub proof fn lemma_times_zero(a: Scalar, b: Scalar)
    requires
        a.zero(),
        b.finite(),
    ensures
        product(a, b).zero(),
        product(b, a).zero(),
{
    reveal(product);
    assert(magnitude(0) == 0);
    lemma_pow2_pos(149);
    lemma_zero_rounds(pow2(149) as int);
    let m = magnitude(b.rank());
    assert(0 * m == 0 && m * 0 == 0) by (nonlinear_arith);
}

/// Adding a zero does not move a finite number.
pub proof fn lemma_plus_zero(a: Scalar, b: Scalar)
    requires
        a.finite(),
        b.zero(),
    ensures
        sum(a, b).finite(),
        sum(a, b).position() == a.position(),
{
    reveal(sum);
    assert(magnitude(0) == 0);
    if a.rank() > 0 {
        lemma_magnitude_increases(0, a.rank());
        lemma_rounds_exactly(a.rank());
    }
}

/// A magnitude that the format has is its own rounding, however it is written
/// as a fraction.
pub proof fn lemma_fraction_rounds_exactly(rank: int, d: int)
    requires
        0 <= rank < INFINITE,
        d > 0,
    ensures
        rounded(magnitude(rank) * d, d) == rank,
{
    lemma_magnitude_step(rank);
    let m = magnitude(rank);
    let above = m + magnitude(rank + 1);
    assert(2 * (m * d) < above * d) by (nonlinear_arith)
        requires
            2 * m < above,
            d > 0,
    ;
    if rank > 0 {
        lemma_magnitude_step(rank - 1);
        let below = magnitude(rank - 1) + m;
        assert(below * d < 2 * (m * d)) by (nonlinear_arith)
            requires
                below < 2 * m,
                d > 0,
        ;
    }
    assert(nearest(rank, m * d, d));
    lemma_rounded(rank, m * d, d);
}

/// A count of at most 24 binary digits divided by two to the power of 24 is
/// exact, and lies in `[0, 1)` when the count has no more than those digits.
pub proof fn lemma_fraction_of_count(k: int)
    requires
        0 <= k < 0x100_0000,
    ensures
        quotient(from_whole(k), from_whole(0x100_0000)).finite(),
        !quotient(from_whole(k), from_whole(0x100_0000)).negative(),
        quotient(from_whole(k), from_whole(0x100_0000)).value() == k * pow2(125),
        quotient(from_whole(k), from_whole(0x100_0000)).value() < unit(),
{
    reveal(quotient);
    lemma_whole_is_exact(k);
    lemma_whole_is_exact(0x100_0000);
    lemma_pow2_pos(149);
    lemma_pow2_adds(24, 125);
    lemma2_to64();
    let part = pow2(125) as int;
    let one = unit();
    assert(one == 0x100_0000 * part);
    lemma_pow2_pos(125);
    let d = 0x100_0000 * one;
    assert(d > 0) by (nonlinear_arith)
        requires
            d == 0x100_0000 * one,
            one > 0,
    ;
    assert((k * one) * one == (k * part) * d) by (nonlinear_arith)
        requires
            one == 0x100_0000 * part,
            d == 0x100_0000 * one,
    ;
    assert(k * part < one) by (nonlinear_arith)
        requires
            k < 0x100_0000,
            part > 0,
            one == 0x100_0000 * part,
    ;
    if k == 0 {
        assert(magnitude(0) == 0);
        assert(k * part == 0 && k * one == 0) by (nonlinear_arith)
            requires
                k == 0,
        ;
        assert(0 * d == 0) by (nonlinear_arith);
        assert(0 * one == 0) by (nonlinear_arith);
        lemma_value_orders(from_whole(k), Scalar { bits: 0 });
        lemma_zero_rounds(d);
        lemma_value_orders(from_whole(0x100_0000), Scalar { bits: 0 });
    } else {
        let none = pow2(0) as int;
        assert(k * none == k) by (nonlinear_arith)
            requires
                none == 1,
        ;
        let rank = lemma_small_rank(k, 125, 0);
        lemma_fraction_rounds_exactly(rank, d);
        lemma_value_orders(from_whole(0x100_0000), Scalar { bits: 0 });
        assert(magnitude(0) == 0);
    }
}

/// A sum that lies between two finite numbers rounds to between them.
pub proof fn lemma_sum_between(a: Scalar, b: Scalar, low: Scalar, high: Scalar)
    requires
        a.finite(),
        b.finite(),
        low.finite(),
        high.finite(),
        low.value() <= a.value() + b.value() <= high.value(),
    ensures
        sum(a, b).finite(),
        low.position() <= sum(a, b).position() <= high.position(),
{
    reveal(sum);
    let exact = a.value() + b.value();
    assert(magnitude(0) == 0);
    if low.rank() > 0 {
        lemma_magnitude_increases(0, low.rank());
    }
    if high.rank() > 0 {
        lemma_magnitude_increases(0, high.rank());
    }
    lemma_rounds_exactly(low.rank());
    lemma_rounds_exactly(high.rank());
    lemma_zero_rounds(1);
    if exact > 0 {
        lemma_rounded_is_nearest(exact, 1);
        lemma_rounding_ordered(0, exact, 1);
        lemma_rounding_ordered(exact, magnitude(high.rank()), 1);
        if low.value() > 0 {
            lemma_rounding_ordered(magnitude(low.rank()), exact, 1);
        }
    } else if exact < 0 {
        lemma_rounded_is_nearest(-exact, 1);
        lemma_rounding_ordered(0, -exact, 1);
        lemma_rounding_ordered(-exact, magnitude(low.rank()), 1);
        if high.value() < 0 {
            lemma_rounding_ordered(magnitude(high.rank()), -exact, 1);
        }
    }
}

/// Taking a fraction of at most one of a finite number that is not negative
/// gives no more than the number.
pub proof fn lemma_fraction_of(a: Scalar, f: Scalar)
    requires
        a.finite(),
        f.finite(),
        !a.negative() || a.zero(),
        !f.negative(),
        f.value() <= unit(),
    ensures
        product(a, f).finite(),
        0 <= product(a, f).value() <= a.value(),
{
    reveal(product);
    lemma_pow2_pos(149);
    let m = magnitude(a.rank());
    let n = magnitude(f.rank());
    let one = unit();
    assert(magnitude(0) == 0);
    if a.rank() > 0 {
        lemma_magnitude_increases(0, a.rank());
    }
    if f.rank() > 0 {
        lemma_magnitude_increases(0, f.rank());
    }
    assert(m * n <= m * one) by (nonlinear_arith)
        requires
            m >= 0,
            n <= one,
    ;
    lemma_fraction_rounds_exactly(a.rank(), one);
    lemma_rounding_ordered(m * n, m * one, one);
    lemma_rounded_is_nearest(m * n, one);
    let r = rounded(m * n, one);
    if r > 0 {
        lemma_magnitude_increases(0, r);
    }
    if r < a.rank() {
        lemma_magnitude_increases(r, a.rank());
    }
}

/// Zero is the whole number zero.
pub proof fn lemma_from_zero()
    ensures
        from_whole(0) == (Scalar { bits: 0 }),
{
    reveal(from_whole);
    assert(0 * unit() == 0) by (nonlinear_arith);
    lemma_zero_rounds(1);
}

/// Multiplying a finite number by one does not change it.
pub proof fn lemma_times_one(a: Scalar)
    requires
        a.finite(),
        from_whole(1) == (Scalar { bits: 0x3F80_0000 }),
    ensures
        product(a, Scalar { bits: 0x3F80_0000 }) == a,
{
    reveal(product);
    let b = Scalar { bits: 0x3F80_0000 };
    lemma_whole_is_exact(1);
    assert(1 * unit() == unit()) by (nonlinear_arith);
    lemma_pow2_pos(149);
    lemma_fraction_rounds_exactly(a.rank(), unit());
}

// ---------------------------------------------------------------------------
// How far rounding moves
// ---------------------------------------------------------------------------

/// A small whole number times a power of two is a number of the format.
pub proof fn lemma_dyadic(n: int, exponent: int) -> (s: Scalar)
    requires
        0 <= n <= 0x100_0000,
        24 <= exponent <= 149,
    ensures
        s.finite(),
        !s.negative(),
        s.value() == n * pow2(exponent as nat),
{
    let part = pow2(exponent as nat) as int;
    if n == 0 {
        assert(magnitude(0) == 0);
        assert(n * part == 0) by (nonlinear_arith)
            requires
                n == 0,
        ;
        Scalar { bits: 0 }
    } else {
        lemma2_to64();
        let none = pow2(0) as int;
        assert(n * none == n) by (nonlinear_arith)
            requires
                none == 1,
        ;
        let rank = lemma_small_rank(n, exponent, 0);
        signed(false, rank)
    }
}

/// A sum that the format has is exact.
pub proof fn lemma_exact_sum(a: Scalar, b: Scalar, c: Scalar)
    requires
        a.finite(),
        b.finite(),
        c.finite(),
        c.value() == a.value() + b.value(),
    ensures
        sum(a, b).finite(),
        sum(a, b).value() == c.value(),
{
    lemma_sum_between(a, b, c, c);
    lemma_value_orders(sum(a, b), c);
}

/// Taking one from a number of at least one is exact, as long as the number has
/// no more than 24 binary digits before the point.
pub proof fn lemma_minus_one_is_exact(a: Scalar)
    requires
        a.finite(),
        unit() <= a.value() < 0x100_0000 * unit(),
    ensures
        difference(a, from_whole(1)).finite(),
        difference(a, from_whole(1)).value() == a.value() - unit(),
{
    lemma_pow2_pos(149);
    assert(!a.negative()) by {
        assert(magnitude(0) == 0);
        if a.rank() > 0 {
            lemma_magnitude_increases(0, a.rank());
        }
    }
    let (step, sig) = lemma_split(a.rank());
    lemma_magnitude_of(step, sig);
    let p = pow2(step as nat) as int;
    lemma_pow2_pos(step as nat);
    lemma2_to64();
    if step < 126 {
        lemma_pow2_adds(24, 125);
        if step < 125 {
            lemma_pow2_strictly_increases(step as nat, 125);
        }
        let most = pow2(125) as int;
        assert(sig * p < 0x100_0000 * most) by (nonlinear_arith)
            requires
                0 <= sig < 0x100_0000,
                0 < p <= most,
        ;
    }
    if step > 149 {
        lemma_pow2_adds(1, 149);
        if step > 150 {
            lemma_pow2_strictly_increases(150, step as nat);
        }
        let least = pow2(150) as int;
        assert(sig * p >= 0x80_0000 * least) by (nonlinear_arith)
            requires
                sig >= 0x80_0000,
                p >= least,
                least > 0,
        ;
    }
    let q = pow2((149 - step) as nat) as int;
    lemma_pow2_adds((149 - step) as nat, step as nat);
    assert((149 - step) as nat + step as nat == 149);
    let n = sig - q;
    assert(n >= 0) by (nonlinear_arith)
        requires
            n == sig - q,
            sig * p >= q * p,
            p > 0,
    ;
    lemma_pow2_pos((149 - step) as nat);
    let c = lemma_dyadic(n, step);
    assert(n * p == sig * p - q * p) by (nonlinear_arith)
        requires
            n == sig - q,
    ;
    lemma_whole_is_exact(1);
    assert(1 * unit() == unit()) by (nonlinear_arith);
    assert(negated(from_whole(1)).value() == -unit());
    lemma_exact_sum(a, negated(from_whole(1)), c);
}

/// The rounding of a magnitude is off by at most half the gap to the next one,
/// and that gap is one unit or at most a part in two to the power of 23.
pub proof fn lemma_rounding_error(n: int, d: int) -> (g: int)
    requires
        n >= 0,
        d > 0,
        rounded(n, d) < INFINITE,
    ensures
        g >= 1,
        -g * d <= 2 * (magnitude(rounded(n, d)) * d - n) <= g * d,
        g == 1 || g * 0x80_0000 <= magnitude(rounded(n, d)),
{
    let r = rounded(n, d);
    lemma_rounded_is_nearest(n, d);
    let (step, sig) = lemma_split(r);
    lemma_magnitude_of(step, sig);
    lemma_magnitude_of(step, sig + 1);
    lemma_pow2_pos(step as nat);
    let g = pow2(step as nat) as int;
    let m = magnitude(r);
    assert((sig + 1) * g == sig * g + g) by (nonlinear_arith);
    let above = m + magnitude(r + 1);
    assert(above == 2 * m + g);
    assert((2 * m + g) * d == 2 * (m * d) + g * d) by (nonlinear_arith);
    if step == 0 {
        lemma2_to64();
    } else {
        assert(g * 0x80_0000 <= sig * g) by (nonlinear_arith)
            requires
                sig >= 0x80_0000,
                g > 0,
        ;
    }
    if r > 0 {
        let b = magnitude(r - 1);
        assert(m - b <= g) by {
            if step == 0 || sig - 1 >= 0x80_0000 {
                lemma_magnitude_of(step, sig - 1);
                assert((sig - 1) * g == sig * g - g) by (nonlinear_arith);
            } else {
                lemma_magnitude_of(step - 1, 0xFF_FFFF);
                lemma_pow2_adds((step - 1) as nat, 1);
                lemma2_to64();
                assert((step - 1) as nat + 1 == step as nat);
                assert(r - 1 == (step - 1) * 0x80_0000 + 0xFF_FFFF);
                let low = pow2((step - 1) as nat) as int;
                assert(0x80_0000 * (low * 2) - 0xFF_FFFF * low == low) by (nonlinear_arith);
                lemma_pow2_pos((step - 1) as nat);
            }
        }
        assert((b + m) * d >= 2 * (m * d) - g * d) by (nonlinear_arith)
            requires
                m - b <= g,
                d > 0,
        ;
    } else {
        assert(magnitude(0) == 0);
        assert(m * d == 0) by (nonlinear_arith)
            requires
                m == 0,
        ;
        assert(g * d >= 0) by (nonlinear_arith)
            requires
                g > 0,
                d > 0,
        ;
    }
    assert(-g * d == -(g * d)) by (nonlinear_arith);
    g
}

proof fn lemma_root_search(square: int, rank: int) -> (found: int)
    requires
        0 <= rank <= INFINITE,
        rank > 0 ==> (magnitude(rank - 1) + magnitude(rank)) * (magnitude(rank - 1) + magnitude(rank)) < 4 * square,
    ensures
        nearest_root(found, square),
    decreases INFINITE - rank,
{
    if rank == INFINITE {
        rank
    } else {
        let here = magnitude(rank) + magnitude(rank + 1);
        if 4 * square < here * here {
            rank
        } else if 4 * square == here * here {
            if rank % 2 == 0 {
                rank
            } else {
                lemma_magnitude_step(rank);
                lemma_magnitude_step(rank + 1);
                let next = magnitude(rank + 1) + magnitude(rank + 2);
                assert(here * here < next * next) by (nonlinear_arith)
                    requires
                        0 <= here < next,
                ;
                rank + 1
            }
        } else {
            lemma_root_search(square, rank + 1)
        }
    }
}

/// Every square has a correctly rounded root, and `root_rounded` is it.
pub proof fn lemma_root_rounded_is_nearest(square: int)
    ensures
        nearest_root(root_rounded(square), square),
{
    let found = lemma_root_search(square, 0);
    assert(nearest_root(found, square));
}

/// Adding a finite number to a zero does not move it.
pub proof fn lemma_zero_plus(a: Scalar, b: Scalar)
    requires
        a.zero(),
        b.finite(),
    ensures
        sum(a, b).finite(),
        sum(a, b).position() == b.position(),
{
    reveal(sum);
    assert(magnitude(0) == 0);
    if b.rank() > 0 {
        lemma_magnitude_increases(0, b.rank());
        lemma_rounds_exactly(b.rank());
    }
}

/// The sum of numbers without a sign has none.
pub proof fn lemma_sum_keeps_sign(a: Scalar, b: Scalar)
    requires
        !a.nan(),
        !b.nan(),
        !a.negative(),
        !b.negative(),
    ensures
        !sum(a, b).nan(),
        !sum(a, b).negative(),
        sum(a, b).rank() >= a.rank(),
        sum(a, b).rank() >= b.rank(),
{
    lemma_sum_not_below(a, b);
    reveal(sum);
    assert(magnitude(0) == 0);
    if a.finite() && b.finite() {
        if a.rank() > 0 {
            lemma_magnitude_increases(0, a.rank());
        }
        if b.rank() > 0 {
            lemma_magnitude_increases(0, b.rank());
        }
        lemma_rounded_is_nearest(a.value() + b.value(), 1);
    }
}

/// The square of a number has no sign.
pub proof fn lemma_square_keeps_sign(a: Scalar)
    requires
        !a.nan(),
    ensures
        !product(a, a).nan(),
        !product(a, a).negative(),
{
    reveal(product);
    lemma_pow2_pos(149);
    lemma_rounded_is_nearest(magnitude(a.rank()) * magnitude(a.rank()), pow2(149) as int);
}

/// The root of a number without a sign has none.
pub proof fn lemma_root_keeps_sign(a: Scalar)
    requires
        !a.nan(),
        !a.negative(),
    ensures
        !square_root(a).nan(),
        !square_root(a).negative(),
{
    reveal(square_root);
    lemma_root_rounded_is_nearest(magnitude(a.rank()) * pow2(149));
}

/// A finite number other than zero divided by itself is one.
pub proof fn lemma_self_quotient(a: Scalar)
    requires
        a.finite(),
        !a.zero(),
        from_whole(1) == (Scalar { bits: 0x3F80_0000 }),
    ensures
        quotient(a, a) == (Scalar { bits: 0x3F80_0000 }),
{
    reveal(quotient);
    let one = Scalar { bits: 0x3F80_0000 };
    lemma_whole_is_exact(1);
    assert(1 * unit() == unit()) by (nonlinear_arith);
    let m = magnitude(a.rank());
    assert(magnitude(0) == 0);
    lemma_magnitude_increases(0, a.rank());
    lemma_fraction_rounds_exactly(one.rank(), m);
    assert(magnitude(one.rank()) * m == m * unit()) by (nonlinear_arith)
        requires
            magnitude(one.rank()) == unit(),
    ;
}

/// A larger summand gives no smaller sum.
pub proof fn lemma_sum_ordered(a: Scalar, low: Scalar, high: Scalar)
    requires
        a.finite(),
        low.finite(),
        high.finite(),
        low.position() <= high.position(),
    ensures
        !sum(a, low).nan(),
        !sum(a, high).nan(),
        sum(a, low).position() <= sum(a, high).position(),
{
    reveal(sum);
    lemma_value_orders(low, high);
    let less = a.value() + low.value();
    let more = a.value() + high.value();
    assert(less <= more);
    lemma_rounded_is_nearest(less, 1);
    lemma_rounded_is_nearest(-less, 1);
    lemma_rounded_is_nearest(more, 1);
    lemma_rounded_is_nearest(-more, 1);
    lemma_rounding_ordered(less, more, 1);
    lemma_rounding_ordered(-more, -less, 1);
}

/// A larger factor of what is not negative gives no smaller product.
pub proof fn lemma_product_ordered(low: Scalar, high: Scalar, g: Scalar)
    requires
        low.finite(),
        high.finite(),
        g.finite(),
        low.position() <= high.position(),
        !g.negative() || g.zero(),
    ensures
        !product(low, g).nan(),
        !product(high, g).nan(),
        product(low, g).position() <= product(high, g).position(),
{
    if g.zero() {
        lemma_times_zero(g, low);
        lemma_times_zero(g, high);
    } else {
        reveal(product);
        lemma_pow2_pos(149);
        let d = pow2(149) as int;
        let m = magnitude(g.rank());
        let a = magnitude(low.rank());
        let b = magnitude(high.rank());
        assert(magnitude(0) == 0);
        lemma_magnitude_increases(0, g.rank());
        lemma_zero_rounds(d);
        assert(0 * m == 0) by (nonlinear_arith);
        lemma_rounded_is_nearest(a * m, d);
        lemma_rounded_is_nearest(b * m, d);
        if low.rank() < high.rank() {
            lemma_magnitude_increases(low.rank(), high.rank());
            assert(a * m <= b * m) by (nonlinear_arith)
                requires
                    a <= b,
                    m >= 0,
            ;
            lemma_rounding_ordered(a * m, b * m, d);
        } else if high.rank() < low.rank() {
            lemma_magnitude_increases(high.rank(), low.rank());
            assert(b * m <= a * m) by (nonlinear_arith)
                requires
                    b <= a,
                    m >= 0,
            ;
            lemma_rounding_ordered(b * m, a * m, d);
        }
    }
}

/// Larger whole numbers stand for no smaller ones.
pub proof fn lemma_wholes_ordered(low: int, high: int)
    requires
        0 <= low <= high <= u32::MAX,
    ensures
        from_whole(low).finite(),
        from_whole(high).finite(),
        !from_whole(low).negative(),
        !from_whole(high).negative(),
        from_whole(low).position() <= from_whole(high).position(),
{
    lemma_from_zero();
    if low > 0 {
        lemma_whole_positive(low);
        lemma_whole_positive(high);
        reveal(from_whole);
        lemma_pow2_pos(149);
        assert(low * unit() <= high * unit()) by (nonlinear_arith)
            requires
                low <= high,
                unit() > 0,
        ;
        lemma_rounding_ordered(low * unit(), high * unit(), 1);
        lemma_rounded_is_nearest(low * unit(), 1);
        lemma_rounded_is_nearest(high * unit(), 1);
    } else if high > 0 {
        lemma_whole_positive(high);
    }
}

/// The gap above a number is no smaller than the part of it that its last bit is.
pub proof fn lemma_gap_above(rank: int)
    requires
        rank >= 0,
    ensures
        magnitude(rank) <= 0xFF_FFFF * (magnitude(rank + 1) - magnitude(rank)),
{
    let (step, sig) = lemma_split(rank);
    lemma_magnitude_of(step, sig);
    lemma_magnitude_of(step, sig + 1);
    lemma_pow2_pos(step as nat);
    let p = pow2(step as nat) as int;
    assert((sig + 1) * p - sig * p == p) by (nonlinear_arith);
    assert(sig * p <= 0xFF_FFFF * p) by (nonlinear_arith)
        requires
            sig <= 0xFF_FFFF,
            p > 0,
    ;
}

/// A number of at least one, divided into equal parts that are put together
/// again, comes to no more than the number next to it.
pub proof fn lemma_division_undone(a: Scalar, n: int, part: Scalar)
    requires
        a.finite(),
        !a.negative(),
        a.value() >= unit(),
        1 <= n <= 0x100_0000,
        !part.nan(),
        0 <= part.position() <= quotient(a, from_whole(n)).position(),
    ensures
        !product(part, from_whole(n)).nan(),
        product(part, from_whole(n)).position() <= a.position() + 1,
{
    reveal(product);
    reveal(quotient);
    lemma_whole_is_exact(n);
    lemma_pow2_pos(149);
    lemma_pow2_adds(64, 85);
    lemma_pow2_pos(85);
    lemma2_to64();
    let u = unit();
    let b = from_whole(n);
    let am = magnitude(a.rank());
    let d = n * u;
    assert(d >= u > 0 && d <= 0x100_0000 * u) by (nonlinear_arith)
        requires
            d == n * u,
            1 <= n <= 0x100_0000,
            u > 0,
    ;
    assert(magnitude(0) == 0);
    assert(magnitude(b.rank()) == d);
    assert(a.rank() > 0 && b.rank() > 0);
    let r = rounded(am * u, d);
    assert(am * u <= am * d) by (nonlinear_arith)
        requires
            u <= d,
            am >= 0,
    ;
    lemma_fraction_rounds_exactly(a.rank(), d);
    lemma_rounding_ordered(am * u, am * d, d);
    lemma_rounded_is_nearest(am * u, d);
    assert(am * u >= 0) by (nonlinear_arith)
        requires
            am >= 0,
            u > 0,
    ;
    let g = lemma_rounding_error(am * u, d);
    let q = magnitude(r);
    // In units of the divisor.
    assert(q * d == (q * n) * u) by (nonlinear_arith)
        requires
            d == n * u,
    ;
    assert(g * d == (g * n) * u) by (nonlinear_arith)
        requires
            d == n * u,
    ;
    let parts = q * n;
    let slack = g * n;
    assert(-g * d == -(g * d)) by (nonlinear_arith);
    assert(-slack <= 2 * (parts - am) <= slack) by (nonlinear_arith)
        requires
            -(slack * u) <= 2 * (parts * u - am * u) <= slack * u,
            u > 0,
    ;
    assert(q >= 0x80_0000 && g * 0x80_0000 <= q) by {
        if g == 1 && q < 0x80_0000 {
            assert(parts < 0x80_0000 * 0x100_0000) by (nonlinear_arith)
                requires
                    parts == q * n,
                    0 <= q < 0x80_0000,
                    1 <= n <= 0x100_0000,
            ;
            assert(slack == n) by (nonlinear_arith)
                requires
                    slack == g * n,
                    g == 1,
            ;
            assert(u >= pow2(64)) by (nonlinear_arith)
                requires
                    u == pow2(64) * pow2(85),
                    pow2(85) > 0,
                    pow2(64) > 0,
            ;
        }
        if r > 0 {
            lemma_magnitude_increases(0, r);
        }
    }
    assert(slack * 0x80_0000 <= parts) by (nonlinear_arith)
        requires
            slack == g * n,
            parts == q * n,
            g * 0x80_0000 <= q,
            n >= 1,
    ;
    lemma_gap_above(a.rank());
    let next = magnitude(a.rank() + 1);
    assert(parts <= next);
    // Put together again.
    let pm = magnitude(part.rank());
    if part.negative() {
        assert(part.zero());
        lemma_times_zero(part, b);
    } else {
        if part.rank() < r {
            lemma_magnitude_increases(part.rank(), r);
        }
        if part.rank() > 0 {
            lemma_magnitude_increases(0, part.rank());
        }
        assert(pm <= q);
        assert(pm * d <= next * u) by (nonlinear_arith)
            requires
                0 <= pm <= q,
                d == n * u,
                q * n <= next,
                u > 0,
                n >= 1,
        {
            assert(pm * d <= q * d);
            assert(q * d == (q * n) * u);
            assert((q * n) * u <= next * u);
        }
        lemma_rounding_ordered(pm * d, next * u, u);
        lemma_rounded_is_nearest(pm * d, u);
        if a.rank() + 1 < INFINITE {
            lemma_fraction_rounds_exactly(a.rank() + 1, u);
        }
    }
}

/// A number that is not negative, divided by a positive one, is not negative.
pub proof fn lemma_quotient_not_below(a: Scalar, b: Scalar)
    requires
        !a.nan(),
        b.finite(),
        !a.negative(),
        !b.negative(),
        !b.zero(),
    ensures
        !quotient(a, b).nan(),
        !quotient(a, b).negative(),
{
    reveal(quotient);
    assert(magnitude(0) == 0);
    lemma_magnitude_increases(0, b.rank());
    lemma_rounded_is_nearest(magnitude(a.rank()) * pow2(149), magnitude(b.rank()));
}

/// Dividing a finite number by one does not change it.
pub proof fn lemma_over_one(a: Scalar)
    requires
        a.finite(),
        from_whole(1) == (Scalar { bits: 0x3F80_0000 }),
    ensures
        quotient(a, Scalar { bits: 0x3F80_0000 }) == a,
{
    reveal(quotient);
    lemma_whole_is_exact(1);
    assert(1 * unit() == unit()) by (nonlinear_arith);
    lemma_pow2_pos(149);
    assert(magnitude(0) == 0);
    lemma_fraction_rounds_exactly(a.rank(), unit());
}

/// A fraction rounds the same however it is extended.
proof fn lemma_extended(n: int, d: int, k: int)
    requires
        d > 0,
        k > 0,
    ensures
        rounded(n * k, d * k) == rounded(n, d),
{
    lemma_rounded_is_nearest(n, d);
    let r = rounded(n, d);
    let above = magnitude(r) + magnitude(r + 1);
    let below = magnitude(r - 1) + magnitude(r);
    assert(d * k > 0 && 2 * (n * k) == (2 * n) * k && above * (d * k) == (above * d) * k && below * (d * k) == (below * d)
        * k) by (nonlinear_arith)
        requires
            d > 0,
            k > 0,
    ;
    let x = 2 * n;
    let y = above * d;
    let z = below * d;
    assert((x <= y ==> x * k <= y * k) && (x * k == y * k ==> x == y)) by (nonlinear_arith)
        requires
            k > 0,
    ;
    assert((z <= x ==> z * k <= x * k) && (z * k == x * k ==> z == x)) by (nonlinear_arith)
        requires
            k > 0,
    ;
    assert(nearest(r, n * k, d * k));
    lemma_rounded(r, n * k, d * k);
}

/// A larger divisor of what is not negative gives no larger quotient.
pub proof fn lemma_quotient_ordered(a: Scalar, low: Scalar, high: Scalar)
    requires
        a.finite(),
        !a.negative(),
        !low.nan(),
        !high.nan(),
        0 < low.position() <= high.position(),
    ensures
        !quotient(a, low).nan(),
        !quotient(a, high).nan(),
        0 <= quotient(a, high).position() <= quotient(a, low).position(),
{
    reveal(quotient);
    assert(magnitude(0) == 0);
    let n = magnitude(a.rank()) * pow2(149);
    lemma_pow2_pos(149);
    if a.rank() > 0 {
        lemma_magnitude_increases(0, a.rank());
    }
    assert(n >= 0) by (nonlinear_arith)
        requires
            n == magnitude(a.rank()) * pow2(149),
            magnitude(a.rank()) >= 0,
    ;
    if low.finite() {
        lemma_magnitude_increases(0, low.rank());
        let x = magnitude(low.rank());
        lemma_rounded_is_nearest(n, x);
        if high.finite() {
            lemma_magnitude_increases(0, high.rank());
            let y = magnitude(high.rank());
            lemma_rounded_is_nearest(n, y);
            if low.rank() < high.rank() {
                lemma_magnitude_increases(low.rank(), high.rank());
            }
            lemma_extended(n, x, y);
            lemma_extended(n, y, x);
            assert(n * x <= n * y && x * y == y * x && x * y > 0) by (nonlinear_arith)
                requires
                    n >= 0,
                    0 < x <= y,
            ;
            lemma_rounding_ordered(n * x, n * y, x * y);
        }
    }
}

/// A larger factor of a positive number gives no smaller product, infinite or
/// not.
pub proof fn lemma_product_grows(a: Scalar, low: Scalar, high: Scalar)
    requires
        !a.nan(),
        0 < a.position(),
        !low.nan(),
        !high.nan(),
        0 < low.position() <= high.position(),
    ensures
        !product(a, low).nan(),
        !product(a, high).nan(),
        0 <= product(a, low).position() <= product(a, high).position(),
{
    reveal(product);
    if a.finite() && low.finite() {
        lemma_pow2_pos(149);
        let d = pow2(149) as int;
        let m = magnitude(a.rank());
        let x = magnitude(low.rank());
        assert(magnitude(0) == 0);
        lemma_magnitude_increases(0, a.rank());
        lemma_magnitude_increases(0, low.rank());
        lemma_rounded_is_nearest(m * x, d);
        if high.finite() {
            let y = magnitude(high.rank());
            lemma_rounded_is_nearest(m * y, d);
            if low.rank() < high.rank() {
                lemma_magnitude_increases(low.rank(), high.rank());
            }
            assert(m * x <= m * y) by (nonlinear_arith)
                requires
                    m > 0,
                    x <= y,
            ;
            lemma_rounding_ordered(m * x, m * y, d);
        }
    }
}

/// Small whole numbers multiply exactly.
pub proof fn lemma_whole_product(a: int, b: int)
    requires
        0 <= a <= 0x100_0000,
        0 <= b <= 0x100_0000,
        a * b <= 0x100_0000,
    ensures
        product(from_whole(a), from_whole(b)) == from_whole(a * b),
{
    assert(a * b >= 0) by (nonlinear_arith)
        requires
            a >= 0,
            b >= 0,
    ;
    lemma_whole_is_exact(a);
    lemma_whole_is_exact(b);
    lemma_whole_is_exact(a * b);
    lemma_pow2_pos(149);
    let u = unit();
    reveal(product);
    assert((a * u) * (b * u) == ((a * b) * u) * u) by (nonlinear_arith);
    lemma_fraction_rounds_exactly(from_whole(a * b).rank(), u);
}

/// Small whole numbers add exactly.
pub proof fn lemma_whole_sum(a: int, b: int)
    requires
        0 <= a,
        0 <= b,
        a + b <= 0x100_0000,
    ensures
        sum(from_whole(a), from_whole(b)) == from_whole(a + b),
{
    lemma_whole_is_exact(a);
    lemma_whole_is_exact(b);
    lemma_whole_is_exact(a + b);
    assert(a * unit() + b * unit() == (a + b) * unit()) by (nonlinear_arith);
    lemma_exact_sum(from_whole(a), from_whole(b), from_whole(a + b));
    lemma_value_orders(sum(from_whole(a), from_whole(b)), from_whole(a + b));
    lemma_sum_not_below(from_whole(a), from_whole(b));
    if a + b == 0 {
        lemma_from_zero();
        reveal(sum);
    } else {
        lemma_whole_positive(a + b);
    }
}

/// The whole part of a small whole number is that number.
pub proof fn lemma_whole_part_of_whole(n: int)
    requires
        0 <= n <= 0x100_0000,
    ensures
        whole_part(from_whole(n)) == n,
{
    reveal(whole_part);
    lemma_whole_is_exact(n);
    lemma_pow2_pos(149);
    assert(n * unit() / unit() == n) by (nonlinear_arith)
        requires
            unit() > 0,
    ;
}

/// A larger number has no smaller whole part.
pub proof fn lemma_whole_part_ordered(low: Scalar, high: Scalar)
    requires
        !low.nan(),
        !high.nan(),
        low.position() <= high.position(),
    ensures
        whole_part(low) <= whole_part(high),
{
    lemma_whole_part(low);
    lemma_whole_part(high);
    reveal(whole_part);
    if !low.negative() && !high.negative() && low.rank() < high.rank() {
        lemma_magnitude_increases(low.rank(), high.rank());
        lemma_pow2_pos(149);
        vstd::arithmetic::div_mod::lemma_div_is_ordered(magnitude(low.rank()), magnitude(high.rank()), unit());
    } else if low.negative() || high.negative() {
        lemma_pow2_pos(149);
        assert(magnitude(0) == 0);
        vstd::arithmetic::div_mod::lemma_div_basics(unit());
    }
}

/// The order of two factors does not matter.
pub proof fn lemma_factors_swap(a: Scalar, b: Scalar)
    ensures
        product(a, b) == product(b, a),
{
    reveal(product);
    let x = magnitude(a.rank());
    let y = magnitude(b.rank());
    assert(x * y == y * x) by (nonlinear_arith);
}

/// A larger dividend gives no smaller quotient.
pub proof fn lemma_dividend_ordered(low: Scalar, high: Scalar, d: Scalar)
    requires
        low.finite(),
        high.finite(),
        d.finite(),
        0 < d.position(),
        low.position() <= high.position(),
    ensures
        !quotient(low, d).nan(),
        !quotient(high, d).nan(),
        quotient(low, d).position() <= quotient(high, d).position(),
{
    reveal(quotient);
    assert(magnitude(0) == 0);
    lemma_magnitude_increases(0, d.rank());
    lemma_pow2_pos(149);
    let m = magnitude(d.rank());
    let p = pow2(149) as int;
    let a = magnitude(low.rank());
    let b = magnitude(high.rank());
    lemma_rounded_is_nearest(a * p, m);
    lemma_rounded_is_nearest(b * p, m);
    lemma_zero_rounds(m);
    assert(0 * p == 0) by (nonlinear_arith);
    if low.rank() < high.rank() {
        lemma_magnitude_increases(low.rank(), high.rank());
        assert(a * p <= b * p) by (nonlinear_arith)
            requires
                a <= b,
                p > 0,
        ;
        lemma_rounding_ordered(a * p, b * p, m);
    } else if high.rank() < low.rank() {
        lemma_magnitude_increases(high.rank(), low.rank());
        assert(b * p <= a * p) by (nonlinear_arith)
            requires
                b <= a,
                p > 0,
        ;
        lemma_rounding_ordered(b * p, a * p, m);
    }
}

/// Nothing, divided, is nothing.
pub proof fn lemma_zero_over(d: Scalar)
    requires
        d.finite(),
        !d.zero(),
    ensures
        quotient(Scalar { bits: 0 }, d).zero(),
{
    reveal(quotient);
    assert(magnitude(0) == 0);
    lemma_magnitude_increases(0, d.rank());
    lemma_zero_rounds(magnitude(d.rank()));
    assert(magnitude(0) * pow2(149) == 0) by (nonlinear_arith)
        requires
            magnitude(0) == 0,
    ;
}

/// The root of a small square is exact.
pub proof fn lemma_whole_root(n: int)
    requires
        0 <= n,
        n * n <= 0x100_0000,
    ensures
        square_root(from_whole(n * n)) == from_whole(n),
{
    assert(n <= 0x1000) by (nonlinear_arith)
        requires
            n * n <= 0x100_0000,
            n >= 0,
    ;
    assert(n * n >= n) by (nonlinear_arith)
        requires
            n >= 0,
    ;
    lemma_whole_is_exact(n);
    lemma_whole_is_exact(n * n);
    reveal(square_root);
    if n == 0 {
        lemma_from_zero();
    } else {
        lemma_whole_positive(n);
        lemma_whole_positive(n * n);
        let r = from_whole(n).rank();
        let u = unit();
        let m = magnitude(r);
        assert(m == n * u);
        let square = magnitude(from_whole(n * n).rank()) * pow2(149);
        assert(square == m * m) by (nonlinear_arith)
            requires
                m == n * u,
                square == ((n * n) * u) * u,
        ;
        lemma_magnitude_step(r);
        lemma_magnitude_step(r - 1);
        let above = m + magnitude(r + 1);
        let below = magnitude(r - 1) + m;
        assert(4 * (m * m) < above * above) by (nonlinear_arith)
            requires
                m >= 0,
                2 * m < above,
        ;
        assert(below * below < 4 * (m * m)) by (nonlinear_arith)
            requires
                0 <= below < 2 * m,
        ;
        assert(nearest_root(r, square));
        lemma_root_rounded_is_nearest(square);
        lemma_root_unique(r, root_rounded(square), square);
    }
}

/// The difference of small whole numbers is exact.
pub proof fn lemma_whole_difference(a: int, b: int)
    requires
        0 <= a <= 0x100_0000,
        0 <= b <= 0x100_0000,
    ensures
        a >= b ==> difference(from_whole(a), from_whole(b)) == from_whole(a - b),
        a < b ==> difference(from_whole(a), from_whole(b)) == negated(from_whole(b - a)),
{
    lemma_whole_is_exact(a);
    lemma_whole_is_exact(b);
    let x = from_whole(a);
    let y = from_whole(b);
    let u = unit();
    assert(negated(y).value() == -y.value());
    assert(a * u - b * u == (a - b) * u && b * u - a * u == (b - a) * u) by (nonlinear_arith);
    if a >= b {
        lemma_whole_is_exact(a - b);
        lemma_exact_sum(x, negated(y), from_whole(a - b));
        lemma_value_orders(sum(x, negated(y)), from_whole(a - b));
        if a > b {
            lemma_whole_positive(a - b);
        } else {
            lemma_from_zero();
            reveal(sum);
            lemma_zero_rounds(1);
            assert(magnitude(0) == 0);
        }
    } else {
        lemma_whole_is_exact(b - a);
        let z = negated(from_whole(b - a));
        assert(z.value() == -from_whole(b - a).value());
        lemma_exact_sum(x, negated(y), z);
        lemma_value_orders(sum(x, negated(y)), z);
        lemma_whole_positive(b - a);
    }
}

/// The square of a number is the square of its opposite.
pub proof fn lemma_square_of_opposite(a: Scalar)
    requires
        !a.nan(),
    ensures
        product(negated(a), negated(a)) == product(a, a),
{
    reveal(product);
}

// ---------------------------------------------------------------------------
// Laws
// ---------------------------------------------------------------------------

/// The whole part of a number is the last whole number not above it.
pub proof fn law_a_whole_part_leaves_less_than_one(a: Scalar)
    requires
        a.finite(),
        0 <= a.value() < 0x1_0000_0000 * unit(),
    ensures
        whole_part(a) * unit() <= a.value() < (whole_part(a) + 1) * unit(),
{
    reveal(whole_part);
    lemma_pow2_pos(149);
    let v = a.value();
    let u = unit();
    assert(magnitude(0) == 0);
    if a.rank() > 0 {
        lemma_magnitude_increases(0, a.rank());
    }
    vstd::arithmetic::div_mod::lemma_fundamental_div_mod(v, u);
    vstd::arithmetic::div_mod::lemma_mod_bound(v, u);
    let q = v / u;
    assert(v == u * q + v % u);
    assert(q * u == u * q && (q + 1) * u == u * q + u) by (nonlinear_arith);
    assert(0 <= q < 0x1_0000_0000) by (nonlinear_arith)
        requires
            v == u * q + v % u,
            0 <= v % u < u,
            0 <= v < 0x1_0000_0000 * u,
            u > 0,
    ;
}

/// The nearest whole number is no more than half away.
pub proof fn law_the_nearest_whole_is_within_a_half(a: Scalar)
    requires
        a.finite(),
        -0x4000_0000 * unit() <= a.value() <= 0x4000_0000 * unit(),
    ensures
        2 * nearest_whole(a) * unit() - unit() <= 2 * a.value() <= 2 * nearest_whole(a) * unit() + unit(),
{
    reveal(nearest_whole);
    lemma_pow2_pos(149);
    let m = magnitude(a.rank());
    let u = unit();
    assert(magnitude(0) == 0);
    if a.rank() > 0 {
        lemma_magnitude_increases(0, a.rank());
    }
    vstd::arithmetic::div_mod::lemma_fundamental_div_mod(2 * m + u, 2 * u);
    vstd::arithmetic::div_mod::lemma_mod_bound(2 * m + u, 2 * u);
    let h = half_up(m);
    let rest = (2 * m + u) % (2 * u);
    assert(2 * m + u == (2 * u) * h + rest);
    assert(0 <= h <= 0x4000_0000) by (nonlinear_arith)
        requires
            2 * m + u == (2 * u) * h + rest,
            0 <= rest < 2 * u,
            0 <= m <= 0x4000_0000 * u,
            u > 0,
    ;
    assert((2 * u) * h == 2 * h * u && 2 * (-h) * u == -(2 * h * u)) by (nonlinear_arith);
}

} // verus!
