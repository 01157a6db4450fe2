//! Reading decimal fractions as IEEE-754 binary64.
use crate::ieee;
use crate::natural::{Natural, Relation};
use crate::scan;
use crate::widths;
use vstd::arithmetic::power::*;
use vstd::arithmetic::power2::*;
use vstd::prelude::*;

verus! {

/// The magnitude nearest to `num / den` units of `2^-1074`, infinity on
/// overflow.
pub open spec fn nearest64(num: nat, den: nat) -> nat {
    let e = ieee::encode(num, den, widths::HALF64 as nat);
    if e < widths::INFINITY64 {
        e
    } else {
        widths::INFINITY64 as nat
    }
}

/// `n * 10^e`, rounded to a binary64 magnitude.
pub open spec fn scaled_decimal(n: nat, e: int) -> nat {
    if e >= 0 {
        nearest64(n * pow(10, e as nat) as nat * pow2(1074), 1)
    } else {
        nearest64(n * pow2(1074), pow(10, (-e) as nat) as nat)
    }
}

/// Twice the midpoint between the magnitudes encoded by `e` and `e + 1`.
pub open spec fn double_midpoint(e: nat, half: nat) -> nat {
    ieee::units(e, half) + ieee::units(e + 1, half)
}

/// Whether `num / den` rounds to an encoding above `e`.
pub open spec fn rounds_above(num: nat, den: nat, e: nat, half: nat) -> bool {
    let m = double_midpoint(e, half) * den;
    2 * num > m || (2 * num == m && e % 2 == 1)
}

/// Rounding goes by the midpoints.
pub proof fn lemma_rounds_above(num: nat, den: nat, e: nat, half: nat)
    requires
        den > 0,
        half > 0,
        half % 2 == 0,
    ensures
        ieee::encode(num, den, half) > e <==> rounds_above(num, den, e, half),
    decreases
            (if num >= den {
                num - den
            } else {
                0
            }),
{
    let lim = 2 * half * den;
    if num < lim {
        ieee::lemma_div_parts(num, den);
        let q = num / den;
        let r = num % den;
        assert(q < 2 * half) by (nonlinear_arith)
            requires
                num == den * q + r,
                num < 2 * half * den,
                r >= 0,
                den > 0,
        ;
        if e < 2 * half {
            assert(ieee::units(e, half) == e);
            assert(ieee::units(e + 1, half) == e + 1) by {
                if e + 1 == 2 * half {
                    assert(ieee::units(half, half) == half);
                }
            }
            let m = (2 * e + 1) * den;
            assert(2 * num - m == 2 * r - den + 2 * (q - e) * den) by (nonlinear_arith)
                requires
                    num == den * q + r,
                    m == (2 * e + 1) * den,
            ;
            if q > e {
                assert(2 * (q - e) * den >= 2 * den) by (nonlinear_arith)
                    requires
                        q - e >= 1,
                        den > 0,
                ;
            } else if q < e {
                assert(2 * (q - e) * den <= -2 * den) by (nonlinear_arith)
                    requires
                        q - e <= -1,
                        den > 0,
                ;
            } else {
                assert(2 * (q - e) * den == 0) by (nonlinear_arith)
                    requires
                        q - e == 0,
                ;
            }
        } else {
            ieee_lemma_units_high(e, half);
            ieee_lemma_units_high(e + 1, half);
            let m = double_midpoint(e, half);
            assert(m * den >= 2 * lim) by (nonlinear_arith)
                requires
                    m >= 4 * half,
                    lim == 2 * half * den,
                    den > 0,
            ;
        }
    } else {
        assert(lim >= 2 * den) by (nonlinear_arith)
            requires
                lim == 2 * half * den,
                half >= 1,
                den > 0,
        ;
        ieee::lemma_encode_lower(num, 2 * den, half);
        assert(half * (2 * den) == lim) by (nonlinear_arith)
            requires
                lim == 2 * half * den,
        ;
        if e < 2 * half {
            assert(ieee::units(e, half) == e);
            assert(ieee::units(e + 1, half) == e + 1) by {
                if e + 1 == 2 * half {
                    assert(ieee::units(half, half) == half);
                }
            }
            let m = 2 * e + 1;
            assert(m * den < 2 * lim) by (nonlinear_arith)
                requires
                    m < 4 * half,
                    lim == 2 * half * den,
                    den > 0,
            ;
        } else {
            let f = (e - half) as nat;
            lemma_rounds_above(num, 2 * den, f, half);
            let (x, y) = (ieee::units(f, half), ieee::units(f + 1, half));
            assert(ieee::units(e, half) == 2 * x);
            assert(ieee::units(e + 1, half) == 2 * y);
            assert((2 * x + 2 * y) * den == (x + y) * (2 * den)) by (nonlinear_arith);
        }
    }
}

/// An encoding of at least `2 * half` stands for at least as many units.
proof fn ieee_lemma_units_high(e: nat, half: nat)
    requires
        half > 0,
        e >= 2 * half,
    ensures
        ieee::units(e, half) >= 2 * half,
{
    ieee::lemma_units_lower((e - half) as nat, half);
}

/// Twice the midpoint above the encoding with significand `sig` and step `k`.
proof fn lemma_midpoint_at(sig: nat, k: nat, half: nat)
    requires
        half > 0,
        sig < 2 * half,
        k > 0 ==> sig >= half,
    ensures
        double_midpoint(k * half + sig, half) == (2 * sig + 1) * pow2(k),
{
    ieee::lemma_units_at(sig, k, half);
    let p = pow2(k);
    if sig + 1 < 2 * half {
        ieee::lemma_units_at(sig + 1, k, half);
    } else {
        ieee::lemma_units_at(half, k + 1, half);
        assert((k + 1) * half + half == k * half + sig + 1) by (nonlinear_arith)
            requires
                sig + 1 == 2 * half,
        ;
        lemma_pow2_unfold(k + 1);
        assert(half * (2 * p) == (sig + 1) * p) by (nonlinear_arith)
            requires
                sig + 1 == 2 * half,
        ;
    }
    assert(sig * p + (sig + 1) * p == (2 * sig + 1) * p) by (nonlinear_arith);
}

/// The magnitude nearest to `num / den` units, by bisection.
pub fn round_fraction(num: &Natural, den: &Natural) -> (r: u64)
    requires
        den@ > 0,
    ensures
        r == nearest64(num@, den@),
{
    let half: u64 = widths::HALF64;
    let twice = num.times_plus(2, 0);
    // The result is at least `lo`; it is at most `hi` unless it overflows.
    let mut lo: u64 = 0;
    let mut hi: u64 = widths::INFINITY64;
    while lo < hi
        invariant
            half == widths::HALF64,
            den@ > 0,
            twice@ == 2 * num@,
            lo <= hi <= widths::INFINITY64,
            ieee::encode(num@, den@, half as nat) >= lo,
            hi < widths::INFINITY64 ==> ieee::encode(num@, den@, half as nat) <= hi,
        decreases hi - lo,
    {
        let mid: u64 = lo + (hi - lo) / 2;
        let (sig, k): (u64, u64) = if mid < 2 * half {
            (mid, 0)
        } else {
            (mid - (mid / half - 1) * half, mid / half - 1)
        };
        proof {
            assert(k * half + sig == mid);
            lemma_midpoint_at(sig as nat, k as nat, half as nat);
            lemma_rounds_above(num@, den@, mid as nat, half as nat);
        }
        let m = den.times(2 * sig + 1).shifted(k as usize);
        proof {
            let (d, w, p) = (den@, (2 * sig + 1) as nat, pow2(k as nat));
            assert(d * w * p == (w * p) * d) by (nonlinear_arith);
        }
        let above = match twice.relation_to(&m) {
            Relation::Above => true,
            Relation::Same => mid % 2 == 1,
            Relation::Below => false,
        };
        if above {
            lo = mid + 1;
        } else {
            hi = mid;
        }
    }
    lo
}

/// A power of ten lies between powers of two.
proof fn lemma_pow10_bounds(n: nat)
    ensures
        pow(10, n) >= pow2(3 * n),
        pow(10, n) <= pow2(4 * n),
        pow(10, n) > 0,
    decreases n,
{
    lemma2_to64();
    reveal(pow);
    if n > 0 {
        lemma_pow10_bounds((n - 1) as nat);
        lemma_pow2_adds(3, 3 * (n - 1) as nat);
        lemma_pow2_adds(4, 4 * (n - 1) as nat);
        let t = pow(10, (n - 1) as nat);
        let (a, b) = (pow2(3 * (n - 1) as nat), pow2(4 * (n - 1) as nat));
        assert(10 * t >= 8 * a) by (nonlinear_arith)
            requires
                t >= a,
                t > 0,
        ;
        assert(10 * t <= 16 * b) by (nonlinear_arith)
            requires
                t <= b,
                t > 0,
        ;
    }
}

/// `x * 10^n`.
fn times_power_of_ten(x: Natural, n: u128) -> (r: Natural)
    ensures
        r@ == x@ * pow(10, n as nat),
{
    let ghost start = x@;
    let mut r = x;
    let mut i: u128 = 0;
    proof {
        reveal(pow);
        assert(start * pow(10, 0) == start);
    }
    while i < n
        invariant
            i <= n,
            r@ == start * pow(10, i as nat),
        decreases n - i,
    {
        r = r.times_plus(10, 0);
        proof {
            reveal(pow);
            let t = pow(10, i as nat);
            assert(pow(10, (i + 1) as nat) == 10 * t);
            assert(start * t * 10 == start * (10 * t)) by (nonlinear_arith);
        }
        i = i + 1;
    }
    r
}

/// A value of at least `2^1024` overflows.
proof fn lemma_overflows(num: nat)
    requires
        num >= pow2(2100),
    ensures
        nearest64(num, 1) == widths::INFINITY64,
{
    let half = widths::HALF64 as nat;
    let e = (widths::INFINITY64 - 1) as nat;
    lemma_rounds_above(num, 1, e, half);
    // e == 2045 * half + (2 * half - 1)
    lemma_midpoint_at((2 * half - 1) as nat, 2045, half);
    assert(2045 * half + (2 * half - 1) == e);
    lemma2_to64();
    lemma2_to64_rest();
    lemma_pow2_adds(54, 2045);
    lemma_pow2_strictly_increases(2099, 2100);
    lemma_pow2_pos(2045);
    let p = pow2(2045);
    assert((2 * (2 * half - 1) + 1) * p < pow2(54) * p) by (nonlinear_arith)
        requires
            2 * (2 * half - 1) + 1 < pow2(54),
            p > 0,
    ;
    assert(double_midpoint(e, half) * 1 == double_midpoint(e, half));
}

/// Less than half a unit rounds to zero.
proof fn lemma_vanishes(num: nat, den: nat)
    requires
        2 * num < den,
    ensures
        nearest64(num, den) == 0,
{
    let half = widths::HALF64 as nat;
    lemma_rounds_above(num, den, 0, half);
    assert(double_midpoint(0, half) == 1);
    assert(1 * den == den);
}

/// An integer below `2^53` has an encoding.
fn small_integer(n: u64) -> (r: u64)
    requires
        n < 0x0020_0000_0000_0000,
    ensures
        r == nearest64(n as nat * pow2(1074), 1),
{
    let half: u64 = widths::HALF64;
    if n == 0 {
        proof {
            assert(0 * pow2(1074) == 0);
            lemma_vanishes(0, 1);
        }
        return 0;
    }
    let lz: u32 = n.leading_zeros();
    proof {
        crate::single::lemma_bit_length(n);
        lemma2_to64();
        lemma2_to64_rest();
        if lz < 11 {
            if lz < 10 {
                lemma_pow2_strictly_increases(53, (63 - lz) as nat);
            }
        }
    }
    let s: u64 = (lz - 11) as u64;
    proof {
        lemma_pow2_adds((64 - lz) as nat, s as nat);
        lemma_pow2_adds((63 - lz) as nat, s as nat);
        lemma_pow2_pos(s as nat);
        let p = pow2(s as nat);
        assert(half <= n * p < 2 * half) by (nonlinear_arith)
            requires
                pow2((63 - lz) as nat) <= n < pow2((64 - lz) as nat),
                pow2((63 - lz) as nat) * p == half,
                pow2((64 - lz) as nat) * p == 2 * half,
                p > 0,
        ;
        crate::single::lemma_shl(n, s);
    }
    let sig: u64 = n << s;
    let k: u64 = 1074 - s;
    proof {
        ieee::lemma_units_at(sig as nat, k as nat, half as nat);
        ieee::lemma_encode_units((k * half + sig) as nat, half as nat);
        lemma_pow2_adds(s as nat, k as nat);
        let (p, q) = (pow2(s as nat), pow2(k as nat));
        assert(n as nat * (p * q) == (n as nat * p) * q) by (nonlinear_arith);
    }
    k * half + sig
}

proof fn lemma_digits_bound(s: Seq<u8>)
    requires
        scan::all_digits(s),
    ensures
        scan::digits_value(s) < pow(10, s.len()),
    decreases s.len(),
{
    reveal(pow);
    if s.len() > 0 {
        assert(scan::all_digits(s.drop_last())) by {
            assert forall|i: int| 0 <= i < s.drop_last().len() implies 0x30
                <= #[trigger] s.drop_last()[i] <= 0x39 by {
                assert(s[i] == s.drop_last()[i]);
            }
        }
        lemma_digits_bound(s.drop_last());
        assert(0x30 <= s[s.len() - 1] <= 0x39);
        assert(pow(10, s.len()) == 10 * pow(10, (s.len() - 1) as nat));
    }
}

/// A string of digits as a number.
fn digits_number(s: &[u8]) -> (r: Natural)
    requires
        scan::all_digits(s@),
    ensures
        r@ == scan::digits_value(s@),
{
    let mut r = Natural::from_u64(0);
    let mut i: usize = 0;
    assert(s@.take(0) =~= seq![]);
    while i < s.len()
        invariant
            i <= s@.len(),
            scan::all_digits(s@),
            r@ == scan::digits_value(s@.take(i as int)),
        decreases s@.len() - i,
    {
        assert(0x30 <= s@[i as int] <= 0x39);
        let d: u32 = (s[i] - 0x30) as u32;
        r = r.times_plus(10, d);
        assert(s@.take(i + 1).drop_last() =~= s@.take(i as int));
        i = i + 1;
    }
    assert(s@.take(s@.len() as int) =~= s@);
    r
}

/// A string of up to fifteen digits as a machine integer.
fn short_number(s: &[u8]) -> (r: u64)
    requires
        scan::all_digits(s@),
        s@.len() <= 15,
    ensures
        r == scan::digits_value(s@),
        r < 1_000_000_000_000_000,
{
    let mut r: u64 = 0;
    let mut i: usize = 0;
    proof {
        reveal(pow);
        assert(s@.take(0) =~= seq![]);
    }
    while i < s.len()
        invariant
            i <= s@.len() <= 15,
            scan::all_digits(s@),
            r == scan::digits_value(s@.take(i as int)),
            r < pow(10, i as nat),
        decreases s@.len() - i,
    {
        assert(0x30 <= s@[i as int] <= 0x39);
        proof {
            lemma_pow10_small(i as nat);
            reveal(pow);
            assert(pow(10, (i + 1) as nat) == 10 * pow(10, i as nat));
        }
        r = r * 10 + (s[i] - 0x30) as u64;
        assert(s@.take(i + 1).drop_last() =~= s@.take(i as int));
        i = i + 1;
    }
    proof {
        lemma_pow10_small(i as nat);
    }
    assert(s@.take(s@.len() as int) =~= s@);
    r
}

proof fn lemma_pow10_small(n: nat)
    requires
        n <= 15,
    ensures
        pow(10, n) <= 1_000_000_000_000_000,
{
    reveal_with_fuel(pow, 16);
}

/// Zero, whatever the exponent.
pub proof fn lemma_decimal_zero(e: int)
    ensures
        scaled_decimal(0, e) == 0,
{
    if e >= 0 {
        let t = pow(10, e as nat) as nat;
        assert(0 * t == 0 && 0 * pow2(1074) == 0);
        lemma_vanishes(0, 1);
    } else {
        lemma_pow10_bounds((-e) as nat);
        assert(0 * pow2(1074) == 0);
        lemma_vanishes(0, pow(10, (-e) as nat) as nat);
    }
}

/// Beyond `10^400` everything is infinite.
pub proof fn lemma_decimal_overflow(n: nat, e: int)
    requires
        n > 0,
        e > 400,
    ensures
        scaled_decimal(n, e) == widths::INFINITY64,
{
    // n * 10^e * 2^1074 >= 2^1200 * 2^1074
    lemma_pow10_bounds(e as nat);
    let t = pow(10, e as nat) as nat;
    lemma_pow2_strictly_increases(1200, (3 * e) as nat);
    lemma_pow2_adds(1200, 1074);
    lemma_pow2_strictly_increases(2100, 2274);
    lemma_pow2_pos(1074);
    let p = pow2(1074);
    assert(n * t * p >= pow2(1200) * p) by (nonlinear_arith)
        requires
            n >= 1,
            t >= pow2(1200),
            p > 0,
    ;
    lemma_overflows(n * t * p);
}

/// Below `10^-400` everything is zero.
pub proof fn lemma_decimal_underflow(digits: Seq<u8>, e: int)
    requires
        scan::all_digits(digits),
        e < -400 - digits.len(),
    ensures
        scaled_decimal(scan::digits_value(digits), e) == 0,
{
    // n < 10^count, so n * 2^1074 is below half of 10^-e.
    let v = scan::digits_value(digits);
    lemma_digits_bound(digits);
    let c = digits.len();
    let x = (-e - c) as nat;
    lemma_pow_adds(10, c, x);
    lemma_pow10_bounds(x);
    lemma_pow10_bounds(c);
    lemma_pow2_strictly_increases(1075, (3 * x) as nat);
    lemma_pow2_unfold(1075);
    lemma_pow2_pos(1074);
    let (a, b, p) = (pow(10, c), pow(10, x), pow2(1074));
    assert(2 * (v * p) < a * b) by (nonlinear_arith)
        requires
            v < a,
            2 * p <= b,
            p > 0,
            v >= 0,
    ;
    lemma_vanishes(v * p, pow(10, (-e) as nat) as nat);
}

/// `digits * 10^e`, rounded to a binary64 magnitude.
pub fn from_decimal(digits: &[u8], e: i128) -> (r: u64)
    requires
        scan::all_digits(digits@),
        e > i128::MIN,
    ensures
        r == scaled_decimal(scan::digits_value(digits@), e as int),
{
    if e == 0 && digits.len() <= 15 {
        let n: u64 = short_number(digits);
        proof {
            reveal(pow);
            let t = pow(10, 0) as nat;
            assert(t == 1);
            assert(n as nat * t == n as nat) by (nonlinear_arith)
                requires
                    t == 1,
            ;
        }
        return small_integer(n);
    }
    let n = digits_number(digits);
    let zero = Natural::from_u64(0);
    let ghost v = scan::digits_value(digits@);
    match n.relation_to(&zero) {
        Relation::Above => {},
        _ => {
            proof {
                lemma_decimal_zero(e as int);
            }
            return 0;
        },
    }
    if e > 400 {
        proof {
            lemma_decimal_overflow(v, e as int);
        }
        return widths::INFINITY64;
    }
    if e >= 0 {
        let scaled = times_power_of_ten(n, e as u128).shifted(1074);
        let one = Natural::from_u64(1);
        proof {
            lemma_pow10_bounds(e as nat);
            assert(scaled@ == v * pow(10, e as nat) as nat * pow2(1074));
        }
        return round_fraction(&scaled, &one);
    }
    let count: i128 = digits.len() as i128;
    if e < -400 - count {
        proof {
            lemma_decimal_underflow(digits@, e as int);
        }
        return 0;
    }
    let den = times_power_of_ten(Natural::from_u64(1), (-e) as u128);
    proof {
        lemma_pow10_bounds((-e) as nat);
        assert(1 * pow(10, (-e) as nat) == pow(10, (-e) as nat));
    }
    let num = n.shifted(1074);
    round_fraction(&num, &den)
}


/// A magnitude leaves the sign bit free.
pub proof fn lemma_magnitude(n: nat, e: int)
    ensures
        scaled_decimal(n, e) <= widths::INFINITY64,
{
}

} // verus!
