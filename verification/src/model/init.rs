//! Random initial values for adapters.
use crate::double;
use crate::ieee;
use crate::natural::{Natural, Relation};
use crate::single;
use crate::widths;
use vstd::arithmetic::power2::*;
use vstd::prelude::*;

verus! {

/// The state that follows `x`.
pub open spec fn next_state(x: u64) -> u64 {
    let a = x ^ (x >> 12);
    let b = a ^ (a << 25);
    b ^ (b >> 27)
}

/// The 53 bits drawn from a state.
pub open spec fn drawn(x: u64) -> u64 {
    x.wrapping_mul(0x2545_F491_4F6C_DD1D) >> 11
}

/// `u * 2 - 1` for a binary64 magnitude `u`, rounded to binary64.
pub open spec fn spread(u: u64) -> u64 {
    let n = 2 * ieee::units(u as nat, widths::HALF64 as nat) - pow2(1074) as int;
    if n >= 0 {
        double::nearest64(n as nat, 1) as u64
    } else {
        (widths::SIGN64 + double::nearest64((-n) as nat, 1)) as u64
    }
}

/// A state as a number in `[-1, 1]`: the drawn bits over the largest draw,
/// in binary64, spread out and rounded to binary32.
pub open spec fn uniform(x: u64) -> u32 {
    let u = double::nearest64(drawn(x) as nat * pow2(1074), (u64::MAX >> 11) as nat) as u64;
    widths::of_binary64(spread(u))
}

/// `u * 2 - 1` in binary64.
fn spread_out(u: u64) -> (r: u64)
    requires
        u < widths::INFINITY64,
    ensures
        r == spread(u),
{
    let (sig, k) = widths::split64(u);
    let one = Natural::from_u64(1).shifted(1074);
    let twice = Natural::from_u64(sig).shifted(k as usize + 1);
    let unit = Natural::from_u64(1);
    proof {
        assert(1 * pow2(1074) == pow2(1074));
        let (s, j) = (sig as nat, k as nat);
        lemma2_to64();
        lemma_pow2_adds(j, 1);
        let p = pow2(j);
        assert(s * (p * 2) == 2 * (s * p)) by (nonlinear_arith);
    }
    match twice.relation_to(&one) {
        Relation::Below => {
            let m: u64 = double::round_fraction(&one.minus(&twice), &unit);
            widths::SIGN64 + m
        },
        _ => double::round_fraction(&twice.minus(&one), &unit),
    }
}

/// Deterministic toy PRNG (uniform in `[-1, 1]`) for adapter init.
pub fn lcg(state: &mut u64) -> (r: u32)
    ensures
        *final(state) == next_state(*old(state)),
        r == uniform(*final(state)),
{
    let mut x: u64 = *state;
    x = x ^ (x >> 12);
    x = x ^ (x << 25);
    x = x ^ (x >> 27);
    *state = x;
    let n: u64 = x.wrapping_mul(0x2545_F491_4F6C_DD1D) >> 11;
    let top: u64 = u64::MAX >> 11;
    proof {
        assert(top == 0x1F_FFFF_FFFF_FFFF) by (bit_vector)
            requires
                top == 0xFFFF_FFFF_FFFF_FFFFu64 >> 11u64,
        ;
        assert(n <= 0x1F_FFFF_FFFF_FFFF) by {
            let y = x.wrapping_mul(0x2545_F491_4F6C_DD1D);
            assert(y >> 11u64 <= 0x1F_FFFF_FFFF_FFFF) by (bit_vector);
        }
    }
    let u: u64 = double::round_fraction(
        &Natural::from_u64(n).shifted(1074),
        &Natural::from_u64(top),
    );
    proof {
        lemma_fraction(n as nat, top as nat);
    }
    widths::f64_to_f32(spread_out(u))
}

/// What is at most one rounds to at most one.
proof fn lemma_at_most_one(num: nat, den: nat)
    requires
        den > 0,
        num <= pow2(1074) * den,
    ensures
        ieee::encode(num, den, widths::HALF64 as nat) <= 1023 * widths::HALF64,
{
    let h = widths::HALF64 as nat;
    let e = 1023 * h;
    let (one, p) = (pow2(1074), pow2(1022));
    lemma2_to64_rest();
    lemma_pow2_adds(52, 1022);
    lemma_pow2_pos(1022);
    ieee::lemma_units_at(h, 1022, h);
    ieee::lemma_units_at(h + 1, 1022, h);
    assert(1022 * h + h == e);
    assert((h + 1) * p == h * p + p) by (nonlinear_arith);
    double::lemma_rounds_above(num, den, e, h);
    assert(2 * num < (one + one + p) * den) by (nonlinear_arith)
        requires
            num <= one * den,
            den > 0,
            p > 0,
            one >= 0,
    ;
}

/// The same for binary32.
proof fn lemma_at_most_one_single(num: nat, den: nat)
    requires
        den > 0,
        num <= pow2(149) * den,
    ensures
        ieee::encode(num, den, single::HALF as nat) <= single::ONE,
{
    let h = single::HALF as nat;
    let (one, p) = (pow2(149), pow2(126));
    lemma2_to64();
    lemma_pow2_adds(23, 126);
    lemma_pow2_pos(126);
    ieee::lemma_units_at(h, 126, h);
    ieee::lemma_units_at(h + 1, 126, h);
    assert(126 * h + h == single::ONE);
    assert((h + 1) * p == h * p + p) by (nonlinear_arith);
    double::lemma_rounds_above(num, den, single::ONE as nat, h);
    assert(2 * num < (one + one + p) * den) by (nonlinear_arith)
        requires
            num <= one * den,
            den > 0,
            p > 0,
            one >= 0,
    ;
}

/// A fraction of at most one is finite.
proof fn lemma_fraction(n: nat, d: nat)
    requires
        n <= d,
        d > 0,
    ensures
        double::nearest64(n * pow2(1074), d) <= 1023 * widths::HALF64,
{
    let one = pow2(1074);
    assert(n * one <= one * d) by (nonlinear_arith)
        requires
            n <= d,
            one >= 0,
    ;
    lemma_at_most_one(n * one, d);
}

/// Every draw lies in `[-1, 1]`.
pub proof fn lemma_uniform_range(x: u64)
    ensures
        !single::is_nan(uniform(x)),
        single::mag(uniform(x)) <= single::ONE,
{
    let top = (u64::MAX >> 11) as nat;
    let n = drawn(x);
    let y = x.wrapping_mul(0x2545_F491_4F6C_DD1D);
    assert(y >> 11u64 <= 0x1F_FFFF_FFFF_FFFF) by (bit_vector);
    assert(0xFFFF_FFFF_FFFF_FFFFu64 >> 11u64 == 0x1F_FFFF_FFFF_FFFF) by (bit_vector);
    let h = widths::HALF64 as nat;
    let one = pow2(1074);
    lemma_fraction(n as nat, top);
    let u = double::nearest64(n as nat * one, top) as u64;
    lemma_units_within(u as nat);
    let d = 2 * ieee::units(u as nat, h) - one as int;
    let m = if d >= 0 {
        d as nat
    } else {
        (-d) as nat
    };
    assert(one * 1 == one);
    lemma_at_most_one(m, 1);
    let s = spread(u);
    lemma_units_within((s % widths::SIGN64) as nat);
    lemma_pow2_adds(149, 925);
    lemma_pow2_pos(925);
    lemma_at_most_one_single(widths::magnitude64(s), pow2(925));
}

/// Encodings up to that of one stand for at most one.
proof fn lemma_units_within(e: nat)
    requires
        e <= 1023 * widths::HALF64,
    ensures
        ieee::units(e, widths::HALF64 as nat) <= pow2(1074),
{
    let h = widths::HALF64 as nat;
    let b = 1023 * h;
    lemma2_to64_rest();
    lemma_pow2_adds(52, 1022);
    ieee::lemma_units_at(h, 1022, h);
    assert(1022 * h + h == b);
    lemma_units_order(e, b, h);
}

/// Larger encodings stand for larger magnitudes.
proof fn lemma_units_order(a: nat, b: nat, half: nat)
    requires
        a <= b,
        half > 0,
    ensures
        ieee::units(a, half) <= ieee::units(b, half),
    decreases b,
{
    if b >= 2 * half {
        if a >= 2 * half {
            lemma_units_order((a - half) as nat, (b - half) as nat, half);
        } else {
            lemma_units_order(half, (b - half) as nat, half);
        }
    }
}

} // verus!
