//! Conversion of other floating-point widths to binary32.
use crate::ieee;
use crate::single;
use vstd::arithmetic::power2::*;
use vstd::prelude::*;

verus! {

/// The implicit leading bit of a binary16 significand.
pub const HALF16: u16 = 0x0400;

/// The encoding of positive infinity in binary16.
pub const INFINITY16: u16 = 0x7C00;

/// The implicit leading bit of a binary64 significand.
pub const HALF64: u64 = 0x0010_0000_0000_0000;

/// The encoding of positive infinity in binary64.
pub const INFINITY64: u64 = 0x7FF0_0000_0000_0000;

/// The sign bit of binary64.
pub const SIGN64: u64 = 0x8000_0000_0000_0000;

/// The magnitude of a finite binary16 value in units of `2^-24`.
pub open spec fn magnitude16(h: u16) -> nat {
    ieee::units((h % 0x8000) as nat, HALF16 as nat)
}

/// A binary16 value as binary32. One unit of binary16 is `2^125` units of
/// binary32. The payload of a NaN moves to the upper fraction bits.
pub open spec fn of_binary16(h: u16) -> u32 {
    let m = (h % 0x8000) as nat;
    if m < INFINITY16 {
        single::rounded(h >= 0x8000, magnitude16(h) * pow2(125), 1)
    } else {
        single::with_sign(
            h >= 0x8000,
            (single::INFINITY + (m - INFINITY16) * 8192) as nat,
        )
    }
}

/// IEEE-754 binary16 to binary32 (subnormals, infinities and NaNs included).
pub fn f16_to_f32(h: u16) -> (r: u32)
    ensures
        r == of_binary16(h),
{
    let m: u16 = h % 0x8000;
    let negative = h >= 0x8000;
    if m >= INFINITY16 {
        return single::with_sign_of(
            negative,
            single::INFINITY + ((m - INFINITY16) as u32) * 8192,
        );
    }
    let (sig, k): (u16, u16) = if m < 2 * HALF16 {
        proof {
            lemma2_to64();
            assert(m as nat * pow2(0) == m);
        }
        (m, 0)
    } else {
        let k: u16 = m / HALF16 - 1;
        let sig: u16 = m - k * HALF16;
        proof {
            ieee::lemma_units_at(sig as nat, k as nat, HALF16 as nat);
            assert(k as nat * HALF16 as nat + sig as nat == m);
        }
        (sig, k)
    };
    let r = single::pack(sig as u64, k as i32 + 125);
    proof {
        lemma_pow2_adds(k as nat, 125);
        let (p, q) = (pow2(k as nat), pow2(125));
        assert(sig as nat * (p * q) == (sig as nat * p) * q) by (nonlinear_arith);
    }
    single::with_sign_of(negative, r)
}

/// Every finite binary16 value is exact in binary32.
pub proof fn lemma_binary16_exact(h: u16)
    requires
        h % 0x8000 < INFINITY16,
    ensures
        single::is_finite(of_binary16(h)),
        single::is_negative(of_binary16(h)) == (h >= 0x8000),
        single::magnitude(of_binary16(h)) == magnitude16(h) * pow2(125),
{
    let m = (h % 0x8000) as nat;
    let half = HALF16 as nat;
    let k: nat = if m < 2 * half {
        0
    } else {
        (m / half - 1) as nat
    };
    let sig = (m - k * half) as nat;
    ieee::lemma_units_at(sig, k, half);
    lemma_pow2_adds(k, 125);
    let (p, q) = (pow2(k), pow2(125));
    assert(sig * (p * q) == (sig * p) * q) by (nonlinear_arith);
    let big = single::HALF as nat;
    let v = sig * pow2(k + 125);
    ieee::lemma_encode_exact(sig, k + 125, big);
    // 2^11 * 2^(29 + 125) stays below the largest finite magnitude.
    lemma2_to64();
    lemma_pow2_pos(k + 125);
    if k < 29 {
        lemma_pow2_strictly_increases(k + 125, 154);
    }
    lemma_pow2_adds(11, 154);
    lemma_pow2_adds(23, 142);
    assert(v < big * pow2(142)) by (nonlinear_arith)
        requires
            v == sig * pow2(k + 125),
            sig < 2048,
            pow2(k + 125) <= pow2(154),
            2048 * pow2(154) == pow2(165),
            big * pow2(142) == pow2(165),
            pow2(154) > 0,
    ;
    let e = ieee::encode(v, 1, big);
    if e >= 143 * big {
        lemma_units_floor(e, 142, big);
    }
}

/// An encoding of at least `(k + 1) * half` stands for at least `half * 2^k`.
proof fn lemma_units_floor(mag: nat, k: nat, half: nat)
    requires
        half > 0,
        mag >= (k + 1) * half,
    ensures
        ieee::units(mag, half) >= half * pow2(k),
    decreases k,
{
    if k == 0 {
        lemma2_to64();
        assert(half * pow2(0) == half);
        assert((k + 1) * half == half) by (nonlinear_arith)
            requires
                k == 0,
        ;
        ieee::lemma_units_lower(mag, half);
    } else {
        assert((k + 1) * half >= 2 * half) by (nonlinear_arith)
            requires
                k >= 1,
                half > 0,
        ;
        assert((k + 1) * half == k * half + half) by (nonlinear_arith);
        lemma_units_floor((mag - half) as nat, (k - 1) as nat, half);
        lemma_pow2_unfold(k);
        let p = pow2((k - 1) as nat);
        assert(half * (2 * p) == 2 * (half * p)) by (nonlinear_arith);
    }
}

/// The upper half of a binary32 encoding.
pub open spec fn of_bfloat16(h: u16) -> u32 {
    (h * 0x1_0000) as u32
}

pub fn bf16_to_f32(h: u16) -> (r: u32)
    ensures
        r == of_bfloat16(h),
{
    (h as u32) * 0x1_0000
}

/// The magnitude of a finite binary64 value in units of `2^-1074`.
pub open spec fn magnitude64(bits: u64) -> nat {
    ieee::units((bits % SIGN64) as nat, HALF64 as nat)
}

pub open spec fn is_negative64(bits: u64) -> bool {
    bits >= SIGN64
}

/// Numeric equality of binary64 values; false when either is a NaN.
pub open spec fn same_number64(a: u64, b: u64) -> bool {
    let (x, y) = (a % SIGN64, b % SIGN64);
    x <= INFINITY64 && y <= INFINITY64 && (a == b || (x == 0 && y == 0))
}

pub fn equal64(a: u64, b: u64) -> (r: bool)
    ensures
        r == same_number64(a, b),
{
    let x: u64 = a % SIGN64;
    let y: u64 = b % SIGN64;
    x <= INFINITY64 && y <= INFINITY64 && (a == b || (x == 0 && y == 0))
}

/// A binary64 value rounded to binary32. One unit of binary32 is `2^925`
/// units of binary64.
pub open spec fn of_binary64(bits: u64) -> u32 {
    let m = bits % SIGN64;
    if m > INFINITY64 {
        single::QUIET_NAN
    } else if m == INFINITY64 {
        single::with_sign(is_negative64(bits), single::INFINITY as nat)
    } else {
        single::rounded(is_negative64(bits), magnitude64(bits), pow2(925))
    }
}

/// The significand and exponent step of a finite binary64 magnitude.
pub fn split64(m: u64) -> (r: (u64, i32))
    requires
        m < INFINITY64,
    ensures
        r.0 < 2 * HALF64,
        0 <= r.1 <= 2045,
        r.1 > 0 ==> r.0 >= HALF64,
        ieee::units(m as nat, HALF64 as nat) == r.0 as nat * pow2(r.1 as nat),
        r.0 == 0 <==> m == 0,
{
    if m < 2 * HALF64 {
        proof {
            lemma2_to64();
            assert(m as nat * pow2(0) == m);
        }
        (m, 0)
    } else {
        let k: u64 = m / HALF64 - 1;
        let sig: u64 = m - k * HALF64;
        proof {
            ieee::lemma_units_at(sig as nat, k as nat, HALF64 as nat);
            assert(k as nat * HALF64 as nat + sig as nat == m);
        }
        (sig, k as i32)
    }
}

pub fn f64_to_f32(bits: u64) -> (r: u32)
    ensures
        r == of_binary64(bits),
{
    let m: u64 = bits % SIGN64;
    let negative = bits >= SIGN64;
    if m > INFINITY64 {
        return single::QUIET_NAN;
    }
    if m == INFINITY64 {
        return single::with_sign_of(negative, single::INFINITY);
    }
    let (sig, k) = split64(m);
    let r = single::pack(sig, k - 925);
    proof {
        single::lemma_scaled_over(sig as nat, k as nat, 925);
    }
    single::with_sign_of(negative, r)
}


/// A binary64 value as an unsigned integer: the fraction is dropped, values
/// out of range go to the nearest bound and a NaN to zero.
pub open spec fn truncated_u32(bits: u64) -> u32 {
    let m = bits % SIGN64;
    if is_negative64(bits) || m > INFINITY64 {
        0
    } else if m == INFINITY64 || magnitude64(bits) / pow2(1074) > u32::MAX {
        u32::MAX
    } else {
        (magnitude64(bits) / pow2(1074)) as u32
    }
}

pub fn f64_to_u32(bits: u64) -> (r: u32)
    ensures
        r == truncated_u32(bits),
{
    let m: u64 = bits % SIGN64;
    if bits >= SIGN64 || m > INFINITY64 {
        return 0;
    }
    if m == INFINITY64 {
        return u32::MAX;
    }
    let (sig, k) = split64(m);
    let ghost u = sig as nat * pow2(k as nat);
    proof {
        lemma_pow2_pos(1074);
        lemma_pow2_pos(k as nat);
    }
    if k >= 1074 {
        proof {
            let p = pow2(1074);
            if k > 1074 {
                lemma_pow2_strictly_increases(1074, k as nat);
            }
            assert(u >= HALF64 as nat * p) by (nonlinear_arith)
                requires
                    u == sig as nat * pow2(k as nat),
                    sig >= HALF64,
                    pow2(k as nat) >= p,
            ;
            ieee::lemma_div_parts(u, p);
            let (q, r) = (u / p, u % p);
            assert(q >= HALF64) by (nonlinear_arith)
                requires
                    u == p * q + r,
                    r < p,
                    u >= HALF64 as nat * p,
                    p > 0,
            ;
        }
        return u32::MAX;
    }
    let s: i32 = 1074 - k;
    proof {
        // sig * 2^k / 2^1074 == sig / 2^s
        let (pk, ps) = (pow2(k as nat), pow2(s as nat));
        lemma_pow2_adds(k as nat, s as nat);
        lemma_pow2_pos(s as nat);
        ieee::lemma_div_parts(sig as nat, ps);
        let (q, r) = (sig as nat / ps, sig as nat % ps);
        assert(u == (pk * ps) * q + pk * r) by (nonlinear_arith)
            requires
                u == sig as nat * pk,
                sig as nat == ps * q + r,
        ;
        assert(pk * r < pk * ps) by (nonlinear_arith)
            requires
                r < ps,
                pk > 0,
        ;
        ieee::lemma_div_unique(u, pow2(1074), q, pk * r);
    }
    if s >= 64 {
        proof {
            lemma2_to64();
            lemma2_to64_rest();
            if s > 64 {
                lemma_pow2_strictly_increases(64, s as nat);
            }
            ieee::lemma_div_unique(sig as nat, pow2(s as nat), 0, sig as nat);
        }
        return 0;
    }
    let q: u64 = sig >> (s as u64);
    proof {
        single::lemma_shr(sig, s as u64);
    }
    if q > u32::MAX as u64 {
        u32::MAX
    } else {
        q as u32
    }
}

} // verus!
