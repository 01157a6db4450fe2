//! IEEE-754 binary32 arithmetic on bit patterns.
//!
//! Every operation rounds the exact result to nearest, ties to even. An
//! invalid operation and an operation on a NaN give [`QUIET_NAN`]; apart from
//! that choice the results are those of the hardware.
use crate::ieee;
use vstd::arithmetic::power2::*;
use vstd::prelude::*;

verus! {

/// The implicit leading bit of a significand.
pub const HALF: u32 = 0x0080_0000;

/// The encoding of positive infinity.
pub const INFINITY: u32 = 0x7F80_0000;

/// The encoding of negative infinity.
pub const NEG_INFINITY: u32 = 0xFF80_0000;

/// The sign bit.
pub const SIGN: u32 = 0x8000_0000;

/// The NaN that arithmetic returns.
pub const QUIET_NAN: u32 = 0x7FC0_0000;

/// The encoding of `1.0`.
pub const ONE: u32 = 0x3F80_0000;

/// `bits` without its sign.
pub open spec fn mag(bits: u32) -> nat {
    (bits % SIGN) as nat
}

pub open spec fn is_negative(bits: u32) -> bool {
    bits >= SIGN
}

pub open spec fn is_nan(bits: u32) -> bool {
    mag(bits) > INFINITY
}

pub open spec fn is_infinite(bits: u32) -> bool {
    mag(bits) == INFINITY
}

pub open spec fn is_finite(bits: u32) -> bool {
    mag(bits) < INFINITY
}

/// The magnitude of a finite value in units of `2^-149`.
pub open spec fn magnitude(bits: u32) -> nat {
    ieee::units(mag(bits), HALF as nat)
}

/// A finite value in units of `2^-149`.
pub open spec fn value(bits: u32) -> int {
    if is_negative(bits) {
        -(magnitude(bits) as int)
    } else {
        magnitude(bits) as int
    }
}

pub open spec fn with_sign(negative: bool, mag: nat) -> u32 {
    if negative {
        (mag + SIGN) as u32
    } else {
        mag as u32
    }
}

/// The encoding of the magnitude nearest to `num / den` units, infinity on
/// overflow.
pub open spec fn clamped(enc: nat) -> nat {
    if enc < INFINITY {
        enc
    } else {
        INFINITY as nat
    }
}

/// `num / den` units, rounded, with the given sign.
pub open spec fn rounded(negative: bool, num: nat, den: nat) -> u32 {
    with_sign(negative, clamped(ieee::encode(num, den, HALF as nat)))
}

pub open spec fn bit_length(m: u64) -> int {
    64 - vstd::std_specs::bits::u64_leading_zeros(m)
}

pub proof fn lemma_bit_length(m: u64)
    requires
        m > 0,
    ensures
        1 <= bit_length(m) <= 64,
        pow2((bit_length(m) - 1) as nat) <= m,
        m < pow2(bit_length(m) as nat),
    decreases m,
{
    reveal(vstd::std_specs::bits::u64_leading_zeros);
    if m == 1 {
        lemma2_to64();
        assert(vstd::std_specs::bits::u64_leading_zeros(0) == 64);
    } else {
        lemma_bit_length(m / 2);
        lemma_pow2_unfold(bit_length(m) as nat);
        lemma_pow2_unfold((bit_length(m) - 1) as nat);
        if bit_length(m) > 64 {
            lemma2_to64();
            lemma2_to64_rest();
        }
    }
}


pub proof fn lemma_shl(m: u64, s: u64)
    requires
        s < 64,
        m * pow2(s as nat) <= u64::MAX,
    ensures
        m << s == m * pow2(s as nat),
{
    vstd::bits::lemma_u64_shl_is_mul(m, s);
}

pub proof fn lemma_shr(m: u64, s: u64)
    requires
        s < 64,
    ensures
        m >> s == m as nat / pow2(s as nat),
{
    vstd::bits::lemma_u64_shr_is_div(m, s);
}

/// The significand and exponent step of a finite magnitude.
pub(crate) fn split(m: u32) -> (r: (u64, i32))
    requires
        m < INFINITY,
    ensures
        r.0 < 2 * HALF,
        0 <= r.1 <= 253,
        r.1 > 0 ==> r.0 >= HALF,
        ieee::units(m as nat, HALF as nat) == r.0 as nat * pow2(r.1 as nat),
        r.0 == 0 <==> m == 0,
{
    if m < 0x0100_0000 {
        proof {
            lemma2_to64();
            assert(m as nat * pow2(0) == m);
        }
        (m as u64, 0)
    } else {
        let k: u32 = m / HALF - 1;
        let sig: u32 = m - k * HALF;
        proof {
            ieee::lemma_units_at(sig as nat, k as nat, HALF as nat);
            assert(k as nat * HALF as nat + sig as nat == m);
        }
        (sig as u64, k as i32)
    }
}

/// Rounds `m * 2^e` units to the nearest magnitude.
pub(crate) fn pack(m: u64, e: i32) -> (r: u32)
    requires
        -2000 < e < 2000,
    ensures
        r == clamped(ieee::encode_scaled(m as nat, e as int, HALF as nat)),
        r <= INFINITY,
{
    if m == 0 {
        proof {
            assert(0 * pow2(e as nat) == 0);
            if e < 0 {
                lemma_pow2_pos((-e) as nat);
                ieee::lemma_div_unique(0, pow2((-e) as nat), 0, 0);
            }
            reveal_with_fuel(ieee::encode, 2);
            assert(2 * HALF as nat * pow2((-e) as nat) > 0 || e >= 0) by (nonlinear_arith)
                requires
                    e < 0 ==> pow2((-e) as nat) > 0,
                    HALF == 0x80_0000,
            ;
        }
        return 0;
    }
    let len: i32 = 64 - (m.leading_zeros() as i32);
    proof {
        lemma_bit_length(m);
        lemma2_to64();
        lemma2_to64_rest();
    }
    let d: i32 = if len - 24 >= -e {
        len - 24
    } else {
        -e
    };
    let k: i32 = e + d;
    let sig: u64;
    if d <= 0 {
        let s: u64 = (-d) as u64;
        proof {
            lemma_pow2_adds(len as nat, (24 - len) as nat);
            lemma_pow2_adds((len - 1) as nat, (24 - len) as nat);
            let ps = pow2(s as nat);
            if s < 24 - len {
                lemma_pow2_strictly_increases(s as nat, (24 - len) as nat);
            }
            assert(m * ps < 0x100_0000) by (nonlinear_arith)
                requires
                    m < pow2(len as nat),
                    ps <= pow2((24 - len) as nat),
                    pow2(len as nat) * pow2((24 - len) as nat) == 0x100_0000,
                    ps > 0,
            {
                assert(m * ps < pow2(len as nat) * ps);
                assert(pow2(len as nat) * ps <= pow2(len as nat) * pow2((24 - len) as nat));
            }
            if k > 0 {
                assert(s == 24 - len);
                assert(m * ps >= 0x80_0000) by (nonlinear_arith)
                    requires
                        m >= pow2((len - 1) as nat),
                        pow2((len - 1) as nat) * ps == 0x80_0000,
                        ps > 0,
                ;
            }
            lemma_shl(m, s);
            if d == 0 {
                assert(pow2(0) == 1);
                assert(m * 1 == m);
                ieee::lemma_div_unique(m as nat, 1, m as nat, 0);
            }
            ieee::lemma_encode_scaled_at(m as nat, e as int, d as int, HALF as nat);
        }
        sig = m << s;
    } else if d > 64 {
        proof {
            lemma_pow2_strictly_increases(64, d as nat);
            lemma_pow2_unfold(d as nat);
            if d > 65 {
                lemma_pow2_strictly_increases(64, (d - 1) as nat);
            }
            ieee::lemma_div_unique(m as nat, pow2(d as nat), 0, m as nat);
            assert(2 * HALF as nat * pow2(d as nat) > m) by (nonlinear_arith)
                requires
                    pow2(d as nat) > m,
                    HALF == 0x80_0000,
            ;
            ieee::lemma_encode_scaled_at(m as nat, e as int, d as int, HALF as nat);
            assert(0 * HALF == 0);
        }
        return 0;
    } else if d == 64 {
        proof {
            ieee::lemma_div_unique(m as nat, pow2(64), 0, m as nat);
            ieee::lemma_encode_scaled_at(m as nat, e as int, d as int, HALF as nat);
            assert(0 * HALF == 0);
        }
        if m > 0x8000_0000_0000_0000 {
            return 1;
        } else {
            return 0;
        }
    } else {
        let q: u64 = m >> (d as u64);
        let low: u64 = 1u64 << ((d - 1) as u64);
        proof {
            lemma_pow2_pos((d - 1) as nat);
            if d < 63 {
                lemma_pow2_strictly_increases((d - 1) as nat, 63);
            }
            assert(1 * pow2((d - 1) as nat) == pow2((d - 1) as nat));
            lemma_shl(1, (d - 1) as u64);
            lemma_pow2_unfold(d as nat);
            lemma_shr(m, d as u64);
            ieee::lemma_div_parts(m as nat, pow2(d as nat));
            assert(pow2(d as nat) == 2 * low);
        }
        let kept: u64 = q << (d as u64);
        proof {
            let pd = pow2(d as nat);
            assert(q * pd <= m) by (nonlinear_arith)
                requires
                    m == pd * q + m as nat % pd,
            ;
            lemma_shl(q, d as u64);
            assert(q * pd == pd * q) by (nonlinear_arith);
        }
        let rem: u64 = m - kept;
        proof {
            let pd = pow2(d as nat);
            assert(rem == m as nat % pd);
            // The significand has at most 24 bits, and exactly 24 in a normal binade.
            lemma_pow2_adds(24, d as nat);
            if len < 24 + d {
                lemma_pow2_strictly_increases(len as nat, (24 + d) as nat);
            }
            assert(m < 2 * HALF as nat * pd);
            if k > 0 {
                lemma_pow2_adds(23, d as nat);
                assert(len - 1 == 23 + d);
                assert(m >= HALF as nat * pd);
            }
            assert(q < 0x100_0000) by (nonlinear_arith)
                requires
                    m == pd * q + rem,
                    m < 0x100_0000 * pd,
                    rem >= 0,
                    pd > 0,
            ;
            ieee::lemma_encode_scaled_at(m as nat, e as int, d as int, HALF as nat);
        }
        if rem > low || (rem == low && q % 2 == 1) {
            sig = q + 1;
        } else {
            sig = q;
        }
    }
    proof {
        assert(ieee::encode_scaled(m as nat, e as int, HALF as nat) == k * HALF + sig);
    }
    if k >= 255 {
        return INFINITY;
    }
    let r: u32 = (k as u32) * HALF + sig as u32;
    if r < INFINITY {
        r
    } else {
        INFINITY
    }
}


/// The exact sum of two finite values, rounded; the sum of two opposite values
/// is `+0`, that of two negative zeros `-0`.
pub open spec fn sum(a: u32, b: u32) -> u32 {
    if is_nan(a) || is_nan(b) {
        QUIET_NAN
    } else if is_infinite(a) {
        if is_infinite(b) && is_negative(a) != is_negative(b) {
            QUIET_NAN
        } else {
            a
        }
    } else if is_infinite(b) {
        b
    } else {
        let v = value(a) + value(b);
        if v == 0 {
            with_sign(is_negative(a) && is_negative(b), 0)
        } else if v < 0 {
            rounded(true, (-v) as nat, 1)
        } else {
            rounded(false, v as nat, 1)
        }
    }
}

pub open spec fn negation(a: u32) -> u32 {
    with_sign(!is_negative(a), mag(a))
}

pub open spec fn absolute(a: u32) -> u32 {
    mag(a) as u32
}

/// `a - b`.
pub open spec fn difference(a: u32, b: u32) -> u32 {
    sum(a, negation(b))
}

/// The exact product, rounded.
pub open spec fn product(a: u32, b: u32) -> u32 {
    let negative = is_negative(a) != is_negative(b);
    if is_nan(a) || is_nan(b) {
        QUIET_NAN
    } else if is_infinite(a) || is_infinite(b) {
        if mag(a) == 0 || mag(b) == 0 {
            QUIET_NAN
        } else {
            with_sign(negative, INFINITY as nat)
        }
    } else {
        rounded(negative, magnitude(a) * magnitude(b), pow2(149))
    }
}

/// The exact quotient, rounded.
pub open spec fn quotient(a: u32, b: u32) -> u32 {
    let negative = is_negative(a) != is_negative(b);
    if is_nan(a) || is_nan(b) {
        QUIET_NAN
    } else if is_infinite(a) {
        if is_infinite(b) {
            QUIET_NAN
        } else {
            with_sign(negative, INFINITY as nat)
        }
    } else if is_infinite(b) {
        with_sign(negative, 0)
    } else if mag(b) == 0 {
        if mag(a) == 0 {
            QUIET_NAN
        } else {
            with_sign(negative, INFINITY as nat)
        }
    } else {
        rounded(negative, magnitude(a) * pow2(149), magnitude(b))
    }
}

/// Position of a number on the real line; `-0` and `+0` coincide.
pub open spec fn order_key(a: u32) -> int {
    if is_negative(a) {
        -(mag(a) as int)
    } else {
        mag(a) as int
    }
}

/// Numeric `a < b`; false when either is a NaN.
pub open spec fn below(a: u32, b: u32) -> bool {
    !is_nan(a) && !is_nan(b) && order_key(a) < order_key(b)
}

/// Numeric equality; false when either is a NaN.
pub open spec fn same_number(a: u32, b: u32) -> bool {
    !is_nan(a) && !is_nan(b) && order_key(a) == order_key(b)
}

/// The larger of two numbers; a NaN gives way to the other argument.
pub open spec fn larger(a: u32, b: u32) -> u32 {
    if is_nan(b) || below(b, a) {
        a
    } else if is_nan(a) || below(a, b) {
        b
    } else {
        a
    }
}

pub fn with_sign_of(negative: bool, m: u32) -> (r: u32)
    requires
        m < SIGN,
    ensures
        r == with_sign(negative, m as nat),
{
    if negative {
        m + SIGN
    } else {
        m
    }
}

pub fn negate(a: u32) -> (r: u32)
    ensures
        r == negation(a),
{
    if a >= SIGN {
        a - SIGN
    } else {
        a + SIGN
    }
}

pub fn abs(a: u32) -> (r: u32)
    ensures
        r == absolute(a),
{
    a % SIGN
}

pub fn less(a: u32, b: u32) -> (r: bool)
    ensures
        r == below(a, b),
{
    let x: u32 = a % SIGN;
    let y: u32 = b % SIGN;
    if x > INFINITY || y > INFINITY {
        return false;
    }
    if a >= SIGN {
        if b >= SIGN {
            y < x
        } else {
            x > 0 || y > 0
        }
    } else if b >= SIGN {
        false
    } else {
        x < y
    }
}

pub fn equal(a: u32, b: u32) -> (r: bool)
    ensures
        r == same_number(a, b),
{
    let x: u32 = a % SIGN;
    let y: u32 = b % SIGN;
    x <= INFINITY && y <= INFINITY && (a == b || (x == 0 && y == 0))
}

/// Whether two lists hold the same numbers; a NaN is not the same as anything.
pub open spec fn same_numbers(a: Seq<u32>, b: Seq<u32>) -> bool {
    &&& a.len() == b.len()
    &&& forall|i: int| 0 <= i < a.len() ==> same_number(#[trigger] a[i], b[i])
}

pub fn equal_lists(a: &[u32], b: &[u32]) -> (r: bool)
    ensures
        r == same_numbers(a@, b@),
{
    if a.len() != b.len() {
        return false;
    }
    let mut i: usize = 0;
    while i < a.len()
        invariant
            i <= a@.len() == b@.len(),
            forall|j: int| 0 <= j < i ==> same_number(#[trigger] a@[j], b@[j]),
        decreases a@.len() - i,
    {
        if !equal(a[i], b[i]) {
            assert(!same_number(a@[i as int], b@[i as int]));
            return false;
        }
        i = i + 1;
    }
    true
}

pub fn max(a: u32, b: u32) -> (r: u32)
    ensures
        r == larger(a, b),
{
    if b % SIGN > INFINITY || less(b, a) {
        a
    } else if a % SIGN > INFINITY || less(a, b) {
        b
    } else {
        a
    }
}

/// Aligned significands are added exactly.
proof fn lemma_align(ma: nat, ea: nat, eb: nat)
    requires
        ea >= eb,
    ensures
        ma * pow2(ea) == (ma * pow2((ea - eb) as nat)) * pow2(eb),
{
    lemma_pow2_adds((ea - eb) as nat, eb);
    let p = pow2((ea - eb) as nat);
    let q = pow2(eb);
    assert(ma * (p * q) == (ma * p) * q) by (nonlinear_arith);
}

/// A summand more than 38 binades below the other only decides whether the
/// sum is exact.
proof fn lemma_far_sum(ma: nat, ea: nat, mb: nat, eb: nat, add: bool)
    requires
        HALF <= ma < 2 * HALF,
        0 < mb < 2 * HALF,
        ea >= eb + 39,
    ensures
        ({
            let v = if add {
                (ma * pow2(ea) + mb * pow2(eb)) as int
            } else {
                ma * pow2(ea) - mb * pow2(eb)
            };
            let m = if add {
                (ma * 1024 + 1) as int
            } else {
                ma * 1024 - 1
            };
            &&& v > 0
            &&& m > 0
            &&& ieee::encode_scaled(m as nat, ea - 10, HALF as nat) == ieee::encode(
                v as nat,
                1,
                HALF as nat,
            )
        }),
{
    let h = HALF as nat;
    let g = (ea - 10) as nat;
    let pg = pow2(g);
    lemma_pow2_pos(g);
    lemma_pow2_pos(eb);
    lemma2_to64();
    lemma_pow2_adds(10, g);
    let pb = pow2(eb);
    assert(ma * pow2(ea) == (ma * 1024) * pg) by (nonlinear_arith)
        requires
            pow2(ea) == 1024 * pg,
    ;
    // mb * 2^eb is less than one step of the wider grid.
    lemma_pow2_adds(24, eb);
    if 24 + eb < g {
        lemma_pow2_strictly_increases(24 + eb, g);
    }
    assert(mb * pb < pg) by (nonlinear_arith)
        requires
            mb < 0x100_0000,
            pb > 0,
            0x100_0000 * pb <= pg,
    ;
    assert(mb * pb > 0) by (nonlinear_arith)
        requires
            mb > 0,
            pb > 0,
    ;
    let a = ma * 1024;
    assert(a * pg >= pg) by (nonlinear_arith)
        requires
            a >= 1,
            pg > 0,
    ;
    let small = mb * pb;
    if add {
        let v = (a * pg + small) as nat;
        assert(a * pg == pg * a) by (nonlinear_arith);
        ieee::lemma_div_unique(v, pg, a as nat, small);
        assert(ieee::to_odd(v, pg) == a + 1);
        ieee::lemma_encode_scaled_to_odd(v, pg, g as int, h);
        ieee::lemma_encode_scale(v, 1, pg, h);
        assert(v * pg == pg * v) by (nonlinear_arith);
        assert(pg * 1 == pg);
    } else {
        let v = (a * pg - small) as nat;
        let r = (pg - small) as nat;
        assert(a * pg == pg * (a - 1) + pg) by (nonlinear_arith);
        ieee::lemma_div_unique(v, pg, (a - 1) as nat, r);
        assert(ieee::to_odd(v, pg) == a - 1);
        ieee::lemma_encode_scaled_to_odd(v, pg, g as int, h);
        ieee::lemma_encode_scale(v, 1, pg, h);
        assert(v * pg == pg * v) by (nonlinear_arith);
        assert(pg * 1 == pg);
    }
}

/// Adds finite magnitudes `ma * 2^ea` and `mb * 2^eb` with `ea >= eb`, the
/// second one subtracted when the signs differ.
fn add_ordered(neg_a: bool, ma: u64, ea: i32, neg_b: bool, mb: u64, eb: i32) -> (r: u32)
    requires
        ma < 2 * HALF,
        mb < 2 * HALF,
        0 <= eb <= ea <= 253,
        ea > 0 ==> ma >= HALF,
    ensures
        ({
            let va = ma as nat * pow2(ea as nat);
            let vb = mb as nat * pow2(eb as nat);
            let v = (if neg_a {
                -(va as int)
            } else {
                va as int
            }) + (if neg_b {
                -(vb as int)
            } else {
                vb as int
            });
            if v == 0 {
                r == with_sign(neg_a && neg_b, 0)
            } else if v < 0 {
                r == rounded(true, (-v) as nat, 1)
            } else {
                r == rounded(false, v as nat, 1)
            }
        }),
{
    let ghost va = ma as nat * pow2(ea as nat);
    let ghost vb = mb as nat * pow2(eb as nat);
    let diff: i32 = ea - eb;
    if diff <= 38 {
        let s: u64 = diff as u64;
        let ghost pe = pow2(eb as nat);
        proof {
            lemma_align(ma as nat, ea as nat, eb as nat);
            lemma_pow2_pos(eb as nat);
            lemma2_to64();
            lemma2_to64_rest();
            if diff < 38 {
                lemma_pow2_strictly_increases(diff as nat, 38);
            }
            assert(ma * pow2(s as nat) < 0x100_0000 * 0x40_0000_0000) by (nonlinear_arith)
                requires
                    ma < 0x100_0000,
                    pow2(s as nat) <= 0x40_0000_0000,
                    pow2(s as nat) > 0,
            ;
            lemma_shl(ma, s);
        }
        let x: u64 = ma << s;
        assert(va == x as nat * pe);
        if neg_a == neg_b {
            let m: u64 = x + mb;
            let r = pack(m, eb);
            proof {
                assert(va + vb == m as nat * pe) by (nonlinear_arith)
                    requires
                        va == x as nat * pe,
                        vb == mb as nat * pe,
                        m == x + mb,
                ;
                if m == 0 {
                    assert(m as nat * pe == 0) by (nonlinear_arith)
                        requires
                            m == 0,
                    ;
                    reveal_with_fuel(ieee::encode, 2);
                } else {
                    assert(m as nat * pe > 0) by (nonlinear_arith)
                        requires
                            m > 0,
                            pe > 0,
                    ;
                }
            }
            with_sign_of(neg_a, r)
        } else if x == mb {
            assert(va == vb);
            0
        } else if x > mb {
            let m: u64 = x - mb;
            let r = pack(m, eb);
            proof {
                assert(va - vb == m as nat * pe && va - vb > 0) by (nonlinear_arith)
                    requires
                        va == x as nat * pe,
                        vb == mb as nat * pe,
                        m == x - mb,
                        m > 0,
                        pe > 0,
                ;
            }
            with_sign_of(neg_a, r)
        } else {
            let m: u64 = mb - x;
            let r = pack(m, eb);
            proof {
                assert(vb - va == m as nat * pe && vb - va > 0) by (nonlinear_arith)
                    requires
                        va == x as nat * pe,
                        vb == mb as nat * pe,
                        m == mb - x,
                        m > 0,
                        pe > 0,
                ;
            }
            with_sign_of(neg_b, r)
        }
    } else if mb == 0 {
        let r = pack(ma, ea);
        proof {
            assert(vb == 0) by (nonlinear_arith)
                requires
                    vb == mb as nat * pow2(eb as nat),
                    mb == 0,
            ;
            lemma_pow2_pos(ea as nat);
            assert(va > 0) by (nonlinear_arith)
                requires
                    va == ma as nat * pow2(ea as nat),
                    ma > 0,
                    pow2(ea as nat) > 0,
            ;
        }
        with_sign_of(neg_a, r)
    } else {
        let same = neg_a == neg_b;
        let m: u64 = if same {
            ma * 1024 + 1
        } else {
            ma * 1024 - 1
        };
        proof {
            lemma_far_sum(ma as nat, ea as nat, mb as nat, eb as nat, same);
        }
        let r = pack(m, ea - 10);
        with_sign_of(neg_a, r)
    }
}

/// `a + b`.
pub fn plus(a: u32, b: u32) -> (r: u32)
    ensures
        r == sum(a, b),
{
    let x: u32 = a % SIGN;
    let y: u32 = b % SIGN;
    let neg_a = a >= SIGN;
    let neg_b = b >= SIGN;
    if x > INFINITY || y > INFINITY {
        return QUIET_NAN;
    }
    if x == INFINITY {
        return if y == INFINITY && neg_a != neg_b {
            QUIET_NAN
        } else {
            a
        };
    }
    if y == INFINITY {
        return b;
    }
    let (ma, ea) = split(x);
    let (mb, eb) = split(y);
    if ea >= eb {
        add_ordered(neg_a, ma, ea, neg_b, mb, eb)
    } else {
        add_ordered(neg_b, mb, eb, neg_a, ma, ea)
    }
}

/// `a - b`.
pub fn minus(a: u32, b: u32) -> (r: u32)
    ensures
        r == difference(a, b),
{
    plus(a, negate(b))
}

/// `m * 2^(e - 149)` with a common factor taken out.
pub proof fn lemma_scaled_over(m: nat, e: nat, den: nat)
    ensures
        ieee::encode_scaled(m, e - den, HALF as nat) == ieee::encode(
            m * pow2(e),
            pow2(den),
            HALF as nat,
        ),
{
    let h = HALF as nat;
    if e >= den {
        let t = (e - den) as nat;
        lemma_pow2_adds(t, den);
        lemma_pow2_pos(den);
        let (p, q) = (pow2(t), pow2(den));
        assert(m * (p * q) == q * (m * p)) by (nonlinear_arith);
        assert(q * 1 == q);
        ieee::lemma_encode_scale(m * p, 1, q, h);
    } else {
        let t = (den - e) as nat;
        lemma_pow2_adds(t, e);
        lemma_pow2_pos(t);
        lemma_pow2_pos(e);
        let (p, q) = (pow2(t), pow2(e));
        assert(m * q == q * m) by (nonlinear_arith);
        assert(p * q == q * p) by (nonlinear_arith);
        ieee::lemma_encode_scale(m, p, q, h);
    }
}

/// `a * b`.
pub fn times(a: u32, b: u32) -> (r: u32)
    ensures
        r == product(a, b),
{
    let x: u32 = a % SIGN;
    let y: u32 = b % SIGN;
    let negative = (a >= SIGN) != (b >= SIGN);
    if x > INFINITY || y > INFINITY {
        return QUIET_NAN;
    }
    if x == INFINITY || y == INFINITY {
        return if x == 0 || y == 0 {
            QUIET_NAN
        } else {
            with_sign_of(negative, INFINITY)
        };
    }
    let (ma, ea) = split(x);
    let (mb, eb) = split(y);
    assert(ma * mb < 0x100_0000 * 0x100_0000) by (nonlinear_arith)
        requires
            ma < 0x100_0000,
            mb < 0x100_0000,
    ;
    let m: u64 = ma * mb;
    let r = pack(m, ea + eb - 149);
    proof {
        let e = (ea + eb) as nat;
        lemma_pow2_adds(ea as nat, eb as nat);
        let (p, q) = (pow2(ea as nat), pow2(eb as nat));
        assert((ma as nat * p) * (mb as nat * q) == (ma as nat * mb as nat) * (p * q))
            by (nonlinear_arith);
        lemma_scaled_over(m as nat, e, 149);
        assert(magnitude(a) * magnitude(b) == m as nat * pow2(e));
    }
    with_sign_of(negative, r)
}

/// The odd-rounded quotient of a normalised significand.
proof fn lemma_quotient_scaled(x: nat, y: nat, e: int)
    requires
        y > 0,
        x % y == 0 || ieee::to_odd(x, y) >= 4 * HALF,
    ensures
        e >= 0 ==> ieee::encode_scaled(ieee::to_odd(x, y), e, HALF as nat) == ieee::encode(
            x * pow2(e as nat),
            y,
            HALF as nat,
        ),
        e < 0 ==> ieee::encode_scaled(ieee::to_odd(x, y), e, HALF as nat) == ieee::encode(
            x,
            y * pow2((-e) as nat),
            HALF as nat,
        ),
{
    ieee::lemma_encode_scaled_to_odd(x, y, e, HALF as nat);
}

/// Powers of two taken out of a quotient.
proof fn lemma_quotient_powers(ma: nat, ea: nat, mb: nat, eb: nat, lz: nat)
    requires
        mb > 0,
    ensures
        ({
            let e = ea - eb + 149 - lz;
            let x = ma * pow2(lz);
            let full = ieee::encode(
                ma * pow2(ea) * pow2(149),
                mb * pow2(eb),
                HALF as nat,
            );
            &&& e >= 0 ==> full == ieee::encode(x * pow2(e as nat), mb, HALF as nat)
            &&& e < 0 ==> full == ieee::encode(x, mb * pow2((-e) as nat), HALF as nat)
        }),
{
    let h = HALF as nat;
    let e = ea - eb + 149 - lz;
    let x = ma * pow2(lz);
    lemma_pow2_pos(eb);
    lemma_pow2_pos(lz);
    lemma_pow2_pos(ea);
    lemma_pow2_pos(149);
    lemma_pow2_adds(ea, 149);
    let pb = pow2(eb);
    let num = ma * pow2(ea) * pow2(149);
    assert(num == ma * pow2(ea + 149)) by (nonlinear_arith)
        requires
            num == ma * pow2(ea) * pow2(149),
            pow2(ea + 149) == pow2(ea) * pow2(149),
    ;
    if e >= 0 {
        // ea + 149 == eb + lz + e
        lemma_pow2_adds(lz, e as nat);
        lemma_pow2_adds(eb, (lz + e) as nat);
        let pe = pow2(e as nat);
        let pl = pow2(lz);
        assert(num == pb * (x * pe)) by (nonlinear_arith)
            requires
                num == ma * (pb * (pl * pe)),
                x == ma * pl,
        ;
        assert(mb * pb == pb * mb) by (nonlinear_arith);
        ieee::lemma_encode_scale(x * pe, mb, pb, h);
    } else {
        // ea + 149 + (-e) == eb + lz
        let ne = (-e) as nat;
        lemma_pow2_pos(ne);
        let pa = pow2(ea + 149);
        lemma_pow2_pos(ea + 149);
        let pn = pow2(ne);
        let pl = pow2(lz);
        lemma_pow2_adds(ea + 149, ne);
        lemma_pow2_adds(eb, lz);
        assert(pa * pn == pb * pl);
        // scale both fractions to a common form
        assert(mb * pb > 0) by (nonlinear_arith)
            requires
                mb > 0,
                pb > 0,
        ;
        assert(mb * pn > 0) by (nonlinear_arith)
            requires
                mb > 0,
                pn > 0,
        ;
        ieee::lemma_encode_scale(ma * pa, mb * pb, pl, h);
        ieee::lemma_encode_scale(x, mb * pn, pa, h);
        assert(pl * (ma * pa) == pa * x) by (nonlinear_arith)
            requires
                x == ma * pl,
        ;
        assert(pl * (mb * pb) == pa * (mb * pn)) by (nonlinear_arith)
            requires
                pa * pn == pb * pl,
        ;
    }
}

/// `a / b`.
pub fn over(a: u32, b: u32) -> (r: u32)
    ensures
        r == quotient(a, b),
{
    let x: u32 = a % SIGN;
    let y: u32 = b % SIGN;
    let negative = (a >= SIGN) != (b >= SIGN);
    if x > INFINITY || y > INFINITY {
        return QUIET_NAN;
    }
    if x == INFINITY {
        return if y == INFINITY {
            QUIET_NAN
        } else {
            with_sign_of(negative, INFINITY)
        };
    }
    if y == INFINITY {
        return with_sign_of(negative, 0);
    }
    if y == 0 {
        return if x == 0 {
            QUIET_NAN
        } else {
            with_sign_of(negative, INFINITY)
        };
    }
    let (ma, ea) = split(x);
    let (mb, eb) = split(y);
    if x == 0 {
        proof {
            lemma_pow2_pos(eb as nat);
            let u = magnitude(b);
            assert(u > 0) by (nonlinear_arith)
                requires
                    u == mb as nat * pow2(eb as nat),
                    mb > 0,
                    pow2(eb as nat) > 0,
            ;
            assert(magnitude(a) * pow2(149) == 0) by (nonlinear_arith)
                requires
                    magnitude(a) == ma as nat * pow2(ea as nat),
                    ma == 0,
            ;
            ieee::lemma_div_unique(0, u, 0, 0);
            assert(2 * HALF as nat * u > 0) by (nonlinear_arith)
                requires
                    u > 0,
                    HALF == 0x80_0000,
            ;
        }
        return with_sign_of(negative, 0);
    }
    let lz: u32 = ma.leading_zeros();
    proof {
        lemma_bit_length(ma);
        lemma2_to64();
        lemma2_to64_rest();
        lemma_pow2_adds((64 - lz) as nat, lz as nat);
        lemma_pow2_adds((63 - lz) as nat, lz as nat);
        let p = pow2(lz as nat);
        lemma_pow2_pos(lz as nat);
        assert(0x8000_0000_0000_0000 <= ma * p < 0x1_0000_0000_0000_0000) by (nonlinear_arith)
            requires
                pow2((63 - lz) as nat) <= ma < pow2((64 - lz) as nat),
                pow2((63 - lz) as nat) * p == 0x8000_0000_0000_0000,
                pow2((64 - lz) as nat) * p == 0x1_0000_0000_0000_0000,
                p > 0,
        ;
        lemma_shl(ma, lz as u64);
    }
    let n: u64 = ma << (lz as u64);
    let q: u64 = n / mb;
    proof {
        ieee::lemma_div_parts(n as nat, mb as nat);
        assert(q >= 0x80_0000_0000) by (nonlinear_arith)
            requires
                n == mb * q + (n as nat % mb as nat),
                n as nat % (mb as nat) < mb,
                n >= 0x8000_0000_0000_0000,
                mb < 0x100_0000,
        ;
        assert(q <= n) by (nonlinear_arith)
            requires
                n == mb * q + (n as nat % mb as nat),
                mb >= 1,
        ;
    }
    let m: u64 = if n % mb == 0 || q % 2 == 1 {
        q
    } else {
        if q == u64::MAX {
            proof {
                assert(q % 2 == 1);
            }
            q
        } else {
            q + 1
        }
    };
    let e: i32 = ea - eb + 149 - (lz as i32);
    let r = pack(m, e);
    proof {
        assert(m == ieee::to_odd(n as nat, mb as nat));
        lemma_quotient_scaled(n as nat, mb as nat, e as int);
        lemma_quotient_powers(ma as nat, ea as nat, mb as nat, eb as nat, lz as nat);
    }
    with_sign_of(negative, r)
}


/// The square root, rounded. In units it is the root of the magnitude times
/// `2^149`, far above the range in which every integer has an encoding.
pub open spec fn root(a: u32) -> u32 {
    if is_nan(a) {
        QUIET_NAN
    } else if mag(a) == 0 {
        a
    } else if is_negative(a) {
        QUIET_NAN
    } else if is_infinite(a) {
        INFINITY
    } else {
        rounded(false, ieee::double_root(magnitude(a) * pow2(149)), 2)
    }
}

/// The integer part of the square root of a 64-bit integer.
fn integer_root(m: u64) -> (r: u64)
    ensures
        r == ieee::floor_root(m as nat),
        r <= 0xFFFF_FFFF,
{
    let mut lo: u64 = 0;
    let mut hi: u64 = 0x1_0000_0000;
    assert(0x1_0000_0000 * 0x1_0000_0000 > m);
    while hi - lo > 1
        invariant
            lo < hi <= 0x1_0000_0000,
            lo * lo <= m < hi * hi,
        decreases hi - lo,
    {
        let mid: u64 = lo + (hi - lo) / 2;
        assert(mid * mid <= 0xFFFF_FFFF * 0xFFFF_FFFF) by (nonlinear_arith)
            requires
                mid <= 0xFFFF_FFFF,
        ;
        if mid * mid <= m {
            lo = mid;
        } else {
            hi = mid;
        }
    }
    proof {
        ieee::lemma_floor_root_unique(m as nat, lo as nat);
    }
    lo
}

/// `sqrt(a)`.
pub fn sqrt(a: u32) -> (r: u32)
    ensures
        r == root(a),
{
    let x: u32 = a % SIGN;
    if x > INFINITY {
        return QUIET_NAN;
    }
    if x == 0 {
        return a;
    }
    if a >= SIGN {
        return QUIET_NAN;
    }
    if x == INFINITY {
        return INFINITY;
    }
    let (m, k) = split(x);
    let lz: u32 = m.leading_zeros();
    proof {
        lemma_bit_length(m);
        lemma2_to64();
        lemma2_to64_rest();
        if lz < 40 {
            lemma_pow2_strictly_increases(24, (64 - lz) as nat);
            if lz < 39 {
                lemma_pow2_strictly_increases(24, (63 - lz) as nat);
            }
        }
    }
    // An even exponent is left over when the significand is moved up by t bits.
    let t: u32 = if (k + 149 - (lz as i32)) % 2 == 0 {
        lz
    } else {
        lz - 1
    };
    proof {
        let p = pow2(t as nat);
        lemma_pow2_pos(t as nat);
        lemma_pow2_adds((64 - lz) as nat, lz as nat);
        lemma_pow2_adds((63 - lz) as nat, (lz - 1) as nat);
        if t < lz {
            lemma_pow2_strictly_increases(t as nat, lz as nat);
        } else {
            lemma_pow2_strictly_increases((lz - 1) as nat, t as nat);
        }
        assert(m * p < 0x1_0000_0000_0000_0000) by (nonlinear_arith)
            requires
                m < pow2((64 - lz) as nat),
                p <= pow2(lz as nat),
                pow2((64 - lz) as nat) * pow2(lz as nat) == 0x1_0000_0000_0000_0000,
                p > 0,
        ;
        assert(m * p >= 0x4000_0000_0000_0000) by (nonlinear_arith)
            requires
                m >= pow2((63 - lz) as nat),
                p >= pow2((lz - 1) as nat),
                pow2((63 - lz) as nat) * pow2((lz - 1) as nat) == 0x4000_0000_0000_0000,
                p > 0,
        ;
        lemma_shl(m, t as u64);
    }
    let n: u64 = m << (t as u64);
    let s: u64 = integer_root(n);
    let j: i32 = (k + 149 - (t as i32)) / 2;
    proof {
        ieee::lemma_floor_root(n as nat);
        assert(s >= 0x7FFF_FFFF) by (nonlinear_arith)
            requires
                n < (s + 1) * (s + 1),
                n >= 0x4000_0000_0000_0000,
        ;
        assert(s * s <= 0xFFFF_FFFF * 0xFFFF_FFFF) by (nonlinear_arith)
            requires
                s <= 0xFFFF_FFFF,
        ;
    }
    let d: u64 = if s * s == n {
        2 * s
    } else {
        2 * s + 1
    };
    let r = pack(d, j - 1);
    proof {
        ieee::lemma_double_root_scaled(n as nat, j as nat, HALF as nat);
        // magnitude * 2^149 == n * 4^j
        let (pj, pt, pk) = (pow2(j as nat), pow2(t as nat), pow2(k as nat));
        lemma_pow2_adds(j as nat, j as nat);
        lemma_pow2_adds(t as nat, (2 * j) as nat);
        lemma_pow2_adds(k as nat, 149);
        assert(m * pt * (pj * pj) == m * (pt * (pj * pj))) by (nonlinear_arith);
        assert(m * pk * pow2(149) == m * (pk * pow2(149))) by (nonlinear_arith);
        assert(n as nat * (pj * pj) == magnitude(a) * pow2(149));
    }
    r
}

/// An integer, rounded.
pub open spec fn of_integer(n: int) -> u32 {
    if n < 0 {
        rounded(true, (-n) as nat * pow2(149), 1)
    } else {
        rounded(false, n as nat * pow2(149), 1)
    }
}

pub fn from_u64(n: u64) -> (r: u32)
    ensures
        r == of_integer(n as int),
{
    pack(n, 149)
}

/// `-m`.
pub fn from_negated(m: u64) -> (r: u32)
    requires
        m > 0,
    ensures
        r == of_integer(-(m as int)),
{
    with_sign_of(true, pack(m, 149))
}

/// A finite value rounded to an integer, halves going away from zero.
pub open spec fn nearest_integer(a: u32) -> int {
    let m = (2 * magnitude(a) + pow2(149)) / pow2(150);
    if is_negative(a) {
        -(m as int)
    } else {
        m as int
    }
}

/// The nearest integer in `-127 ..= 127`; zero for a NaN.
pub open spec fn nearest_int8(a: u32) -> int {
    if is_nan(a) {
        0
    } else if is_infinite(a) || nearest_integer(a) < -127 || nearest_integer(a) > 127 {
        if is_negative(a) {
            -127
        } else {
            127
        }
    } else {
        nearest_integer(a)
    }
}

/// A signed byte as stored in an unsigned one.
pub open spec fn as_byte(n: int) -> u8 {
    if n < 0 {
        (n + 256) as u8
    } else {
        n as u8
    }
}

/// The signed reading of a byte.
pub open spec fn as_signed(b: u8) -> int {
    if b >= 128 {
        b - 256
    } else {
        b as int
    }
}

/// A byte holding `a` rounded to the nearest integer in `-127 ..= 127`.
pub fn round_to_int8(a: u32) -> (r: u8)
    ensures
        r == as_byte(nearest_int8(a)),
{
    let x: u32 = a % SIGN;
    if x > INFINITY {
        return 0;
    }
    let m: u8 = if x == INFINITY {
        127
    } else {
        let (sig, k) = split(x);
        proof {
            lemma_pow2_pos(149);
            lemma_pow2_unfold(150);
        }
        let ghost half = pow2(149);
        let ghost u = sig as nat * pow2(k as nat);
        if k >= 134 {
            proof {
                lemma2_to64();
                lemma_pow2_adds(15, 134);
                if k > 134 {
                    lemma_pow2_strictly_increases(134, k as nat);
                }
                let p = pow2(134);
                lemma_pow2_pos(134);
                assert(u >= 128 * half) by (nonlinear_arith)
                    requires
                        u == sig as nat * pow2(k as nat),
                        sig >= 0x80_0000,
                        pow2(k as nat) >= p,
                        half == 0x8000 * p,
                        p > 0,
                ;
                ieee::lemma_div_parts(2 * u + half, 2 * half);
                let q = (2 * u + half) / (2 * half);
                let r = (2 * u + half) % (2 * half);
                assert(q >= 128) by (nonlinear_arith)
                    requires
                        2 * u + half == (2 * half) * q + r,
                        r < 2 * half,
                        u >= 128 * half,
                        half > 0,
                ;
            }
            127
        } else if k <= 124 {
            proof {
                lemma2_to64();
                lemma_pow2_adds(24, 125);
                lemma_pow2_unfold(125);
                if k < 124 {
                    lemma_pow2_strictly_increases(k as nat, 124);
                }
                let p = pow2(124);
                lemma_pow2_pos(124);
                assert(2 * u < half) by (nonlinear_arith)
                    requires
                        u == sig as nat * pow2(k as nat),
                        sig < 0x100_0000,
                        pow2(k as nat) <= p,
                        half == 0x100_0000 * (2 * p),
                        p > 0,
                ;
                ieee::lemma_div_unique(2 * u + half, 2 * half, 0, 2 * u + half);
            }
            0
        } else {
            let s: u64 = (149 - k) as u64;
            proof {
                lemma2_to64();
                lemma_pow2_adds((s - 1) as nat, 1);
                lemma_pow2_strictly_increases((s - 1) as nat, 25);
                assert(1 * pow2((s - 1) as nat) == pow2((s - 1) as nat));
                lemma_shl(1, (s - 1) as u64);
            }
            let low: u64 = 1u64 << ((s - 1) as u64);
            let q: u64 = (sig + low) >> s;
            proof {
                lemma_shr((sig + low) as u64, s);
                let ps = pow2(s as nat);
                let pk = pow2(k as nat);
                lemma_pow2_pos(s as nat);
                lemma_pow2_pos(k as nat);
                lemma_pow2_adds(k as nat, s as nat);
                let n = (sig + low) as nat;
                ieee::lemma_div_parts(n, ps);
                let r = n % ps;
                assert(2 * u + half == (2 * half) * q + (2 * pk) * r) by (nonlinear_arith)
                    requires
                        u == sig as nat * pk,
                        half == pk * ps,
                        ps == 2 * low,
                        n == sig + low,
                        n == ps * q + r,
                ;
                assert((2 * pk) * r < 2 * half) by (nonlinear_arith)
                    requires
                        r < ps,
                        half == pk * ps,
                        pk > 0,
                ;
                ieee::lemma_div_unique(2 * u + half, 2 * half, q as nat, (2 * pk) * r);
            }
            if q > 127 {
                127
            } else {
                q as u8
            }
        }
    };
    if a >= SIGN && m > 0 {
        (256u16 - m as u16) as u8
    } else {
        m
    }
}

/// The value of a signed byte.
pub fn from_int8(b: u8) -> (r: u32)
    ensures
        r == of_integer(as_signed(b)),
{
    if b >= 128 {
        from_negated(256 - b as u64)
    } else {
        from_u64(b as u64)
    }
}

/// The largest finite value in units.
pub open spec fn largest_finite() -> nat {
    (0x100_0000 - 1) as nat * pow2(253)
}

/// No finite value is larger, and every encoding of a number of units below
/// the next power of two is finite.
pub proof fn lemma_largest_finite(enc: nat)
    ensures
        enc < INFINITY ==> ieee::units(enc, HALF as nat) <= largest_finite(),
        ieee::units(enc, HALF as nat) < 0x100_0000 * pow2(253) ==> enc < INFINITY,
{
    let h = HALF as nat;
    ieee::lemma_units_at(0xFF_FFFF, 253, h);
    ieee::lemma_units_at(h, 254, h);
    lemma_pow2_unfold(254);
    assert(h * (2 * pow2(253)) == 0x100_0000 * pow2(253)) by (nonlinear_arith)
        requires
            h == 0x80_0000,
    ;
    if enc < INFINITY {
        ieee::lemma_units_ordered(enc, (INFINITY - 1) as nat, h);
    } else {
        ieee::lemma_units_ordered(INFINITY as nat, enc, h);
    }
}

/// A signed encoding is taken apart again.
pub proof fn lemma_with_sign(negative: bool, m: nat)
    requires
        m <= INFINITY,
    ensures
        mag(with_sign(negative, m)) == m,
        is_negative(with_sign(negative, m)) == negative,
{
}

/// What rounding does to a quotient that is not too large: the result is finite
/// and off by at most half a unit or one part in `2^24`.
pub proof fn lemma_rounded(negative: bool, num: nat, den: nat)
    requires
        den > 0,
        num <= den * largest_finite(),
    ensures
        is_finite(rounded(negative, num, den)),
        is_negative(rounded(negative, num, den)) == negative,
        ({
            let e = ieee::apart((magnitude(rounded(negative, num, den)) * den) as int, num as int);
            2 * e <= den || 0x100_0000 * e <= num
        }),
{
    let h = HALF as nat;
    let enc = ieee::encode(num, den, h);
    let u = ieee::units(enc, h);
    let p = pow2(253);
    lemma_pow2_pos(253);
    ieee::lemma_encode_error(num, den, h);
    let e = ieee::apart((u * den) as int, num as int);
    assert(u < 0x100_0000 * p) by (nonlinear_arith)
        requires
            u * den <= num + e,
            2 * e <= den || 0x100_0000 * e <= num,
            num <= den * (0xFF_FFFF * p),
            den > 0,
            p > 0,
    ;
    lemma_largest_finite(enc);
    lemma_with_sign(negative, clamped(enc));
}

/// The product of two finite values, where it is not too large.
pub proof fn lemma_product_error(a: u32, b: u32)
    requires
        is_finite(a),
        is_finite(b),
        magnitude(a) * magnitude(b) <= pow2(149) * largest_finite(),
    ensures
        is_finite(product(a, b)),
        ({
            let e = ieee::apart(value(product(a, b)) * pow2(149), value(a) * value(b));
            2 * e <= pow2(149) || 0x100_0000 * e <= magnitude(a) * magnitude(b)
        }),
{
    let (x, y) = (magnitude(a), magnitude(b));
    let u = pow2(149);
    let negative = is_negative(a) != is_negative(b);
    lemma_pow2_pos(149);
    lemma_rounded(negative, x * y, u);
    let z = magnitude(product(a, b));
    assert((-(x as int)) * y == -(x * y) && x * (-(y as int)) == -(x * y) && (-(x as int)) * (-(
    y as int)) == x * y && (-(z as int)) * u == -(z * u)) by (nonlinear_arith);
}

/// The quotient of two finite values, where it is not too large.
pub proof fn lemma_quotient_error(a: u32, b: u32)
    requires
        is_finite(a),
        is_finite(b),
        magnitude(b) > 0,
        magnitude(a) * pow2(149) <= magnitude(b) * largest_finite(),
    ensures
        is_finite(quotient(a, b)),
        ({
            let e = ieee::apart(value(quotient(a, b)) * value(b), value(a) * pow2(149));
            2 * e <= magnitude(b) || 0x100_0000 * e <= magnitude(a) * pow2(149)
        }),
{
    let (x, y) = (magnitude(a), magnitude(b));
    let u = pow2(149);
    let negative = is_negative(a) != is_negative(b);
    if mag(b) == 0 {
        assert(magnitude(b) == 0);
    }
    lemma_rounded(negative, x * u, y);
    let z = magnitude(quotient(a, b));
    assert((-(z as int)) * y == -(z * y) && z * (-(y as int)) == -(z * y) && (-(z as int)) * (-(
    y as int)) == z * y && (-(x as int)) * u == -(x * u)) by (nonlinear_arith);
}

/// The difference of two finite values, where it is not too large.
pub proof fn lemma_difference_error(a: u32, b: u32)
    requires
        is_finite(a),
        is_finite(b),
        ieee::apart(value(a), value(b)) <= largest_finite(),
    ensures
        is_finite(difference(a, b)),
        0x100_0000 * ieee::apart(
            magnitude(difference(a, b)) as int,
            ieee::apart(value(a), value(b)),
        ) <= ieee::apart(value(a), value(b)),
{
    lemma_with_sign(!is_negative(b), mag(b));
    assert(value(negation(b)) == -value(b));
    let v = value(a) - value(b);
    if v == 0 {
        lemma_with_sign(is_negative(a) && is_negative(negation(b)), 0);
        assert(magnitude(difference(a, b)) == 0);
    } else {
        let n = ieee::apart(value(a), value(b)) as nat;
        lemma_rounded(v < 0, n, 1);
        let z = magnitude(difference(a, b));
        assert((z * 1) as int == z);
    }
}

/// The product of two finite values of at most `2^(24 + j)` units.
pub proof fn lemma_product_within(a: u32, b: u32, j: nat)
    requires
        is_finite(a),
        is_finite(b),
        magnitude(a) * magnitude(b) <= pow2(149) * largest_finite(),
        magnitude(a) * magnitude(b) <= 0x100_0000 * pow2(149) * pow2(j),
    ensures
        2 * ieee::apart(value(product(a, b)) * pow2(149), value(a) * value(b)) <= pow2(149) * pow2(
            j,
        ),
{
    let (x, y) = (magnitude(a), magnitude(b));
    let u = pow2(149);
    let negative = is_negative(a) != is_negative(b);
    lemma_pow2_pos(149);
    lemma_rounded(negative, x * y, u);
    ieee::lemma_encode_within(x * y, u, j, HALF as nat);
    lemma_with_sign(negative, clamped(ieee::encode(x * y, u, HALF as nat)));
    let z = magnitude(product(a, b));
    assert((-(x as int)) * y == -(x * y) && x * (-(y as int)) == -(x * y) && (-(x as int)) * (-(
    y as int)) == x * y && (-(z as int)) * u == -(z * u)) by (nonlinear_arith);
}

/// The quotient of two finite values of at most `2^(24 + j)` units.
pub proof fn lemma_quotient_within(a: u32, b: u32, j: nat)
    requires
        is_finite(a),
        is_finite(b),
        magnitude(b) > 0,
        magnitude(a) * pow2(149) <= magnitude(b) * largest_finite(),
        magnitude(a) * pow2(149) <= 0x100_0000 * magnitude(b) * pow2(j),
    ensures
        2 * ieee::apart(value(quotient(a, b)) * value(b), value(a) * pow2(149)) <= magnitude(b)
            * pow2(j),
{
    let (x, y) = (magnitude(a), magnitude(b));
    let u = pow2(149);
    let negative = is_negative(a) != is_negative(b);
    if mag(b) == 0 {
        assert(magnitude(b) == 0);
    }
    lemma_rounded(negative, x * u, y);
    ieee::lemma_encode_within(x * u, y, j, HALF as nat);
    lemma_with_sign(negative, clamped(ieee::encode(x * u, y, HALF as nat)));
    let z = magnitude(quotient(a, b));
    assert((-(z as int)) * y == -(z * y) && z * (-(y as int)) == -(z * y) && (-(z as int)) * (-(
    y as int)) == z * y && (-(x as int)) * u == -(x * u)) by (nonlinear_arith);
}

} // verus!
