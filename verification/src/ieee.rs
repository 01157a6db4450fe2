//! Rounding of exact rational values to IEEE-754 binary formats.
//!
//! A finite magnitude is counted in *units*, where one unit is the smallest
//! positive subnormal of the format. Encodings of finite magnitudes are then
//! consecutive integers: an encoding below `2 * half` (with `half` the value
//! of the implicit leading bit) is its own number of units, and adding `half`
//! to an encoding of at least `half` doubles its value. Both rounding
//! ([`encode`]) and reading back ([`units`]) follow this rule directly.
use vstd::arithmetic::power2::*;
use vstd::prelude::*;

verus! {

/// The integer nearest to `num / den`, ties going to the even neighbour.
pub open spec fn nearest(num: nat, den: nat) -> nat {
    let q = num / den;
    let r = num % den;
    if 2 * r > den || (2 * r == den && q % 2 == 1) {
        q + 1
    } else {
        q
    }
}

/// The encoding of the magnitude nearest to `num / den` units, without an
/// upper limit: each doubling of the spacing between representable values
/// advances the encoding by `half`.
pub open spec fn encode(num: nat, den: nat, half: nat) -> nat
    decreases
            (if num >= den {
                num - den
            } else {
                0
            }),
{
    if den == 0 || half == 0 || num < 2 * half * den {
        nearest(num, den)
    } else {
        proof {
            assert(2 * half * den >= 2 * den) by (nonlinear_arith)
                requires
                    half >= 1,
                    den >= 1,
            ;
        }
        half + encode(num, 2 * den, half)
    }
}

/// The number of units that the finite encoding `mag` stands for.
pub open spec fn units(mag: nat, half: nat) -> nat
    decreases mag,
{
    if half == 0 || mag < 2 * half {
        mag
    } else {
        2 * units((mag - half) as nat, half)
    }
}

/// How far two integers are apart.
pub open spec fn apart(a: int, b: int) -> int {
    if a < b {
        b - a
    } else {
        a - b
    }
}

/// `num / den` rounded to odd: exact quotients are kept, all others become the
/// odd one of the two neighbouring integers.
pub open spec fn to_odd(num: nat, den: nat) -> nat {
    let q = num / den;
    if num % den == 0 || q % 2 == 1 {
        q
    } else {
        q + 1
    }
}

/// [`encode`] of `m * 2^e` units.
pub open spec fn encode_scaled(m: nat, e: int, half: nat) -> nat {
    if e >= 0 {
        encode(m * pow2(e as nat), 1, half)
    } else {
        encode(m, pow2((-e) as nat), half)
    }
}

pub proof fn lemma_div_unique(num: nat, den: nat, q: nat, r: nat)
    requires
        den > 0,
        num == den * q + r,
        r < den,
    ensures
        num / den == q,
        num % den == r,
{
    assert(den * q == q * den) by (nonlinear_arith);
    vstd::arithmetic::div_mod::lemma_fundamental_div_mod_converse(
        num as int,
        den as int,
        q as int,
        r as int,
    );
}

pub proof fn lemma_div_parts(num: nat, den: nat)
    requires
        den > 0,
    ensures
        num == den * (num / den) + num % den,
        num % den < den,
{
    vstd::arithmetic::div_mod::lemma_fundamental_div_mod(num as int, den as int);
}

pub proof fn lemma_nearest_scale(num: nat, den: nat, c: nat)
    requires
        den > 0,
        c > 0,
    ensures
        nearest(c * num, c * den) == nearest(num, den),
{
    lemma_div_parts(num, den);
    let q = num / den;
    let r = num % den;
    assert(c * num == (c * den) * q + c * r) by (nonlinear_arith)
        requires
            num == den * q + r,
    ;
    assert(c * r < c * den) by (nonlinear_arith)
        requires
            r < den,
            c > 0,
    ;
    assert(c * den > 0) by (nonlinear_arith)
        requires
            c > 0,
            den > 0,
    ;
    lemma_div_unique(c * num, c * den, q, c * r);
    assert((2 * r > den) == (2 * (c * r) > c * den)) by (nonlinear_arith)
        requires
            c > 0,
    ;
    assert((2 * r == den) == (2 * (c * r) == c * den)) by (nonlinear_arith)
        requires
            c > 0,
    ;
}

/// Rounding depends on the quotient only.
pub proof fn lemma_encode_scale(num: nat, den: nat, c: nat, half: nat)
    requires
        den > 0,
        c > 0,
        half > 0,
    ensures
        encode(c * num, c * den, half) == encode(num, den, half),
    decreases
            (if num >= den {
                num - den
            } else {
                0
            }),
{
    assert(c * den > 0) by (nonlinear_arith)
        requires
            c > 0,
            den > 0,
    ;
    assert((num < 2 * half * den) == (c * num < 2 * half * (c * den))) by (nonlinear_arith)
        requires
            c > 0,
    ;
    if num < 2 * half * den {
        lemma_nearest_scale(num, den, c);
    } else {
        assert(2 * half * den >= 2 * den) by (nonlinear_arith)
            requires
                half >= 1,
                den >= 1,
        ;
        lemma_encode_scale(num, 2 * den, c, half);
        assert(c * (2 * den) == 2 * (c * den)) by (nonlinear_arith);
    }
}

/// Dividing by `den * s` rounds as dividing the odd-rounded quotient by `s`,
/// when at least two more bits are dropped.
pub proof fn lemma_nearest_to_odd(num: nat, den: nat, s: nat)
    requires
        den > 0,
        s > 0,
        s % 4 == 0,
    ensures
        nearest(num, den * s) == nearest(to_odd(num, den), s),
{
    lemma_div_parts(num, den);
    let q = num / den;
    let r = num % den;
    lemma_div_parts(q, s);
    let a = q / s;
    let b = q % s;
    assert(num == (den * s) * a + (den * b + r)) by (nonlinear_arith)
        requires
            num == den * q + r,
            q == s * a + b,
    ;
    assert(den * b + r < den * s) by (nonlinear_arith)
        requires
            b + 1 <= s,
            r < den,
            den > 0,
    ;
    assert(den * s > 0) by (nonlinear_arith)
        requires
            den > 0,
            s > 0,
    ;
    lemma_div_unique(num, den * s, a, (den * b + r) as nat);
    let h = s / 2;
    let m = to_odd(num, den);
    let b2: nat = if r == 0 || q % 2 == 1 {
        b
    } else {
        b + 1
    };
    assert(q % 2 == b % 2) by {
        assert((s * a) % 2 == 0) by (nonlinear_arith)
            requires
                s % 4 == 0,
        {
            assert(s * a == 2 * ((s / 2) * a));
        }
    }
    assert(m == s * a + b2);
    lemma_div_unique(m, s, a, b2);
    if b < h {
        assert(2 * (den * b + r) < den * s) by (nonlinear_arith)
            requires
                b + 1 <= h,
                s == 2 * h,
                r < den,
                den > 0,
        ;
    } else if b == h {
        assert(2 * (den * b + r) == den * s + 2 * r) by (nonlinear_arith)
            requires
                b == h,
                s == 2 * h,
        ;
    } else {
        assert(2 * (den * b + r) > den * s) by (nonlinear_arith)
            requires
                b >= h + 1,
                s == 2 * h,
                r >= 0,
                den > 0,
        ;
    }
}

/// Rounding may start from the odd-rounded quotient when that keeps at least
/// two bits more than the format.
pub proof fn lemma_encode_to_odd(num: nat, den: nat, s: nat, half: nat)
    requires
        den > 0,
        half > 0,
        s == 1 || s == 2 || s % 4 == 0,
        s > 0,
        num % den == 0 || s % 4 == 0 || to_odd(num, den) >= 4 * half,
    ensures
        encode(num, den * s, half) == encode(to_odd(num, den), s, half),
    decreases
            (if num >= den * s {
                num - den * s
            } else {
                0
            }),
{
    lemma_div_parts(num, den);
    let q = num / den;
    let r = num % den;
    let m = to_odd(num, den);
    let lim = 2 * half * s;
    assert(lim % 2 == 0) by (nonlinear_arith)
        requires
            lim == 2 * half * s,
    {
        assert(lim == 2 * (half * s));
    }
    assert(den * s > 0) by (nonlinear_arith)
        requires
            den > 0,
            s > 0,
    ;
    assert(2 * half * (den * s) == den * lim) by (nonlinear_arith)
        requires
            lim == 2 * half * s,
    ;
    assert((num < den * lim) == (q < lim)) by (nonlinear_arith)
        requires
            num == den * q + r,
            r < den,
            den > 0,
    ;
    assert((q < lim) == (m < lim));
    if num < 2 * half * (den * s) {
        if r == 0 {
            assert(num == den * m);
            lemma_nearest_scale(m, s, den);
        } else {
            if s % 4 != 0 {
                assert(false) by {
                    assert(2 * half * s <= 4 * half) by (nonlinear_arith)
                        requires
                            s <= 2,
                    ;
                }
            }
            lemma_nearest_to_odd(num, den, s);
        }
    } else {
        assert(den * (2 * s) == 2 * (den * s)) by (nonlinear_arith);
        assert(2 * half * (den * s) >= 2 * (den * s)) by (nonlinear_arith)
            requires
                half >= 1,
                den * s >= 1,
        ;
        lemma_encode_to_odd(num, den, 2 * s, half);
    }
}

/// When the spacing at `num / den` is `2^k` units, the encoding is the
/// significand plus `k` steps of `half`.
pub proof fn lemma_encode_at(num: nat, den: nat, k: nat, half: nat)
    requires
        den > 0,
        half > 0,
        num < 2 * half * (den * pow2(k)),
        k > 0 ==> num >= half * (den * pow2(k)),
    ensures
        encode(num, den, half) == k * half + nearest(num, den * pow2(k)),
    decreases k,
{
    lemma_pow2_pos(k);
    if k == 0 {
        lemma2_to64();
        assert(den * pow2(0) == den);
    } else {
        lemma_pow2_unfold(k);
        let p = pow2((k - 1) as nat);
        lemma_pow2_pos((k - 1) as nat);
        assert(half * (den * (2 * p)) == 2 * half * den * p) by (nonlinear_arith);
        assert(2 * half * den * p >= 2 * half * den) by (nonlinear_arith)
            requires
                p >= 1,
        ;
        assert(den * (2 * p) == (2 * den) * p) by (nonlinear_arith);
        if k > 1 {
            assert(num >= half * ((2 * den) * p));
        }
        lemma_encode_at(num, 2 * den, (k - 1) as nat, half);
        assert((k - 1) * half + half == k * half) by (nonlinear_arith);
    }
}

/// Reading an encoding back and rounding it again changes nothing.
pub proof fn lemma_encode_units(mag: nat, half: nat)
    requires
        half > 0,
    ensures
        encode(units(mag, half), 1, half) == mag,
    decreases mag,
{
    if mag >= 2 * half {
        let rest = (mag - half) as nat;
        lemma_encode_units(rest, half);
        lemma_units_lower(rest, half);
        let u = units(rest, half);
        assert(2 * u >= 2 * half * 1);
        lemma_encode_scale(u, 1, 2, half);
    }
}

pub proof fn lemma_units_lower(mag: nat, half: nat)
    requires
        half > 0,
        mag >= half,
    ensures
        units(mag, half) >= half,
    decreases mag,
{
    if mag >= 2 * half {
        lemma_units_lower((mag - half) as nat, half);
    }
}

/// An encoding of exponent step `k` stands for its significand times `2^k`.
pub proof fn lemma_units_at(sig: nat, k: nat, half: nat)
    requires
        half > 0,
        sig < 2 * half,
        k > 0 ==> sig >= half,
    ensures
        units(k * half + sig, half) == sig * pow2(k),
    decreases k,
{
    if k == 0 {
        lemma2_to64();
        assert(0 * half == 0);
        assert(sig * pow2(0) == sig);
    } else {
        lemma_pow2_unfold(k);
        assert(k * half == (k - 1) * half + half) by (nonlinear_arith);
        lemma_units_at(sig, (k - 1) as nat, half);
        let p = pow2((k - 1) as nat);
        assert(2 * (sig * p) == sig * (2 * p)) by (nonlinear_arith);
        assert((k - 1) * half >= 0) by (nonlinear_arith)
            requires
                k >= 1,
                half > 0,
        ;
        assert(((k * half + sig) - half) as nat == ((k - 1) as nat) * half + sig);
    }
}

/// The encoding of `m * 2^e` units when the spacing there is `2^(e + d)`.
pub proof fn lemma_encode_scaled_at(m: nat, e: int, d: int, half: nat)
    requires
        half > 0,
        e + d >= 0,
        d >= 0 ==> m < 2 * half * pow2(d as nat) && (e + d > 0 ==> m >= half * pow2(d as nat)),
        d < 0 ==> m * pow2((-d) as nat) < 2 * half && (e + d > 0 ==> m * pow2((-d) as nat)
            >= half),
    ensures
        d >= 0 ==> encode_scaled(m, e, half) == (e + d) * half + nearest(m, pow2(d as nat)),
        d < 0 ==> encode_scaled(m, e, half) == (e + d) * half + m * pow2((-d) as nat),
{
    let k = (e + d) as nat;
    lemma_pow2_pos(k);
    if e < 0 {
        let den = pow2((-e) as nat);
        lemma_pow2_pos((-e) as nat);
        lemma_pow2_adds((-e) as nat, k);
        assert(den * pow2(k) == pow2(d as nat));
        lemma_encode_at(m, den, k, half);
    } else if d >= 0 {
        let p = pow2(e as nat);
        let pd = pow2(d as nat);
        lemma_pow2_pos(e as nat);
        lemma_pow2_pos(d as nat);
        lemma_pow2_adds(e as nat, d as nat);
        assert(pow2(k) == p * pd);
        assert(1 * pow2(k) == p * pd);
        assert(m * p < 2 * half * (p * pd)) by (nonlinear_arith)
            requires
                m < 2 * half * pd,
                p > 0,
        ;
        if k > 0 {
            assert(m * p >= half * (p * pd)) by (nonlinear_arith)
                requires
                    m >= half * pd,
                    p > 0,
            ;
        }
        lemma_encode_at(m * p, 1, k, half);
        lemma_nearest_scale(m, pd, p);
        assert(m * p == p * m) by (nonlinear_arith);
    } else {
        let s = (-d) as nat;
        let ps = pow2(s);
        let pk = pow2(k);
        lemma_pow2_pos(s);
        lemma_pow2_adds(s, k);
        assert(s + k == e);
        let sig = m * ps;
        assert(m * pow2(e as nat) == sig * pk) by (nonlinear_arith)
            requires
                pow2(e as nat) == ps * pk,
                sig == m * ps,
        ;
        assert(1 * pk == pk);
        assert(sig * pk < 2 * half * (1 * pk)) by (nonlinear_arith)
            requires
                sig < 2 * half,
                pk > 0,
        ;
        if k > 0 {
            assert(sig * pk >= half * (1 * pk)) by (nonlinear_arith)
                requires
                    sig >= half,
                    pk > 0,
            ;
        }
        lemma_encode_at(sig * pk, 1, k, half);
        assert(pk * sig + 0 == sig * pk) by (nonlinear_arith);
        lemma_div_unique(sig * pk, pk, sig, 0);
    }
}

/// Rounding `num / den * 2^e` units may start from the odd-rounded quotient.
pub proof fn lemma_encode_scaled_to_odd(num: nat, den: nat, e: int, half: nat)
    requires
        den > 0,
        half > 0,
        num % den == 0 || to_odd(num, den) >= 4 * half,
    ensures
        e >= 0 ==> encode_scaled(to_odd(num, den), e, half) == encode(
            num * pow2(e as nat),
            den,
            half,
        ),
        e < 0 ==> encode_scaled(to_odd(num, den), e, half) == encode(
            num,
            den * pow2((-e) as nat),
            half,
        ),
{
    let m = to_odd(num, den);
    lemma_div_parts(num, den);
    if e >= 0 {
        let p = pow2(e as nat);
        lemma_pow2_pos(e as nat);
        if num % den == 0 {
            assert(num * p == den * (m * p)) by (nonlinear_arith)
                requires
                    num == den * m,
            ;
            lemma_encode_scale(m * p, 1, den, half);
        } else {
            let q = num / den;
            assert(num >= half * den) by (nonlinear_arith)
                requires
                    num >= den * q,
                    q >= 4 * half - 1,
                    half >= 1,
                    den >= 1,
            ;
            lemma_encode_steps(num, den, e as nat, half);
            lemma_encode_steps(m, 1, e as nat, half);
            lemma_encode_to_odd(num, den, 1, half);
            assert(den * 1 == den);
        }
    } else {
        let t = (-e) as nat;
        lemma_pow2_pos(t);
        lemma_pow2_multiple_of_four(t);
        lemma_encode_to_odd(num, den, pow2(t), half);
    }
}

pub proof fn lemma_pow2_multiple_of_four(t: nat)
    ensures
        pow2(t) == 1 || pow2(t) == 2 || pow2(t) % 4 == 0,
    decreases t,
{
    lemma2_to64();
    if t >= 2 {
        lemma_pow2_unfold(t);
        lemma_pow2_multiple_of_four((t - 1) as nat);
        if t == 2 {
        } else {
            lemma_pow2_strictly_increases(1, (t - 1) as nat);
        }
    }
}

/// Doubling a normal magnitude advances its encoding by `half`.
pub proof fn lemma_encode_steps(num: nat, den: nat, e: nat, half: nat)
    requires
        den > 0,
        half > 0,
        num >= half * den,
    ensures
        encode(num * pow2(e), den, half) == e * half + encode(num, den, half),
    decreases e,
{
    if e == 0 {
        lemma2_to64();
        assert(num * pow2(0) == num);
        assert(0 * half == 0);
    } else {
        lemma_pow2_unfold(e);
        let p = pow2((e - 1) as nat);
        lemma_pow2_pos((e - 1) as nat);
        assert(num * (2 * p) == 2 * (num * p)) by (nonlinear_arith);
        assert(2 * (num * p) >= 2 * half * den) by (nonlinear_arith)
            requires
                num >= half * den,
                p >= 1,
        ;
        lemma_encode_scale(num * p, den, 2, half);
        lemma_encode_steps(num, den, (e - 1) as nat, half);
        assert((e - 1) * half + half == e * half) by (nonlinear_arith);
    }
}

/// Larger quotients have larger encodings.
pub proof fn lemma_encode_lower(num: nat, den: nat, half: nat)
    requires
        den > 0,
        half > 0,
    ensures
        num >= half * den ==> encode(num, den, half) >= half,
        num <= half * den ==> encode(num, den, half) <= half,
{
    lemma_div_parts(num, den);
    let q = num / den;
    let r = num % den;
    if num >= half * den {
        assert(q >= half) by (nonlinear_arith)
            requires
                num == den * q + r,
                r < den,
                num >= half * den,
                den > 0,
        ;
    }
    if num <= half * den {
        assert(half * den <= 2 * half * den && (num < 2 * half * den)) by (nonlinear_arith)
            requires
                num <= half * den,
                half > 0,
                den > 0,
        ;
        if q >= half {
            assert(r == 0 && q == half) by (nonlinear_arith)
                requires
                    num == den * q + r,
                    num <= half * den,
                    q >= half,
                    den > 0,
                    r >= 0,
            ;
        }
    }
}


/// A value with a short enough significand survives rounding.
pub proof fn lemma_encode_exact(n: nat, j: nat, half: nat)
    requires
        half > 0,
        n < 2 * half,
    ensures
        units(encode(n * pow2(j), 1, half), half) == n * pow2(j),
    decreases j,
{
    let v = n * pow2(j);
    lemma_pow2_pos(j);
    if v < 2 * half {
        lemma_div_unique(v, 1, v, 0);
    } else {
        if j == 0 {
            lemma2_to64();
            assert(n * pow2(0) == n);
        }
        lemma_pow2_unfold(j);
        let p = pow2((j - 1) as nat);
        assert(n * (2 * p) == 2 * (n * p)) by (nonlinear_arith);
        lemma_encode_scale(n * p, 1, 2, half);
        lemma_encode_lower(n * p, 1, half);
        lemma_encode_exact(n, (j - 1) as nat, half);
    }
}

/// Encodings are ordered as the numbers they stand for.
pub proof fn lemma_units_ordered(a: nat, b: nat, half: nat)
    requires
        half > 0,
        a <= b,
    ensures
        units(a, half) <= units(b, half),
    decreases b,
{
    if b >= 2 * half {
        if a >= 2 * half {
            lemma_units_ordered((a - half) as nat, (b - half) as nat, half);
        } else {
            lemma_units_lower((b - half) as nat, half);
        }
    }
}

/// Rounding moves a quotient by at most half a unit, or by at most half the
/// last place of its significand.
pub proof fn lemma_encode_error(num: nat, den: nat, half: nat)
    requires
        den > 0,
        half > 0,
    ensures
        ({
            let u = units(encode(num, den, half), half);
            let e = apart((u * den) as int, num as int);
            2 * e <= den || 2 * half * e <= num
        }),
    decreases
            (if num >= den {
                num - den
            } else {
                0
            }),
{
    if num < 2 * half * den {
        lemma_div_parts(num, den);
        let (q, r) = (num / den, num % den);
        let k = nearest(num, den);
        assert(q < 2 * half) by (nonlinear_arith)
            requires
                num == den * q + r,
                r >= 0,
                num < 2 * half * den,
                den > 0,
        ;
        assert(units(k, half) == k) by {
            reveal_with_fuel(units, 2);
        }
        assert(q * den == den * q && (q + 1) * den == den * q + den) by (nonlinear_arith);
    } else {
        assert(2 * half * den >= 2 * den) by (nonlinear_arith)
            requires
                half >= 1,
                den >= 1,
        ;
        lemma_encode_error(num, 2 * den, half);
        assert(num >= half * (2 * den)) by (nonlinear_arith)
            requires
                num >= 2 * half * den,
        ;
        lemma_encode_lower(num, 2 * den, half);
        let inner = units(encode(num, 2 * den, half), half);
        assert(inner * (2 * den) == (2 * inner) * den) by (nonlinear_arith);
        let e = apart((inner * (2 * den)) as int, num as int);
        assert(2 * e <= 2 * den ==> 2 * half * e <= num) by (nonlinear_arith)
            requires
                num >= 2 * half * den,
                half > 0,
        ;
    }
}

/// Rounding a quotient of at most `2 * half * 2^j` units moves it by at most
/// half of `2^j` units.
pub proof fn lemma_encode_within(num: nat, den: nat, j: nat, half: nat)
    requires
        den > 0,
        half > 0,
        num <= 2 * half * den * pow2(j),
    ensures
        2 * apart((units(encode(num, den, half), half) * den) as int, num as int) <= den * pow2(j),
    decreases j,
{
    lemma_pow2_pos(j);
    if num < 2 * half * den {
        lemma_div_parts(num, den);
        let (q, r) = (num / den, num % den);
        let k = nearest(num, den);
        assert(q < 2 * half) by (nonlinear_arith)
            requires
                num == den * q + r,
                r >= 0,
                num < 2 * half * den,
                den > 0,
        ;
        assert(units(k, half) == k) by {
            reveal_with_fuel(units, 2);
        }
        assert(q * den == den * q && (q + 1) * den == den * q + den) by (nonlinear_arith);
        assert(den <= den * pow2(j)) by (nonlinear_arith)
            requires
                pow2(j) >= 1,
                den > 0,
        ;
    } else {
        assert(num >= half * (2 * den)) by (nonlinear_arith)
            requires
                num >= 2 * half * den,
        ;
        lemma_encode_lower(num, 2 * den, half);
        let enc = encode(num, 2 * den, half);
        let inner = units(enc, half);
        assert(inner * (2 * den) == (2 * inner) * den) by (nonlinear_arith);
        if j == 0 {
            lemma2_to64();
            assert(num == half * (2 * den)) by (nonlinear_arith)
                requires
                    num <= 2 * half * den * 1,
                    num >= half * (2 * den),
            ;
            assert(enc == half);
            assert(0 <= den * pow2(j));
        } else {
            lemma_pow2_unfold(j);
            let p = pow2((j - 1) as nat);
            assert(2 * half * den * (2 * p) == 2 * half * (2 * den) * p) by (nonlinear_arith);
            lemma_encode_within(num, 2 * den, (j - 1) as nat, half);
            assert(2 * den * p == den * (2 * p)) by (nonlinear_arith);
        }
    }
}

/// The largest integer whose square is at most `n`.
pub open spec fn floor_root(n: nat) -> nat
    decreases n,
{
    if n == 0 {
        0
    } else {
        let r = 2 * floor_root(n / 4);
        if (r + 1) * (r + 1) <= n {
            r + 1
        } else {
            r
        }
    }
}

pub proof fn lemma_floor_root(n: nat)
    ensures
        floor_root(n) * floor_root(n) <= n,
        n < (floor_root(n) + 1) * (floor_root(n) + 1),
    decreases n,
{
    if n > 0 {
        lemma_floor_root(n / 4);
        let h = floor_root(n / 4);
        let q = n / 4;
        let r = 2 * h;
        assert(r * r == 4 * (h * h)) by (nonlinear_arith)
            requires
                r == 2 * h,
        ;
        assert((r + 2) * (r + 2) == 4 * ((h + 1) * (h + 1))) by (nonlinear_arith)
            requires
                r == 2 * h,
        ;
        let v = floor_root(n);
        if (r + 1) * (r + 1) <= n {
            assert(v == r + 1);
            assert((v + 1) * (v + 1) == (r + 2) * (r + 2));
            assert(v * v == (r + 1) * (r + 1));
        } else {
            assert(v == r);
            assert((v + 1) * (v + 1) == (r + 1) * (r + 1));
        }
    } else {
        assert(floor_root(n) == 0);
        assert(floor_root(n) * floor_root(n) == 0) by (nonlinear_arith)
            requires
                floor_root(n) == 0,
        ;
        assert((floor_root(n) + 1) * (floor_root(n) + 1) == 1) by (nonlinear_arith)
            requires
                floor_root(n) == 0,
        ;
    }
}

/// The floor of a square root is determined by its two bounds.
pub proof fn lemma_floor_root_unique(n: nat, r: nat)
    requires
        r * r <= n,
        n < (r + 1) * (r + 1),
    ensures
        floor_root(n) == r,
{
    lemma_floor_root(n);
    let q = floor_root(n);
    if q < r {
        assert((q + 1) * (q + 1) <= r * r) by (nonlinear_arith)
            requires
                q + 1 <= r,
        ;
    } else if q > r {
        assert((r + 1) * (r + 1) <= q * q) by (nonlinear_arith)
            requires
                r + 1 <= q,
        ;
    }
}

/// Twice the square root of `n` where that is an integer, else the odd
/// number between the two neighbouring even ones. Halves of integers lie on
/// one side of both, so either rounds to the same multiple of an even step.
pub open spec fn double_root(n: nat) -> nat {
    let r = floor_root(n);
    if r * r == n {
        2 * r
    } else {
        2 * r + 1
    }
}

/// A root taken on the leading bits decides the rounding of the whole root.
pub proof fn lemma_double_root_scaled(m: nat, j: nat, half: nat)
    requires
        half > 0,
        j >= 1,
        floor_root(m) >= 2 * half,
    ensures
        encode_scaled(double_root(m), j - 1, half) == encode(
            double_root(m * (pow2(j) * pow2(j))),
            2,
            half,
        ),
{
    let s = floor_root(m);
    let p = pow2(j);
    let n = m * (p * p);
    lemma_pow2_pos(j);
    lemma_pow2_unfold(j);
    let h = pow2((j - 1) as nat);
    lemma_pow2_pos((j - 1) as nat);
    lemma_floor_root(m);
    if s * s == m {
        assert((s * p) * (s * p) == n) by (nonlinear_arith)
            requires
                s * s == m,
                n == m * (p * p),
        ;
        assert(n < (s * p + 1) * (s * p + 1)) by (nonlinear_arith)
            requires
                (s * p) * (s * p) == n,
        ;
        lemma_floor_root_unique(n, s * p);
        assert(2 * (s * p) == 2 * (2 * s * h)) by (nonlinear_arith)
            requires
                p == 2 * h,
        ;
        lemma_encode_scale(2 * s * h, 1, 2, half);
    } else {
        lemma_floor_root(n);
        let r = floor_root(n);
        let x = double_root(n);
        // s * p < sqrt(n) < (s + 1) * p
        assert((s * p) * (s * p) < n) by (nonlinear_arith)
            requires
                s * s < m,
                n == m * (p * p),
                p > 0,
        ;
        assert(n < ((s + 1) * p) * ((s + 1) * p)) by (nonlinear_arith)
            requires
                m < (s + 1) * (s + 1),
                n == m * (p * p),
                p > 0,
        ;
        assert(s * p <= r) by (nonlinear_arith)
            requires
                (s * p) * (s * p) < n,
                n < (r + 1) * (r + 1),
        ;
        assert(r < (s + 1) * p) by (nonlinear_arith)
            requires
                r * r <= n,
                n < ((s + 1) * p) * ((s + 1) * p),
        ;
        assert(2 * (s * p) < x && x < 2 * ((s + 1) * p)) by {
            if r == s * p {
                assert(r * r != n);
            }
        }
        // In steps of p, x lies strictly between 2s and 2s + 2.
        lemma_div_parts(x, p);
        let q = x / p;
        let d = x % p;
        assert(2 * s <= q) by (nonlinear_arith)
            requires
                2 * (s * p) < x,
                x == p * q + d,
                d < p,
        ;
        assert(q < 2 * s + 2) by (nonlinear_arith)
            requires
                x < 2 * ((s + 1) * p),
                x == p * q + d,
                p > 0,
        ;
        if q == 2 * s && d == 0 {
            assert(x == 2 * (s * p)) by (nonlinear_arith)
                requires
                    x == p * q + d,
                    q == 2 * s,
                    d == 0,
            ;
        }
        assert(to_odd(x, p) == 2 * s + 1);
        lemma_encode_scaled_to_odd(x, p, j - 1, half);
        assert(x * h == h * x && p == h * 2) by (nonlinear_arith)
            requires
                p == 2 * h,
        ;
        lemma_encode_scale(x, 2, h, half);
    }
}

} // verus!
