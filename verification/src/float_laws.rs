//! Order and zeros in rounded arithmetic.
use crate::ieee;
use crate::single;
use vstd::arithmetic::power2::*;
use vstd::prelude::*;

verus! {

/// Rounding keeps the order: a quotient on one side of a representable number
/// is rounded to that side of it, or to the number itself.
pub proof fn lemma_encode_ordered(num: nat, den: nat, m: nat, half: nat)
    requires
        den > 0,
        half > 0,
    ensures
        num <= ieee::units(m, half) * den ==> ieee::encode(num, den, half) <= m,
        num >= ieee::units(m, half) * den ==> ieee::encode(num, den, half) >= m,
    decreases
            (if num >= den {
                num - den
            } else {
                0
            }),
{
    let u = ieee::units(m, half);
    ieee::lemma_div_parts(num, den);
    let (q, r) = (num / den, num % den);
    if m >= 2 * half {
        ieee::lemma_units_lower((m - half) as nat, half);
        assert(u >= 2 * half);
    }
    if num < 2 * half * den {
        assert(q < 2 * half) by (nonlinear_arith)
            requires
                num == den * q + r,
                r >= 0,
                num < 2 * half * den,
                den > 0,
        ;
        if num <= u * den && m < 2 * half {
            assert(q < m || (q == m && r == 0)) by (nonlinear_arith)
                requires
                    num == den * q + r,
                    0 <= r < den,
                    num <= m * den,
            ;
        }
        if num >= u * den {
            assert(u <= q) by (nonlinear_arith)
                requires
                    num == den * q + r,
                    0 <= r < den,
                    num >= u * den,
            ;
        }
    } else {
        assert(2 * half * den >= 2 * den) by (nonlinear_arith)
            requires
                half >= 1,
                den >= 1,
        ;
        assert(num >= half * (2 * den)) by (nonlinear_arith)
            requires
                num >= 2 * half * den,
        ;
        ieee::lemma_encode_lower(num, 2 * den, half);
        if m >= 2 * half {
            let rest = (m - half) as nat;
            let w = ieee::units(rest, half);
            lemma_encode_ordered(num, 2 * den, rest, half);
            assert(u * den == w * (2 * den)) by (nonlinear_arith)
                requires
                    u == 2 * w,
            ;
        } else {
            assert(num <= u * den ==> num == u * den && false) by (nonlinear_arith)
                requires
                    num >= 2 * half * den,
                    u < 2 * half,
                    den > 0,
            ;
        }
    }
}

/// Only zeros stand for nothing.
pub proof fn lemma_zero(a: u32)
    ensures
        single::magnitude(a) == 0 <==> single::mag(a) == 0,
        single::value(a) == 0 <==> single::mag(a) == 0,
{
    let h = single::HALF as nat;
    if single::mag(a) >= h {
        ieee::lemma_units_lower(single::mag(a), h);
    }
}

proof fn lemma_encode_zero(den: nat)
    requires
        den > 0,
    ensures
        ieee::encode(0, den, single::HALF as nat) == 0,
{
    ieee::lemma_div_unique(0, den, 0, 0);
    assert(2 * single::HALF as nat * den > 0) by (nonlinear_arith)
        requires
            den > 0,
            single::HALF == 0x80_0000,
    ;
}

/// A zero times a finite number is a zero.
pub proof fn lemma_zero_product(a: u32, b: u32)
    requires
        single::is_finite(a),
        single::is_finite(b),
        single::mag(a) == 0 || single::mag(b) == 0,
    ensures
        single::mag(single::product(a, b)) == 0,
{
    lemma_zero(a);
    lemma_zero(b);
    let (x, y) = (single::magnitude(a), single::magnitude(b));
    assert(x * y == 0) by (nonlinear_arith)
        requires
            x == 0 || y == 0,
    ;
    lemma_pow2_pos(149);
    lemma_encode_zero(pow2(149));
}

/// A zero over a finite number that is none is a zero.
pub proof fn lemma_zero_quotient(a: u32, b: u32)
    requires
        single::mag(a) == 0,
        single::is_finite(b),
        single::mag(b) != 0,
    ensures
        single::mag(single::quotient(a, b)) == 0,
{
    lemma_zero(a);
    lemma_zero(b);
    assert(0 * pow2(149) == 0);
    lemma_encode_zero(single::magnitude(b));
}

/// Zeros add up to a zero.
pub proof fn lemma_zero_sum(a: u32, b: u32)
    requires
        single::mag(a) == 0,
        single::mag(b) == 0,
    ensures
        single::mag(single::sum(a, b)) == 0,
{
    lemma_zero(a);
    lemma_zero(b);
}

/// Adding a number that is not positive does not increase a number, adding one
/// that is not negative does not decrease it.
pub proof fn lemma_sum_ordered(a: u32, b: u32)
    requires
        single::is_finite(a),
        single::is_finite(b),
    ensures
        !single::is_nan(single::sum(a, b)),
        single::value(b) <= 0 ==> single::order_key(single::sum(a, b)) <= single::order_key(a),
        single::value(b) >= 0 ==> single::order_key(single::sum(a, b)) >= single::order_key(a),
{
    let h = single::HALF as nat;
    let v = single::value(a) + single::value(b);
    lemma_zero(a);
    if v != 0 {
        let n = (if v < 0 {
            -v
        } else {
            v
        }) as nat;
        lemma_encode_ordered(n, 1, single::mag(a), h);
        assert(single::magnitude(a) * 1 == single::magnitude(a));
        single::lemma_with_sign(v < 0, single::clamped(ieee::encode(n, 1, h)));
    }
}

/// Subtraction in the same way.
pub proof fn lemma_difference_ordered(a: u32, b: u32)
    requires
        single::is_finite(a),
        single::is_finite(b),
    ensures
        !single::is_nan(single::difference(a, b)),
        single::value(b) >= 0 ==> single::order_key(single::difference(a, b)) <= single::order_key(
            a,
        ),
        single::value(b) <= 0 ==> single::order_key(single::difference(a, b)) >= single::order_key(
            a,
        ),
{
    single::lemma_with_sign(!single::is_negative(b), single::mag(b));
    lemma_sum_ordered(a, single::negation(b));
}

/// Subtraction of a number that need not be finite.
pub proof fn lemma_difference_side(a: u32, b: u32)
    requires
        single::is_finite(a),
        !single::is_nan(single::difference(a, b)),
    ensures
        !single::is_nan(b),
        single::order_key(b) >= 0 ==> single::order_key(single::difference(a, b))
            <= single::order_key(a),
        single::order_key(b) <= 0 ==> single::order_key(single::difference(a, b))
            >= single::order_key(a),
{
    if single::is_nan(b) {
        assert(single::mag(single::negation(b)) == single::mag(b));
    } else {
        single::lemma_with_sign(!single::is_negative(b), single::mag(b));
        lemma_zero(b);
        if single::is_finite(b) {
            lemma_difference_ordered(a, b);
        }
    }
}

/// The product of a number that is not negative with another is on the side of
/// the other.
pub proof fn lemma_product_side(a: u32, b: u32)
    requires
        single::order_key(a) >= 0,
        !single::is_nan(single::product(a, b)),
    ensures
        single::order_key(b) >= 0 ==> single::order_key(single::product(a, b)) >= 0,
        single::order_key(b) <= 0 ==> single::order_key(single::product(a, b)) <= 0,
{
    lemma_product_sign(a, b);
}

/// The sign bit of a product, and that a zero factor makes a zero.
pub proof fn lemma_product_sign(a: u32, b: u32)
    requires
        !single::is_nan(single::product(a, b)),
    ensures
        single::is_negative(single::product(a, b)) == (single::is_negative(a)
            != single::is_negative(b)),
        single::mag(a) == 0 || single::mag(b) == 0 ==> single::mag(single::product(a, b)) == 0,
        !single::is_nan(a),
        !single::is_nan(b),
{
    let (x, y) = (single::magnitude(a), single::magnitude(b));
    let e = single::clamped(ieee::encode(x * y, pow2(149), single::HALF as nat));
    single::lemma_with_sign(single::is_negative(a) != single::is_negative(b), e);
    if single::is_finite(a) && single::is_finite(b) && (single::mag(a) == 0 || single::mag(b)
        == 0) {
        lemma_zero_product(a, b);
    }
}

/// The quotient of a number by a positive one is on the side of that number.
pub proof fn lemma_quotient_side(a: u32, b: u32)
    requires
        single::order_key(b) > 0,
        !single::is_nan(single::quotient(a, b)),
    ensures
        single::order_key(a) >= 0 ==> single::order_key(single::quotient(a, b)) >= 0,
        single::order_key(a) <= 0 ==> single::order_key(single::quotient(a, b)) <= 0,
        !single::is_nan(a),
        !single::is_nan(b),
{
    let (x, y) = (single::magnitude(a), single::magnitude(b));
    let negative = single::is_negative(a) != single::is_negative(b);
    let e = single::clamped(ieee::encode(x * pow2(149), y, single::HALF as nat));
    single::lemma_with_sign(negative, e);
    if single::mag(a) == 0 && single::is_finite(b) {
        lemma_zero_quotient(a, b);
    }
}

/// A quotient that is a number has numbers for its parts.
pub proof fn lemma_quotient_numbers(a: u32, b: u32)
    requires
        !single::is_nan(single::quotient(a, b)),
    ensures
        !single::is_nan(a),
        !single::is_nan(b),
{
}

/// Two numbers on one side of zero have their sum there.
pub proof fn lemma_sum_side(a: u32, b: u32)
    requires
        !single::is_nan(single::sum(a, b)),
    ensures
        single::order_key(a) >= 0 && single::order_key(b) >= 0 ==> single::order_key(
            single::sum(a, b),
        ) >= 0,
        single::order_key(a) <= 0 && single::order_key(b) <= 0 ==> single::order_key(
            single::sum(a, b),
        ) <= 0,
        single::order_key(a) >= 0 && single::order_key(b) > 0 ==> single::order_key(
            single::sum(a, b),
        ) > 0,
        !single::is_nan(a),
        !single::is_nan(b),
{
    lemma_zero(a);
    lemma_zero(b);
    if single::is_finite(a) && single::is_finite(b) {
        lemma_sum_ordered(a, b);
        lemma_sum_ordered(b, a);
        assert(single::sum(a, b) == single::sum(b, a));
    }
}

/// A square root is not negative.
pub proof fn lemma_root_side(a: u32)
    requires
        !single::is_nan(single::root(a)),
    ensures
        single::order_key(single::root(a)) >= 0,
        !single::is_nan(a),
        single::order_key(a) >= 0,
{
    let n = ieee::double_root(single::magnitude(a) * pow2(149));
    single::lemma_with_sign(false, single::clamped(ieee::encode(n, 2, single::HALF as nat)));
}

/// One minus a smaller number that is not negative is positive.
pub proof fn lemma_one_minus(x: u32)
    requires
        single::order_key(x) >= 0,
        single::order_key(x) < single::order_key(single::ONE),
    ensures
        single::order_key(single::difference(single::ONE, x)) > 0,
        single::is_finite(single::difference(single::ONE, x)),
{
    let h = single::HALF as nat;
    single::lemma_with_sign(!single::is_negative(x), single::mag(x));
    let b = single::negation(x);
    lemma_zero(x);
    let (one, y) = (single::magnitude(single::ONE), single::magnitude(x));
    ieee::lemma_units_ordered(single::mag(x), single::mag(single::ONE), h);
    if one == y {
        ieee::lemma_encode_units(single::mag(x), h);
        ieee::lemma_encode_units(single::mag(single::ONE), h);
    }
    let v = (one - y) as nat;
    reveal_with_fuel(ieee::units, 2);
    lemma_encode_ordered(v, 1, 1, h);
    lemma_encode_ordered(v, 1, single::mag(single::ONE), h);
    assert(one * 1 == one);
    assert(ieee::units(1, h) * 1 == 1);
}

/// A product that is neither too small nor too large is within an eighth of the
/// exact one.
pub proof fn lemma_product_near(a: u32, b: u32)
    requires
        single::is_finite(a),
        single::is_finite(b),
        4 * pow2(149) <= single::magnitude(a) * single::magnitude(b),
        single::magnitude(a) * single::magnitude(b) <= pow2(149) * single::largest_finite(),
    ensures
        single::is_finite(single::product(a, b)),
        ({
            let exact = single::magnitude(a) * single::magnitude(b);
            let got = single::magnitude(single::product(a, b)) * pow2(149);
            7 * exact <= 8 * got <= 9 * exact
        }),
{
    let (x, y) = (single::magnitude(a), single::magnitude(b));
    lemma_pow2_pos(149);
    single::lemma_rounded(single::is_negative(a) != single::is_negative(b), x * y, pow2(149));
}

/// A quotient that is neither too small nor too large is within an eighth of the
/// exact one.
pub proof fn lemma_quotient_near(a: u32, b: u32)
    requires
        single::is_finite(a),
        single::is_finite(b),
        single::magnitude(b) > 0,
        4 * single::magnitude(b) <= single::magnitude(a) * pow2(149),
        single::magnitude(a) * pow2(149) <= single::magnitude(b) * single::largest_finite(),
    ensures
        single::is_finite(single::quotient(a, b)),
        ({
            let exact = single::magnitude(a) * pow2(149);
            let got = single::magnitude(single::quotient(a, b)) * single::magnitude(b);
            7 * exact <= 8 * got <= 9 * exact
        }),
{
    let (x, y) = (single::magnitude(a), single::magnitude(b));
    lemma_zero(b);
    single::lemma_rounded(
        single::is_negative(a) != single::is_negative(b),
        x * pow2(149),
        y,
    );
}

/// Adding a zero changes nothing.
pub proof fn lemma_zero_added(z: u32, x: u32)
    requires
        single::mag(z) == 0,
        single::is_finite(x),
    ensures
        single::is_finite(single::sum(z, x)),
        single::magnitude(single::sum(z, x)) == single::magnitude(x),
        single::value(single::sum(z, x)) == single::value(x),
{
    lemma_zero(z);
    lemma_zero(x);
    let v = single::value(x);
    if v != 0 {
        ieee::lemma_encode_units(single::mag(x), single::HALF as nat);
        single::lemma_with_sign(v < 0, single::mag(x));
    } else {
        lemma_zero(single::sum(z, x));
    }
}

/// A sum of numbers that are not negative is within an eighth of the exact one.
pub proof fn lemma_sum_near(a: u32, b: u32)
    requires
        single::is_finite(a),
        single::is_finite(b),
        single::order_key(a) >= 0,
        single::order_key(b) >= 0,
        single::value(a) + single::value(b) <= single::largest_finite(),
    ensures
        single::is_finite(single::sum(a, b)),
        single::order_key(single::sum(a, b)) >= 0,
        ({
            let exact = single::value(a) + single::value(b);
            let got = single::magnitude(single::sum(a, b)) as int;
            7 * exact <= 8 * got <= 9 * exact
        }),
{
    lemma_zero(a);
    lemma_zero(b);
    let v = single::value(a) + single::value(b);
    if v == 0 {
        lemma_zero(single::sum(a, b));
    } else {
        single::lemma_rounded(false, v as nat, 1);
        assert((single::magnitude(single::sum(a, b)) * 1) as int == single::magnitude(
            single::sum(a, b),
        ));
    }
}

/// The root of a number near the square of `g`, in the smallest units, lies
/// between half and twice `g`.
pub proof fn lemma_root_near(a: u32, g: nat)
    requires
        single::is_finite(a),
        !single::is_negative(a),
        0x400 <= g,
        2 * g <= single::largest_finite(),
        343 * (g * g) <= 512 * (single::magnitude(a) * pow2(149)),
        512 * (single::magnitude(a) * pow2(149)) <= 729 * (g * g),
    ensures
        single::is_finite(single::root(a)),
        single::order_key(single::root(a)) >= 0,
        g <= 2 * single::magnitude(single::root(a)),
        single::magnitude(single::root(a)) <= 2 * g,
{
    let n = single::magnitude(a) * pow2(149);
    let f = ieee::floor_root(n);
    let d = ieee::double_root(n);
    ieee::lemma_floor_root(n);
    lemma_zero(a);
    assert(n > 0) by (nonlinear_arith)
        requires
            343 * (g * g) <= 512 * n,
            g >= 0x400,
    ;
    if single::mag(a) == 0 {
        assert(0 * pow2(149) == 0);
    }
    assert(2 * f <= 3 * g) by (nonlinear_arith)
        requires
            f * f <= n,
            512 * n <= 729 * (g * g),
            f >= 0,
            g >= 0x400,
    ;
    assert(8 * g <= 10 * (f + 1)) by (nonlinear_arith)
        requires
            n < (f + 1) * (f + 1),
            343 * (g * g) <= 512 * n,
            f >= 0,
            g >= 0x400,
    ;
    single::lemma_rounded(false, d, 2);
}

/// Subtracting something that is not too small moves a number.
pub proof fn lemma_difference_moves(p: u32, u: u32)
    requires
        single::is_finite(p),
        single::is_finite(u),
        single::magnitude(u) > 0,
        single::magnitude(p) <= 0x40_0000 * single::magnitude(u),
        single::magnitude(p) + single::magnitude(u) <= single::largest_finite(),
    ensures
        single::is_finite(single::difference(p, u)),
        single::value(u) > 0 ==> single::value(single::difference(p, u)) < single::value(p),
        single::value(u) < 0 ==> single::value(single::difference(p, u)) > single::value(p),
{
    let (x, y) = (single::value(p), single::value(u));
    single::lemma_difference_error(p, u);
    single::lemma_with_sign(!single::is_negative(u), single::mag(u));
    let r = single::difference(p, u);
    let v = x - y;
    lemma_zero(r);
    if v != 0 {
        let n = ieee::apart(x, y) as nat;
        single::lemma_with_sign(
            v < 0,
            single::clamped(ieee::encode(n, 1, single::HALF as nat)),
        );
    } else {
        lemma_zero(r);
    }
}

} // verus!
