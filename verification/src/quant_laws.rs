//! How far quantized numbers are from the originals.
use crate::float_laws;
use crate::ieee;
use crate::quant;
use crate::quant::QuantConfig;
use crate::single;
use vstd::arithmetic::power2::*;
use vstd::prelude::*;

verus! {

/// Whether no number of `x` in the group of `i`, of `d` numbers each, exceeds
/// `top`, in the smallest units.
pub open spec fn group_within(x: Seq<u32>, d: int, i: int, top: int) -> bool {
    forall|k: int|
        0 <= k < x.len() && k / d == i / d ==> single::is_finite(#[trigger] x[k])
            && single::magnitude(x[k]) <= top
}

/// The largest magnitude is one of those in the list.
pub proof fn lemma_absmax_reached(s: Seq<u32>) -> (k: int)
    requires
        s.len() > 0,
        forall|j: int| 0 <= j < s.len() ==> single::is_finite(#[trigger] s[j]),
    ensures
        0 <= k < s.len(),
        quant::absmax(s) == single::absolute(s[k]),
    decreases s.len(),
{
    let n = s.len() - 1;
    let front = s.drop_last();
    assert(single::is_finite(s[n]));
    assert forall|j: int| 0 <= j < front.len() implies single::is_finite(#[trigger] front[j]) by {
        assert(front[j] == s[j]);
    }
    if quant::absmax(s) == single::absolute(s[n]) {
        n
    } else {
        quant::lemma_absmax(front, 0);
        if front.len() == 0 {
            assert(quant::absmax(front) == 0);
        }
        let k = lemma_absmax_reached(front);
        assert(front[k] == s[k]);
        k
    }
}

/// The numbers of a block are those with its block number.
pub proof fn lemma_in_block(x: Seq<u32>, d: int, i: int)
    requires
        d > 0,
        0 <= i < x.len(),
    ensures
        ({
            let b = i / d;
            let part = quant::block(x, b, d);
            &&& 0 <= b < quant::block_maxima(x, d).len()
            &&& quant::block_maxima(x, d)[b] == quant::absmax(part)
            &&& 0 <= i - b * d < part.len()
            &&& part[i - b * d] == x[i]
            &&& forall|j: int|
                0 <= j < part.len() ==> 0 <= b * d + j < x.len() && #[trigger] part[j] == x[b * d
                    + j] && (b * d + j) / d == b
        }),
{
    let b = i / d;
    let part = quant::block(x, b, d);
    quant::lemma_block_of(x.len(), d as nat, i as nat);
    assert forall|j: int| 0 <= j < part.len() implies 0 <= b * d + j < x.len() && #[trigger] part[j]
        == x[b * d + j] && (b * d + j) / d == b by {
        assert(b * d == d * b) by (nonlinear_arith);
        ieee::lemma_div_unique((b * d + j) as nat, d as nat, b as nat, j as nat);
    }
}

/// The maximum of the block of element `i`: it is finite, no number of the
/// block exceeds it, and it is the magnitude of one of them.
pub proof fn lemma_block_maximum(x: Seq<u32>, d: int, i: int, top: int) -> (k: int)
    requires
        d > 0,
        0 <= i < x.len(),
        group_within(x, d, i, top),
    ensures
        ({
            let m = quant::block_maxima(x, d)[i / d];
            &&& single::is_finite(m)
            &&& !single::is_negative(m)
            &&& single::mag(x[i]) <= single::mag(m)
            &&& single::value(m) <= top
            &&& 0 <= k < x.len()
            &&& k / d == i / d
            &&& m == single::absolute(x[k])
        }),
{
    lemma_in_block(x, d, i);
    let b = i / d;
    let part = quant::block(x, b, d);
    assert forall|j: int| 0 <= j < part.len() implies single::is_finite(#[trigger] part[j]) by {
        assert(part[j] == x[b * d + j]);
        assert(single::is_finite(x[b * d + j]));
    }
    quant::lemma_absmax(part, i - b * d);
    let j = lemma_absmax_reached(part);
    let k = b * d + j;
    assert(part[j] == x[k]);
    assert(single::magnitude(x[k]) <= top);
    k
}

/// Numbers kept as 8-bit codes, block by block, are within `0.5 / 127` of the
/// largest magnitude of their own block of the originals, up to rounding.
pub proof fn lemma_block_code(x: Seq<u32>, d: int, i: int, top: int)
    requires
        d > 0,
        0 <= i < x.len(),
        group_within(x, d, i, top),
    ensures
        ({
            let m = quant::block_maxima(x, d)[i / d];
            let back = quant::decoded_scale(quant::int8_code(x[i], m), m);
            &&& single::is_finite(back)
            &&& 254 * 0x100_0000 * ieee::apart(single::value(back), single::value(x[i])) <= (
            0x100_0000 + 636) * top + 127 * 0x100_0000
        }),
{
    let k = lemma_block_maximum(x, d, i, top);
    let m = quant::block_maxima(x, d)[i / d];
    assert(single::is_finite(x[i]));
    quant::lemma_int8_error(x[i], m);
    let y = single::value(m);
    assert((0x100_0000 + 636) * y <= (0x100_0000 + 636) * top) by (nonlinear_arith)
        requires
            y <= top,
    ;
}

/// What the scales of a quantized matrix are decoded to. `k` is a weight of the
/// largest magnitude in the block of weight `i`, and `top` is no smaller than
/// any magnitude among the weights of the 256 blocks that share a second-level
/// scale. Plain scales are that magnitude; doubly quantized ones are within
/// `0.5 / 127` of `top` of it, up to rounding.
pub proof fn lemma_scale(
    weights: Seq<u32>,
    rows: nat,
    cols: nat,
    config: QuantConfig,
    i: int,
    k: int,
    top: int,
)
    requires
        config.block_size > 0,
        weights.len() == rows * cols,
        0 <= i < weights.len(),
        0 <= k < weights.len(),
        k / (config.block_size as int) == i / (config.block_size as int),
        group_within(
            weights,
            config.block_size as int,
            i,
            single::magnitude(weights[k]) as int,
        ),
        config.double_quant ==> forall|j: int|
            0 <= j < weights.len() && j / (config.block_size as int) / 256 == i / (
            config.block_size as int) / 256 ==> single::is_finite(#[trigger] weights[j])
                && single::magnitude(weights[j]) <= top,
    ensures
        ({
            let scales = quant::quantized(weights, rows, cols, config).scales.scales();
            let b = i / (config.block_size as int);
            let s = single::value(scales[b]);
            let w = single::magnitude(weights[k]) as int;
            &&& 0 <= b < scales.len()
            &&& single::is_finite(scales[b])
            &&& !config.double_quant ==> s == w
            &&& config.double_quant ==> 254 * 0x100_0000 * ieee::apart(s, w) <= (0x100_0000 + 636)
                * top + 127 * 0x100_0000
        }),
{
    let d = config.block_size as int;
    let b = i / d;
    let w = single::magnitude(weights[k]) as int;
    let maxima = quant::block_maxima(weights, d);
    lemma_in_block(weights, d, i);
    lemma_maximum(weights, d, i, k);
    if config.double_quant {
        assert(group_within(maxima, 256, b, top)) by {
            assert forall|c: int|
                0 <= c < maxima.len() && c / 256 == b / 256 implies single::is_finite(
                #[trigger] maxima[c],
            ) && single::magnitude(maxima[c]) <= top by {
                let j = lemma_block_inhabited(weights.len(), d, c);
                assert(group_within(weights, d, j, top)) by {
                    assert forall|l: int|
                        0 <= l < weights.len() && l / d == j / d implies single::is_finite(
                        #[trigger] weights[l],
                    ) && single::magnitude(weights[l]) <= top by {}
                }
                let l = lemma_block_maximum(weights, d, j, top);
                assert(single::value(maxima[c]) == single::magnitude(maxima[c]));
            }
        }
        lemma_block_code(maxima, 256, b, top);
    }
}

/// Every block has a first element.
proof fn lemma_block_inhabited(n: nat, d: int, c: int) -> (j: int)
    requires
        d > 0,
        0 <= c < quant::ceil_div(n, d as nat),
    ensures
        0 <= j < n,
        j / d == c,
{
    ieee::lemma_div_parts(n, d as nat);
    let (q, m) = (n as int / d, n as int % d);
    assert(c * d < n) by (nonlinear_arith)
        requires
            n == d * q + m,
            0 <= m < d,
            0 <= c,
            c < q || (c == q && m > 0),
    ;
    assert(c * d >= 0 && d * c == c * d) by (nonlinear_arith)
        requires
            c >= 0,
            d > 0,
    ;
    ieee::lemma_div_unique((c * d) as nat, d as nat, c as nat, 0);
    c * d
}

/// The maximum of a block is the magnitude of its largest weight.
proof fn lemma_maximum(weights: Seq<u32>, d: int, i: int, k: int)
    requires
        d > 0,
        0 <= i < weights.len(),
        0 <= k < weights.len(),
        k / d == i / d,
        group_within(weights, d, i, single::magnitude(weights[k]) as int),
    ensures
        ({
            let m = quant::block_maxima(weights, d)[i / d];
            &&& single::is_finite(m)
            &&& !single::is_negative(m)
            &&& single::mag(weights[i]) <= single::mag(m)
            &&& single::value(m) == single::magnitude(weights[k])
        }),
{
    let w = single::magnitude(weights[k]) as int;
    let m = quant::block_maxima(weights, d)[i / d];
    let l = lemma_block_maximum(weights, d, i, w);
    assert(group_within(weights, d, k, w));
    let l2 = lemma_block_maximum(weights, d, k, w);
    ieee::lemma_units_ordered(single::mag(weights[k]), single::mag(m), single::HALF as nat);
}

/// Two scales that are close together give close values under one level.
proof fn lemma_close_values(code: int, s: u32, t: u32)
    requires
        0 <= code < 16,
        single::is_finite(s),
        single::is_finite(t),
    ensures
        ({
            let l = quant::NF4_LEVELS@[code];
            let (x, y) = (single::product(l, s), single::product(l, t));
            &&& single::is_finite(y)
            &&& 0x100_0000 * ieee::apart(single::value(x), single::value(y)) <= 0x100_0000
                * ieee::apart(single::value(s), single::value(t)) + 0x100_0000 + single::magnitude(
                s,
            ) + single::magnitude(t)
        }),
{
    let l = quant::NF4_LEVELS@[code];
    let (u, b) = (pow2(149) as int, pow2(122) as int);
    quant::lemma_unit_powers();
    quant::lemma_levels(code);
    quant::lemma_finite_magnitude(s);
    quant::lemma_finite_magnitude(t);
    let n = quant::level_numbers()[code];
    let size = single::magnitude(l) as int;
    assert(size <= u) by (nonlinear_arith)
        requires
            size == n * b || size == -(n * b),
            -0x800_0000 <= n <= 0x800_0000,
            u == 0x800_0000 * b,
            b > 0,
    ;
    let big = single::largest_finite() as int;
    let (ms, mt) = (single::magnitude(s) as int, single::magnitude(t) as int);
    assert(size * ms <= u * ms && u * ms <= u * big && size * mt <= u * mt && u * mt <= u * big)
        by (nonlinear_arith)
        requires
            0 <= size <= u,
            0 <= ms <= big,
            0 <= mt <= big,
    ;
    single::lemma_product_error(l, s);
    single::lemma_product_error(l, t);
    let (x, y) = (single::value(single::product(l, s)), single::value(single::product(l, t)));
    let (v, p, q) = (single::value(l), single::value(s), single::value(t));
    let e1 = ieee::apart(x * u, v * p);
    let e2 = ieee::apart(y * u, v * q);
    let g = ieee::apart(p, q);
    assert(ieee::apart(v * p, v * q) <= u * g) by (nonlinear_arith)
        requires
            -u <= v <= u,
            g == (if p < q {
                q - p
            } else {
                p - q
            }),
            ieee::apart(v * p, v * q) == (if v * p < v * q {
                v * q - v * p
            } else {
                v * p - v * q
            }),
    ;
    let e = ieee::apart(x, y);
    assert(e * u <= e1 + u * g + e2) by (nonlinear_arith)
        requires
            e == (if x < y {
                y - x
            } else {
                x - y
            }),
            ieee::apart(x * u, v * p) == e1,
            ieee::apart(v * p, v * q) <= u * g,
            ieee::apart(y * u, v * q) == e2,
    ;
    let (a1, a2) = (u * ms, u * mt);
    assert(a1 >= 0 && a2 >= 0) by (nonlinear_arith)
        requires
            a1 == u * ms,
            a2 == u * mt,
            u > 0,
            ms >= 0,
            mt >= 0,
    ;
    assert(single::magnitude(l) * single::magnitude(s) == size * ms);
    assert(single::magnitude(l) * single::magnitude(t) == size * mt);
    assert(2 * e1 <= u || 0x100_0000 * e1 <= size * ms);
    assert(2 * e2 <= u || 0x100_0000 * e2 <= size * mt);
    assert(size * ms <= a1);
    assert(size * mt <= a2);
    assert(0x200_0000 * e1 <= 0x100_0000 * u + 2 * a1);
    assert(0x200_0000 * e2 <= 0x100_0000 * u + 2 * a2);
    assert(0x100_0000 * e <= 0x100_0000 * g + 0x100_0000 + ms + mt) by (nonlinear_arith)
        requires
            e * u <= e1 + u * g + e2,
            0x200_0000 * e1 <= 0x100_0000 * u + 2 * (u * ms),
            0x200_0000 * e2 <= 0x100_0000 * u + 2 * (u * mt),
            u > 0,
    ;
}

/// Reading back what was quantized, for any number of blocks. With `k` and
/// `top` as for the scales, a value is within `0.152` of the largest magnitude
/// in its block of the weight; with double quantization the second-level scale
/// adds at most `0.004` of `top`. Both hold up to a few of the smallest units.
pub proof fn lemma_weight(
    weights: Seq<u32>,
    rows: nat,
    cols: nat,
    config: QuantConfig,
    i: int,
    k: int,
    top: int,
)
    requires
        config.block_size > 0,
        weights.len() == rows * cols,
        0 <= i < weights.len(),
        0 <= k < weights.len(),
        k / (config.block_size as int) == i / (config.block_size as int),
        group_within(
            weights,
            config.block_size as int,
            i,
            single::magnitude(weights[k]) as int,
        ),
        config.double_quant ==> forall|j: int|
            0 <= j < weights.len() && j / (config.block_size as int) / 256 == i / (
            config.block_size as int) / 256 ==> single::is_finite(#[trigger] weights[j])
                && single::magnitude(weights[j]) <= top,
    ensures
        ({
            let values = quant::quantized(weights, rows, cols, config).values();
            let error = ieee::apart(single::value(values[i]), single::value(weights[i]));
            let w = single::magnitude(weights[k]) as int;
            &&& values.len() == weights.len()
            &&& single::is_finite(values[i])
            &&& !config.double_quant ==> 1_000 * error <= 152 * w + 500
            &&& config.double_quant ==> 1_000 * error <= 152 * w + 4 * top + 2_100
        }),
{
    let d = config.block_size as int;
    let b = i / d;
    let q = quant::quantized(weights, rows, cols, config);
    let m = quant::block_maxima(weights, d)[b];
    let t = q.scales.scales()[b];
    quant::lemma_quantized_codes(weights, rows, cols, config, i);
    lemma_maximum(weights, d, i, k);
    lemma_scale(weights, rows, cols, config, i, k, top);
    let w = weights[i];
    assert(single::is_finite(w));
    let code = quant::nf4_code(w, m) as int;
    assert(q.values()[i] == single::product(quant::NF4_LEVELS@[code], t));
    if config.double_quant {
        assert(single::magnitude(weights[k]) <= top);
        assert(single::value(m) <= top);
        lemma_stored_near(w, m, t, top);
    } else {
        assert(t == m);
        if single::mag(m) == 0 {
            lemma_stored_nothing(w, m, t);
        } else {
            quant::lemma_stored_weight(w, m);
        }
    }
}

/// A weight of a block without a nonzero number.
proof fn lemma_stored_nothing(w: u32, m: u32, t: u32)
    requires
        single::is_finite(w),
        single::is_finite(t),
        single::mag(m) == 0,
        single::mag(w) <= single::mag(m),
    ensures
        ({
            let x = single::product(quant::NF4_LEVELS@[quant::nf4_code(w, m) as int], t);
            &&& single::is_finite(x)
            &&& single::value(x) == 0
            &&& single::value(w) == 0
            &&& single::value(m) == 0
        }),
{
    assert(quant::NF4_LEVELS@[7] == 0);
    assert(quant::nf4_code(w, m) == 7);
    float_laws::lemma_zero(m);
    float_laws::lemma_zero(w);
    float_laws::lemma_zero_product(0, t);
    float_laws::lemma_zero(single::product(0, t));
}

/// The value of a weight under a scale `t` near the scale `m` that its code was
/// chosen for.
proof fn lemma_stored_near(w: u32, m: u32, t: u32, top: int)
    requires
        single::is_finite(w),
        single::is_finite(m),
        single::is_finite(t),
        !single::is_negative(m),
        single::mag(w) <= single::mag(m),
        single::value(m) <= top,
        254 * 0x100_0000 * ieee::apart(single::value(t), single::value(m)) <= (0x100_0000 + 636)
            * top + 127 * 0x100_0000,
    ensures
        ({
            let x = single::product(quant::NF4_LEVELS@[quant::nf4_code(w, m) as int], t);
            &&& single::is_finite(x)
            &&& 1_000 * ieee::apart(single::value(x), single::value(w)) <= 152 * single::value(m)
                + 4 * top + 2_100
        }),
{
    if single::mag(m) == 0 {
        lemma_stored_nothing(w, m, t);
    } else {
        let code = quant::nf4_code(w, m) as int;
        quant::lemma_stored_weight(w, m);
        quant::lemma_nearest_level(single::quotient(w, m), 16);
        lemma_close_values(code, m, t);
        let l = quant::NF4_LEVELS@[code];
        let (x, y, v) = (
            single::value(single::product(l, t)),
            single::value(single::product(l, m)),
            single::value(w),
        );
        let g = ieee::apart(single::value(t), single::value(m));
        assert(single::magnitude(t) <= single::value(m) + g);
        let (e1, e2) = (ieee::apart(y, x), ieee::apart(y, v));
        assert(ieee::apart(x, v) <= e1 + e2);
        let s = single::value(m);
        assert(ieee::apart(single::value(m), single::value(t)) == g);
        assert(0x100_0000 * e1 <= 0x100_0000 * g + 0x100_0000 + s + s + g);
        assert(1_000 * e2 <= 152 * s + 500);
        assert(1_000 * (e1 + e2) <= 152 * s + 4 * top + 2_100) by (nonlinear_arith)
            requires
                0x100_0000 * e1 <= 0x100_0000 * g + 0x100_0000 + s + s + g,
                254 * 0x100_0000 * g <= (0x100_0000 + 636) * top + 127 * 0x100_0000,
                1_000 * e2 <= 152 * s + 500,
                0 <= s <= top,
        ;
    }
}

/// Two codes share a byte: the first of them is its lower half, the second its
/// upper half, which is zero where there is none.
pub proof fn lemma_packed(codes: Seq<u8>, k: int)
    requires
        forall|j: int| 0 <= j < codes.len() ==> #[trigger] codes[j] < 16,
        0 <= 2 * k < codes.len(),
    ensures
        quant::packed(codes).len() == quant::ceil_div(codes.len(), 2),
        k < quant::packed(codes).len(),
        quant::packed(codes)[k] % 16 == codes[2 * k],
        quant::packed(codes)[k] / 16 == (if 2 * k + 1 < codes.len() {
            codes[2 * k + 1]
        } else {
            0
        }),
{
    assert(codes[2 * k] < 16);
    if 2 * k + 1 < codes.len() {
        assert(codes[2 * k + 1] < 16);
    }
}

/// What a quantized matrix takes: half a byte per weight, and four bytes per
/// block, or one byte per block and four bytes per 256 blocks.
pub proof fn lemma_storage(weights: Seq<u32>, rows: nat, cols: nat, config: QuantConfig)
    requires
        config.block_size > 0,
        weights.len() == rows * cols,
    ensures
        ({
            let blocks = quant::ceil_div(rows * cols, config.block_size as nat);
            quant::quantized(weights, rows, cols, config).storage() == quant::ceil_div(
                rows * cols,
                2,
            ) + (if config.double_quant {
                blocks + 4 * quant::ceil_div(blocks, 256)
            } else {
                4 * blocks
            })
        }),
{
}

/// A quotient rounded up covers its numerator, and one less does not.
pub proof fn lemma_ceil_div(n: nat, d: nat)
    requires
        d > 0,
    ensures
        n <= quant::ceil_div(n, d) * d,
        quant::ceil_div(n, d) * d < n + d,
{
    ieee::lemma_div_parts(n, d);
    let (q, r) = (n / d, n % d);
    assert(q * d == d * q && (q + 1) * d == d * q + d) by (nonlinear_arith);
}

} // verus!
