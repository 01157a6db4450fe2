//! How far the first step of the optimizer moves an element.
use crate::error::QloraError;
use crate::float_laws;
use crate::optim;
use crate::optim::{AdamConfig, AdamStats, AdamView};
use crate::optim_laws;
use crate::optim_laws::{mixed, mixed_squares, update};
use crate::quant;
use crate::single;
use vstd::arithmetic::power2::*;
use vstd::prelude::*;

verus! {

/// Whether settings and a gradient are ordinary: decays of at most `1 - 2^-20`,
/// a learning rate between `2^-40` and `2^20`, a gradient between `2^-20` and
/// `2^20` in magnitude, and a positive stability term that does not exceed it.
pub open spec fn ordinary(c: AdamConfig, g: u32) -> bool {
    let one = pow2(149);
    &&& c.fault() is None
    &&& one <= 0x10_0000 * single::magnitude(single::difference(single::ONE, c.beta1))
    &&& one <= 0x10_0000 * single::magnitude(single::difference(single::ONE, c.beta2))
    &&& one <= 0x100_0000_0000 * single::magnitude(c.lr)
    &&& single::magnitude(c.lr) <= 0x10_0000 * one
    &&& single::is_finite(g)
    &&& one <= 0x10_0000 * single::magnitude(g)
    &&& single::magnitude(g) <= 0x10_0000 * one
    &&& single::is_finite(c.eps)
    &&& single::order_key(c.eps) > 0
    &&& single::magnitude(c.eps) <= single::magnitude(g)
}

/// The sizes of the numbers involved.
proof fn lemma_sizes()
    ensures
        pow2(149) == 0x100_0000_0000 * pow2(109),
        pow2(109) >= 0x1_0000_0000,
        single::largest_finite() >= 0x4_0000_0000_0000 * pow2(149),
        single::magnitude(single::ONE) == pow2(149),
{
    lemma2_to64();
    lemma2_to64_rest();
    lemma_pow2_adds(40, 109);
    lemma_pow2_adds(32, 77);
    lemma_pow2_pos(77);
    lemma_pow2_adds(50, 149);
    lemma_pow2_adds(54, 199);
    lemma_pow2_pos(199);
    assert(0xFF_FFFF * pow2(253) >= pow2(199)) by (nonlinear_arith)
        requires
            pow2(253) == pow2(54) * pow2(199),
            pow2(54) >= 1,
            pow2(199) >= 1,
    ;
    crate::ieee::lemma_units_at(single::HALF as nat, 126, single::HALF as nat);
    lemma_pow2_adds(23, 126);
    assert(126 * single::HALF as nat + single::HALF as nat == single::mag(single::ONE));
}

/// `1 - beta` is positive and at most one.
proof fn lemma_keep(beta: u32)
    requires
        optim::is_decay(beta),
    ensures
        single::is_finite(single::difference(single::ONE, beta)),
        !single::is_negative(single::difference(single::ONE, beta)),
        single::magnitude(single::difference(single::ONE, beta)) <= pow2(149),
        single::is_finite(beta),
{
    lemma_sizes();
    float_laws::lemma_one_minus(beta);
    float_laws::lemma_zero(beta);
    float_laws::lemma_difference_ordered(single::ONE, beta);
    let k = single::difference(single::ONE, beta);
    crate::ieee::lemma_units_ordered(
        single::mag(k),
        single::mag(single::ONE),
        single::HALF as nat,
    );
}

/// The corrected first moment of the first step is near the gradient.
proof fn lemma_m_hat(beta: u32, g: u32)
    requires
        optim::is_decay(beta),
        pow2(149) <= 0x10_0000 * single::magnitude(single::difference(single::ONE, beta)),
        single::is_finite(g),
        pow2(149) <= 0x10_0000 * single::magnitude(g),
        single::magnitude(g) <= 0x10_0000 * pow2(149),
    ensures
        ({
            let mh = single::quotient(
                mixed(beta, 0, g),
                single::difference(single::ONE, beta),
            );
            &&& single::is_finite(mh)
            &&& 49 * single::magnitude(g) <= 64 * single::magnitude(mh) <= 81 * single::magnitude(
                g,
            )
        }),
{
    lemma_sizes();
    lemma_keep(beta);
    let k = single::difference(single::ONE, beta);
    let (kk, gg, u, c) = (
        single::magnitude(k) as int,
        single::magnitude(g) as int,
        pow2(149) as int,
        pow2(109) as int,
    );
    let big = single::largest_finite() as int;
    float_laws::lemma_zero_product(beta, 0);
    assert(4 * u <= kk * gg && kk * gg <= u * big) by (nonlinear_arith)
        requires
            u == 0x100_0000_0000 * c,
            c >= 0x1_0000_0000,
            u <= 0x10_0000 * kk,
            kk <= u,
            u <= 0x10_0000 * gg,
            gg <= 0x10_0000 * u,
            big >= 0x4_0000_0000_0000 * u,
    {
        assert(kk >= 0x10_0000 * c);
        assert(gg >= 0x10_0000 * c);
        assert(kk * gg >= (0x10_0000 * c) * (0x10_0000 * c));
        assert(kk * gg <= u * gg);
        assert(u * gg <= u * big);
    }
    float_laws::lemma_product_near(k, g);
    let x = single::product(k, g);
    float_laws::lemma_zero_added(single::product(beta, 0), x);
    let m = mixed(beta, 0, g);
    let mm = single::magnitude(m) as int;
    assert(mm == single::magnitude(x));
    assert(4 * kk <= mm * u && mm * u <= kk * big) by (nonlinear_arith)
        requires
            u == 0x100_0000_0000 * c,
            c >= 0x1_0000_0000,
            7 * (kk * gg) <= 8 * (mm * u),
            8 * (mm * u) <= 9 * (kk * gg),
            u <= 0x10_0000 * gg,
            gg <= 0x10_0000 * u,
            big >= 0x4_0000_0000_0000 * u,
            kk > 0,
    {
        assert(gg >= 0x10_0000 * c);
        assert(kk * gg >= kk * (0x10_0000 * c));
        assert(kk * gg <= kk * (0x10_0000 * u));
        assert(kk * big >= kk * (0x4_0000_0000_0000 * u));
    }
    float_laws::lemma_quotient_near(m, k);
    let z = single::magnitude(single::quotient(m, k)) as int;
    assert(49 * gg <= 64 * z && 64 * z <= 81 * gg) by (nonlinear_arith)
        requires
            7 * (kk * gg) <= 8 * (mm * u),
            8 * (mm * u) <= 9 * (kk * gg),
            7 * (mm * u) <= 8 * (z * kk),
            8 * (z * kk) <= 9 * (mm * u),
            kk > 0,
    {
        assert(49 * (kk * gg) <= 64 * (z * kk));
        assert(64 * (z * kk) <= 81 * (kk * gg));
        assert(kk * (64 * z - 49 * gg) >= 0);
        assert(kk * (81 * gg - 64 * z) >= 0);
    }
}

/// The corrected second moment of the first step is near the square of the
/// gradient.
proof fn lemma_v_hat(beta: u32, g: u32)
    requires
        optim::is_decay(beta),
        pow2(149) <= 0x10_0000 * single::magnitude(single::difference(single::ONE, beta)),
        single::is_finite(g),
        pow2(149) <= 0x10_0000 * single::magnitude(g),
        single::magnitude(g) <= 0x10_0000 * pow2(149),
    ensures
        ({
            let vh = single::quotient(
                mixed_squares(beta, 0, g),
                single::difference(single::ONE, beta),
            );
            let square = single::magnitude(g) * single::magnitude(g);
            &&& single::is_finite(vh)
            &&& !single::is_negative(vh)
            &&& 343 * square <= 512 * (single::magnitude(vh) * pow2(149)) <= 729 * square
        }),
{
    lemma_sizes();
    lemma_keep(beta);
    let k = single::difference(single::ONE, beta);
    let (kk, gg, u, c) = (
        single::magnitude(k) as int,
        single::magnitude(g) as int,
        pow2(149) as int,
        pow2(109) as int,
    );
    let big = single::largest_finite() as int;
    float_laws::lemma_zero_product(beta, 0);
    float_laws::lemma_zero_product(single::product(beta, 0), 0);
    let zero = single::product(single::product(beta, 0), 0);
    assert(4 * u <= kk * gg && kk * gg <= u * big && kk * gg >= u * c) by (nonlinear_arith)
        requires
            u == 0x100_0000_0000 * c,
            c >= 0x1_0000_0000,
            u <= 0x10_0000 * kk,
            kk <= u,
            u <= 0x10_0000 * gg,
            gg <= 0x10_0000 * u,
            big >= 0x4_0000_0000_0000 * u,
    {
        assert(kk >= 0x10_0000 * c);
        assert(gg >= 0x10_0000 * c);
        assert(kk * gg >= (0x10_0000 * c) * (0x10_0000 * c));
        assert(kk * gg <= u * gg);
        assert(u * gg <= u * big);
    }
    float_laws::lemma_product_near(k, g);
    float_laws::lemma_product_sign(k, g);
    let y = single::product(k, g);
    let yy = single::magnitude(y) as int;
    let q = yy * gg;
    assert(4 * u <= q && q <= u * big) by (nonlinear_arith)
        requires
            q == yy * gg,
            u == 0x100_0000_0000 * c,
            c >= 0x1_0000_0000,
            7 * (kk * gg) <= 8 * (yy * u),
            8 * (yy * u) <= 9 * (kk * gg),
            kk * gg >= u * c,
            kk <= u,
            u <= 0x10_0000 * gg,
            gg <= 0x10_0000 * u,
            big >= 0x4_0000_0000_0000 * u,
            yy >= 0,
    {
        assert(kk * gg <= u * gg);
        assert(u * (8 * yy) >= u * (7 * c));
        assert(8 * yy >= 7 * c);
        assert(u * (8 * yy) <= u * (9 * gg));
        assert(8 * yy <= 9 * gg);
        assert(gg >= 0x10_0000 * c);
        assert(8 * (yy * gg) >= 7 * (c * (0x10_0000 * c)));
        assert(c * (0x10_0000 * c) >= 0x10_0000 * (0x1_0000_0000 * c));
        assert(8 * (yy * gg) <= 9 * (gg * gg));
        assert(gg * gg <= (0x10_0000 * u) * (0x10_0000 * u));
        assert(u * big >= u * (0x4_0000_0000_0000 * u));
    }
    float_laws::lemma_product_near(y, g);
    float_laws::lemma_product_sign(y, g);
    let w = single::product(y, g);
    let ww = single::magnitude(w) as int;
    float_laws::lemma_zero_added(zero, w);
    let v = mixed_squares(beta, 0, g);
    assert(ww > 0) by (nonlinear_arith)
        requires
            7 * q <= 8 * (ww * u),
            4 * u <= q,
            u > 0,
            ww >= 0,
    ;
    assert(single::value(v) > 0);
    let vv = single::magnitude(v) as int;
    assert(vv == ww);
    assert(4 * kk <= vv * u && vv * u <= kk * big) by (nonlinear_arith)
        requires
            q == yy * gg,
            7 * q <= 8 * (vv * u),
            8 * (vv * u) <= 9 * q,
            7 * (kk * gg) <= 8 * (yy * u),
            8 * (yy * u) <= 9 * (kk * gg),
            u == 0x100_0000_0000 * c,
            c >= 0x1_0000_0000,
            kk <= u,
            kk > 0,
            4 * u <= q,
            u <= 0x10_0000 * gg,
            gg <= 0x10_0000 * u,
            big >= 0x4_0000_0000_0000 * u,
            yy >= 0,
            kk * gg >= u * c,
    {
        assert(u * (8 * yy) >= u * (7 * c));
        assert(8 * yy >= 7 * c);
        assert(gg >= 0x10_0000 * c);
        assert(8 * (yy * gg) >= 7 * (c * (0x10_0000 * c)));
        assert(c * (0x10_0000 * c) >= 0x10_0000 * (0x1_0000_0000 * c));
        assert(8 * q >= 7 * (0x10_0000_0000_0000 * c));
        // 8 * y * u <= 9 * k * g and g <= 2^20 * u give 8 * y <= 9 * 2^20 * k.
        assert(kk * gg <= kk * (0x10_0000 * u));
        assert(u * (8 * yy) <= u * (9 * (0x10_0000 * kk)));
        assert(8 * yy <= 9 * (0x10_0000 * kk));
        assert(8 * (yy * gg) <= 9 * (0x10_0000 * kk) * gg);
        assert(9 * (0x10_0000 * kk) * gg <= 9 * (0x10_0000 * kk) * (0x10_0000 * u));
        assert(kk * big >= kk * (0x4_0000_0000_0000 * u));
    }
    float_laws::lemma_quotient_near(v, k);
    let vh = single::quotient(v, k);
    let z = single::magnitude(vh) as int;
    assert(single::is_negative(vh) == false) by {
        float_laws::lemma_zero(k);
        single::lemma_with_sign(
            false,
            single::clamped(
                crate::ieee::encode(
                    single::magnitude(v) * pow2(149),
                    single::magnitude(k),
                    single::HALF as nat,
                ),
            ),
        );
    }
    let s = gg * gg;
    assert(343 * s <= 512 * (z * u) && 512 * (z * u) <= 729 * s) by (nonlinear_arith)
        requires
            s == gg * gg,
            q == yy * gg,
            7 * q <= 8 * (vv * u),
            8 * (vv * u) <= 9 * q,
            7 * (kk * gg) <= 8 * (yy * u),
            8 * (yy * u) <= 9 * (kk * gg),
            7 * (vv * u) <= 8 * (z * kk),
            8 * (z * kk) <= 9 * (vv * u),
            kk > 0,
            u > 0,
            gg > 0,
    {
        assert(49 * q <= 64 * (z * kk));
        assert(64 * (z * kk) <= 81 * q);
        assert(7 * (kk * gg) * gg <= 8 * (yy * u) * gg);
        assert(8 * (yy * u) * gg <= 9 * (kk * gg) * gg);
        assert((yy * u) * gg == q * u);
        assert((kk * gg) * gg == kk * s);
        assert(7 * (kk * s) <= 8 * (q * u));
        assert(8 * (q * u) <= 9 * (kk * s));
        assert(49 * q * u <= 64 * (z * kk) * u);
        assert(64 * (z * kk) * u <= 81 * q * u);
        assert((z * kk) * u == kk * (z * u));
        assert(343 * (kk * s) <= 512 * (kk * (z * u)));
        assert(512 * (kk * (z * u)) <= 729 * (kk * s));
        assert(kk * (512 * (z * u) - 343 * s) >= 0);
        assert(kk * (729 * s - 512 * (z * u)) >= 0);
    }
}

/// The first update is about as large as the learning rate: at least an eighth
/// of it and at most four times as large.
pub proof fn lemma_first_update(c: AdamConfig, g: u32)
    requires
        ordinary(c, g),
    ensures
        ({
            let u = update(
                c.lr,
                c.eps,
                mixed(c.beta1, 0, g),
                mixed_squares(c.beta2, 0, g),
                (c.beta1, c.beta2),
            );
            &&& single::is_finite(u)
            &&& single::magnitude(c.lr) <= 8 * single::magnitude(u)
            &&& single::magnitude(u) <= 4 * single::magnitude(c.lr)
        }),
{
    lemma_sizes();
    lemma_m_hat(c.beta1, g);
    lemma_v_hat(c.beta2, g);
    let mh = single::quotient(
        mixed(c.beta1, 0, g),
        single::difference(single::ONE, c.beta1),
    );
    let vh = single::quotient(
        mixed_squares(c.beta2, 0, g),
        single::difference(single::ONE, c.beta2),
    );
    let (gg, u, d) = (single::magnitude(g) as int, pow2(149) as int, pow2(109) as int);
    let big = single::largest_finite() as int;
    float_laws::lemma_root_near(vh, single::magnitude(g));
    let s = single::root(vh);
    let (r, e) = (single::magnitude(s) as int, single::magnitude(c.eps) as int);
    float_laws::lemma_zero(s);
    float_laws::lemma_zero(c.eps);
    float_laws::lemma_sum_near(s, c.eps);
    let bottom = single::sum(s, c.eps);
    let b = single::magnitude(bottom) as int;
    assert(16 * b >= 7 * gg && 8 * b <= 27 * gg);
    let (l, m) = (single::magnitude(c.lr) as int, single::magnitude(mh) as int);
    assert(4 * u <= l * m && l * m <= u * big) by (nonlinear_arith)
        requires
            u == 0x100_0000_0000 * d,
            d >= 0x1_0000_0000,
            u <= 0x100_0000_0000 * l,
            l <= 0x10_0000 * u,
            49 * gg <= 64 * m,
            64 * m <= 81 * gg,
            u <= 0x10_0000 * gg,
            gg <= 0x10_0000 * u,
            big >= 0x4_0000_0000_0000 * u,
    {
        assert(l >= d);
        assert(gg >= 0x10_0000 * d);
        assert(2 * m >= gg);
        assert(m <= 2 * gg);
        assert(l * (2 * m) >= d * (0x10_0000 * d));
        assert(d * (0x10_0000 * d) >= (0x10_0000 * 0x1_0000_0000) * d);
        assert(l * m <= (0x10_0000 * u) * (2 * (0x10_0000 * u)));
        assert(u * big >= u * (0x4_0000_0000_0000 * u));
    }
    float_laws::lemma_product_near(c.lr, mh);
    let top = single::product(c.lr, mh);
    let t = single::magnitude(top) as int;
    let p = t * u;
    assert(4 * b <= p && p <= b * big) by (nonlinear_arith)
        requires
            u == 0x100_0000_0000 * d,
            d >= 0x1_0000_0000,
            7 * (l * m) <= 8 * p,
            8 * p <= 9 * (l * m),
            u <= 0x100_0000_0000 * l,
            l <= 0x10_0000 * u,
            49 * gg <= 64 * m,
            64 * m <= 81 * gg,
            16 * b >= 7 * gg,
            8 * b <= 27 * gg,
            gg >= 1,
            big >= 0x4_0000_0000_0000 * u,
    {
        assert(l >= d);
        assert(2 * m >= gg);
        assert(m <= 2 * gg);
        assert(l * (2 * m) >= 0x1_0000_0000 * gg);
        assert(l * m <= (0x10_0000 * u) * (2 * gg));
        assert((16 * b) * big >= (7 * gg) * big);
        assert(gg * big >= gg * (0x4_0000_0000_0000 * u));
    }
    float_laws::lemma_quotient_near(top, bottom);
    let z = single::magnitude(single::quotient(top, bottom)) as int;
    assert(l <= 8 * z && z <= 4 * l) by (nonlinear_arith)
        requires
            7 * (l * m) <= 8 * p,
            8 * p <= 9 * (l * m),
            7 * p <= 8 * (z * b),
            8 * (z * b) <= 9 * p,
            49 * gg <= 64 * m,
            64 * m <= 81 * gg,
            16 * b >= 7 * gg,
            8 * b <= 27 * gg,
            gg >= 1,
            l >= 0,
            z >= 0,
    {
        assert(l * (64 * m) >= l * (49 * gg));
        assert(l * (64 * m) <= l * (81 * gg));
        assert(49 * (l * m) <= 64 * (z * b));
        assert(64 * (z * b) <= 81 * (l * m));
        assert(z * (8 * b) <= z * (27 * gg));
        assert(z * (16 * b) >= z * (7 * gg));
        assert(gg * (8 * z - l) >= 0);
        assert(gg * (4 * l - z) >= 0);
    }
}

/// On the first step an element with a nonzero gradient moves against it, for
/// ordinary settings and a value that is not too large for the learning rate:
/// with a positive gradient it becomes smaller, with a negative one larger.
/// This holds in every block.
pub proof fn lemma_first_step_moves(
    a: AdamView,
    params: Seq<Seq<u32>>,
    grads: Seq<Seq<u32>>,
    powers: Seq<(u32, u32)>,
    next: Seq<Seq<u32>>,
    later: AdamView,
    r: Result<AdamStats, QloraError>,
    i: int,
    j: int,
)
    requires
        a.makes_step(params, grads, powers, next, later, r),
        optim_laws::paired(params, grads, i),
        i >= a.states.len() || a.states[i].numel != params[i].len(),
        powers[i] == (a.config.beta1, a.config.beta2),
        0 <= j < params[i].len(),
        ordinary(a.config, grads[i][j]),
        single::is_finite(params[i][j]),
        single::magnitude(params[i][j]) <= 0x8_0000 * single::magnitude(a.config.lr),
    ensures
        single::is_finite(next[i][j]),
        single::value(grads[i][j]) > 0 ==> single::value(next[i][j]) < single::value(params[i][j]),
        single::value(grads[i][j]) < 0 ==> single::value(next[i][j]) > single::value(params[i][j]),
{
    let c = a.config;
    let (p, g) = (params[i][j], grads[i][j]);
    let pw = (c.beta1, c.beta2);
    let u = update(c.lr, c.eps, mixed(c.beta1, 0, g), mixed_squares(c.beta2, 0, g), pw);
    lemma_sizes();
    optim_laws::lemma_element(a, params, grads, powers, next, later, r, i, j);
    lemma_first_update(c, g);
    optim_laws::lemma_update_side(c, 0, 0, g, pw);
    float_laws::lemma_zero(g);
    float_laws::lemma_zero(u);
    quant::lemma_finite_magnitude(p);
    float_laws::lemma_difference_moves(p, u);
}

} // verus!
