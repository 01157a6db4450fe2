//! Root-mean-square normalization, forward and backward.
use crate::ieee;
use crate::lora;
use crate::model::weights::zeros;
use crate::quant;
use crate::single;
use vstd::prelude::*;

verus! {

/// The encoding of `2`.
pub const TWO: u32 = 0x4000_0000;

/// The encoding of `-0.5`.
pub const MINUS_HALF: u32 = 0xBF00_0000;

/// The sum of the squares, from left to right.
///
/// Sums of products begin with negative zero, the neutral element of
/// addition.
pub open spec fn square_sum(s: Seq<u32>) -> u32
    decreases s.len(),
{
    if s.len() == 0 {
        single::SIGN
    } else {
        single::sum(square_sum(s.drop_last()), single::product(s.last(), s.last()))
    }
}

/// The mean square of a row of width `h`, plus `eps`.
pub open spec fn damped_mean(row: Seq<u32>, h: int, eps: u32) -> u32 {
    single::sum(single::quotient(square_sum(row), single::of_integer(h)), eps)
}

/// `1 / sqrt(mean(x^2) + eps)`.
#[verifier::opaque]
pub open spec fn row_scale(row: Seq<u32>, h: int, eps: u32) -> u32 {
    single::quotient(single::ONE, single::root(damped_mean(row, h, eps)))
}

/// `x / sqrt(mean(x^2) + eps) * w`, row by row.
pub open spec fn normalized(x: Seq<u32>, w: Seq<u32>, eps: u32) -> Seq<u32> {
    let h = w.len() as int;
    Seq::new(
        x.len(),
        |i: int|
            single::product(
                single::product(x[i], row_scale(quant::block(x, i / h, h), h, eps)),
                w[i % h],
            ),
    )
}

/// The sum of the squares of a row.
fn sum_squares(x: &[u32], from: usize, to: usize) -> (r: u32)
    requires
        from <= to <= x@.len(),
    ensures
        r == square_sum(x@.subrange(from as int, to as int)),
{
    let ghost s = x@.subrange(from as int, to as int);
    let mut acc: u32 = single::SIGN;
    let mut i: usize = from;
    assert(s.take(0) =~= seq![]);
    while i < to
        invariant
            from <= i <= to <= x@.len(),
            s == x@.subrange(from as int, to as int),
            acc == square_sum(s.take(i - from)),
        decreases to - i,
    {
        assert(s.take(i + 1 - from).drop_last() =~= s.take(i - from));
        acc = single::plus(acc, single::times(x[i], x[i]));
        i = i + 1;
    }
    assert(s.take(to - from) =~= s);
    acc
}

/// Row-wise RMSNorm in place: `x = x / sqrt(mean(x^2) + eps) * w`.
pub fn rmsnorm_in_place(x: &mut Vec<u32>, w: &[u32], eps: u32)
    requires
        w@.len() > 0,
    ensures
        final(x)@ == normalized(old(x)@, w@, eps),
{
    let h: usize = w.len();
    let n: usize = x.len();
    let ghost x0 = x@;
    let ghost want = normalized(x0, w@, eps);
    let width: u32 = single::from_u64(h as u64);
    let mut start: usize = 0;
    let ghost mut b: int = 0;
    while start < n
        invariant
            h == w@.len(),
            h > 0,
            n == x0.len() == x@.len(),
            want == normalized(x0, w@, eps),
            width == single::of_integer(h as int),
            start <= n,
            b >= 0,
            start < n ==> start == b * h,
            forall|k: int| 0 <= k < start ==> #[trigger] x@[k] == want[k],
            forall|k: int| start <= k < n ==> #[trigger] x@[k] == x0[k],
        decreases n - start,
    {
        let end: usize = if n - start < h {
            n
        } else {
            start + h
        };
        let mean: u32 = single::over(sum_squares(x.as_slice(), start, end), width);
        let scale: u32 = single::over(single::ONE, single::sqrt(single::plus(mean, eps)));
        let ghost row = quant::block(x0, b, h as int);
        proof {
            reveal(row_scale);
            assert(x@.subrange(start as int, end as int) =~= row);
            assert(scale == row_scale(row, h as int, eps));
        }
        let mut i: usize = start;
        while i < end
            invariant
                h == w@.len(),
                h > 0,
                n == x0.len() == x@.len(),
                want == normalized(x0, w@, eps),
                b >= 0,
                start == b * h,
                start <= i <= end <= n,
                end <= start + h,
                row == quant::block(x0, b, h as int),
                scale == row_scale(row, h as int, eps),
                forall|k: int| 0 <= k < i ==> #[trigger] x@[k] == want[k],
                forall|k: int| i <= k < n ==> #[trigger] x@[k] == x0[k],
            decreases end - i,
        {
            proof {
                assert(h * b == b * h) by (nonlinear_arith);
                ieee::lemma_div_unique(i as nat, h as nat, b as nat, (i - start) as nat);
            }
            let v: u32 = single::times(single::times(x[i], scale), w[i - start]);
            x.set(i, v);
            i = i + 1;
        }
        proof {
            assert((b + 1) * h == b * h + h) by (nonlinear_arith);
            b = b + 1;
        }
        start = end;
    }
    assert(x@ =~= want);
}

/// `sum(dy * x * w)` over the first `n` elements of a row.
pub open spec fn weighted_sum(dy: Seq<u32>, x: Seq<u32>, w: Seq<u32>, n: nat) -> u32
    decreases n,
{
    if n == 0 {
        0
    } else {
        let j = n - 1;
        single::sum(
            weighted_sum(dy, x, w, j as nat),
            single::product(single::product(dy[j], x[j]), w[j]),
        )
    }
}

/// The gradient of the damped mean: `sum(dy * x * w) * (-0.5 / s / sqrt(s))`.
#[verifier::opaque]
pub open spec fn mean_gradient(dy: Seq<u32>, x: Seq<u32>, w: Seq<u32>, eps: u32) -> u32 {
    let h = w.len();
    let ss = damped_mean(x, h as int, eps);
    let r = single::quotient(single::ONE, single::root(ss));
    single::product(
        weighted_sum(dy, x, w, h),
        single::product(single::product(MINUS_HALF, single::quotient(single::ONE, ss)), r),
    )
}

/// `dL/dx` of one element: `dy * w * r + 2 * x / h * ds`.
#[verifier::opaque]
pub open spec fn element_gradient(dy: u32, x: u32, w: u32, h: int, r: u32, ds: u32) -> u32 {
    single::sum(
        single::product(single::product(dy, w), r),
        single::product(
            single::quotient(single::product(TWO, x), single::of_integer(h)),
            ds,
        ),
    )
}

/// `dL/dx` of the normalization.
pub open spec fn input_gradient(x: Seq<u32>, w: Seq<u32>, dy: Seq<u32>, eps: u32) -> Seq<u32> {
    let h = w.len() as int;
    Seq::new(
        x.len(),
        |i: int|
            if i / h < x.len() as int / h {
                let xr = lora::row(x, i / h, h);
                let dyr = lora::row(dy, i / h, h);
                element_gradient(
                    dyr[i % h],
                    xr[i % h],
                    w[i % h],
                    h,
                    row_scale(xr, h, eps),
                    mean_gradient(dyr, xr, w, eps),
                )
            } else {
                0
            },
    )
}

/// `dL/dw` of weight `j` after the first `n` rows: the sum of `dy * x * r`.
pub open spec fn weight_gradient(
    x: Seq<u32>,
    dy: Seq<u32>,
    h: int,
    eps: u32,
    j: int,
    n: nat,
) -> u32
    decreases n,
{
    if n == 0 {
        0
    } else {
        let t = n - 1;
        let xr = lora::row(x, t, h);
        let dyr = lora::row(dy, t, h);
        single::sum(
            weight_gradient(x, dy, h, eps, j, t as nat),
            single::product(single::product(dyr[j], xr[j]), row_scale(xr, h, eps)),
        )
    }
}

/// RMSNorm backward: returns `(dx, dw)` for `y = x / sqrt(mean(x^2)+eps) * w`.
pub fn rmsnorm_backward(x: &[u32], w: &[u32], dy: &[u32], eps: u32) -> (r: (Vec<u32>, Vec<u32>))
    requires
        w@.len() > 0,
        dy@.len() == x@.len(),
    ensures
        r.0@ == input_gradient(x@, w@, dy@, eps),
        r.1@ == Seq::new(
            w@.len(),
            |j: int|
                weight_gradient(
                    x@,
                    dy@,
                    w@.len() as int,
                    eps,
                    j,
                    (x@.len() as int / w@.len() as int) as nat,
                ),
        ),
{
    let h: usize = w.len();
    let n: usize = x.len();
    let s: usize = n / h;
    let ghost want = input_gradient(x@, w@, dy@, eps);
    let width: u32 = single::from_u64(h as u64);
    let mut dx = zeros(n);
    let mut dw = zeros(h);
    let mut t: usize = 0;
    proof {
        ieee::lemma_div_parts(n as nat, h as nat);
        assert forall|k: int| s * h <= k < n implies #[trigger] want[k] == 0 by {
            let (q, m) = (k / h as int, k % h as int);
            ieee::lemma_div_parts(k as nat, h as nat);
            assert(q >= s) by (nonlinear_arith)
                requires
                    k == h * q + m,
                    0 <= m < h,
                    s * h <= k,
            ;
        }
        assert(s * h == h * s) by (nonlinear_arith);
        assert(0 * h == 0);
    }
    while t < s
        invariant
            h == w@.len(),
            h > 0,
            n == x@.len() == dy@.len() == dx@.len(),
            s == n / h,
            s * h <= n,
            want == input_gradient(x@, w@, dy@, eps),
            width == single::of_integer(h as int),
            t <= s,
            dw@.len() == h,
            forall|k: int| 0 <= k < t * h ==> #[trigger] dx@[k] == want[k],
            forall|k: int| t * h <= k < n ==> #[trigger] dx@[k] == 0,
            forall|j: int|
                0 <= j < h ==> #[trigger] dw@[j] == weight_gradient(
                    x@,
                    dy@,
                    h as int,
                    eps,
                    j,
                    t as nat,
                ),
        decreases s - t,
    {
        let ghost xr = lora::row(x@, t as int, h as int);
        let ghost dyr = lora::row(dy@, t as int, h as int);
        proof {
            assert((t + 1) * h == t * h + h) by (nonlinear_arith);
            assert((t + 1) * h <= s * h) by (nonlinear_arith)
                requires
                    t + 1 <= s,
                    h > 0,
            ;
            assert(t * h >= 0) by (nonlinear_arith);
        }
        let base: usize = t * h;
        let mean: u32 = single::over(sum_squares(x, base, base + h), width);
        let ss: u32 = single::plus(mean, eps);
        let r: u32 = single::over(single::ONE, single::sqrt(ss));
        proof {
            reveal(row_scale);
            assert(x@.subrange(base as int, base + h) =~= xr);
        }
        let mut ds: u32 = 0;
        let mut j: usize = 0;
        while j < h
            invariant
                h == w@.len(),
                h > 0,
                n == x@.len() == dy@.len(),
                base == t * h,
                base + h <= n,
                j <= h,
                dw@.len() == h,
                xr == lora::row(x@, t as int, h as int),
                dyr == lora::row(dy@, t as int, h as int),
                r == row_scale(xr, h as int, eps),
                ds == weighted_sum(dyr, xr, w@, j as nat),
                forall|k: int|
                    0 <= k < h ==> #[trigger] dw@[k] == weight_gradient(
                        x@,
                        dy@,
                        h as int,
                        eps,
                        k,
                        (if k < j {
                            t + 1
                        } else {
                            t as int
                        }) as nat,
                    ),
            decreases h - j,
        {
            let xj: u32 = x[base + j];
            let dyj: u32 = dy[base + j];
            assert(xj == xr[j as int] && dyj == dyr[j as int]);
            let part: u32 = single::times(dyj, xj);
            ds = single::plus(ds, single::times(part, w[j]));
            let d: u32 = single::plus(dw[j], single::times(part, r));
            dw.set(j, d);
            j = j + 1;
        }
        let factor: u32 = single::times(
            single::times(MINUS_HALF, single::over(single::ONE, ss)),
            r,
        );
        ds = single::times(ds, factor);
        proof {
            reveal(mean_gradient);
            assert(ds == mean_gradient(dyr, xr, w@, eps));
        }
        let mut j: usize = 0;
        while j < h
            invariant
                h == w@.len(),
                h > 0,
                n == x@.len() == dy@.len() == dx@.len(),
                s == n / h,
                t < s,
                base == t * h,
                base + h <= n,
                j <= h,
                width == single::of_integer(h as int),
                want == input_gradient(x@, w@, dy@, eps),
                xr == lora::row(x@, t as int, h as int),
                dyr == lora::row(dy@, t as int, h as int),
                r == row_scale(xr, h as int, eps),
                ds == mean_gradient(dyr, xr, w@, eps),
                forall|k: int| 0 <= k < base + j ==> #[trigger] dx@[k] == want[k],
                forall|k: int| base + j <= k < n ==> #[trigger] dx@[k] == 0,
            decreases h - j,
        {
            let xj: u32 = x[base + j];
            let dyj: u32 = dy[base + j];
            proof {
                reveal(element_gradient);
                assert(xj == xr[j as int] && dyj == dyr[j as int]);
                assert(h * t == t * h) by (nonlinear_arith);
                ieee::lemma_div_unique((base + j) as nat, h as nat, t as nat, j as nat);
            }
            let g: u32 = single::plus(
                single::times(single::times(dyj, w[j]), r),
                single::times(single::over(single::times(TWO, xj), width), ds),
            );
            dx.set(base + j, g);
            j = j + 1;
        }
        t = t + 1;
    }
    assert(dx@ =~= want);
    (dx, dw)
}

} // verus!
