//! LoRA adapters and small row-major matmul helpers.
//!
//! LoRA freezes the base weight `W: (n, k)` and learns a low-rank update
//! `dW = B · A` with `A: (r, k)`, `B: (n, r)`, applied as:
//!
//! ```text
//! Y = X · W^T + scale · (X · A^T) · B^T,   scale = alpha / r
//! ```
//!
//! All matrices are row-major and hold binary32 bit patterns. `X` is
//! `(batch, k)` (batch folds the sequence dimension).
use crate::error;
use crate::error::{invalid_config, sizes_differ, QloraError, QloraErrorView};
use crate::single;
use crate::text;
use vstd::prelude::*;
use vstd::string::*;

verus! {

/// The sum of products, taken from left to right beginning with zero.
pub open spec fn dot(x: Seq<u32>, y: Seq<u32>) -> u32
    decreases x.len(),
{
    if x.len() == 0 {
        0
    } else {
        single::sum(dot(x.drop_last(), y.drop_last()), single::product(x.last(), y.last()))
    }
}

/// The vectors as sequences.
pub open spec fn lists(v: Seq<Vec<u32>>) -> Seq<Seq<u32>> {
    Seq::new(v.len(), |i: int| v[i]@)
}

/// Row `i` of a matrix with `k` columns.
pub open spec fn row(a: Seq<u32>, i: int, k: int) -> Seq<u32> {
    Seq::new(k as nat, |p: int| a[i * k + p])
}

/// Column `j` of a matrix with `k` rows and `n` columns.
pub open spec fn column(b: Seq<u32>, j: int, k: int, n: int) -> Seq<u32> {
    Seq::new(k as nat, |p: int| b[p * n + j])
}

/// The matrix whose element `(i, j)` is `f(i, j)`, row by row.
pub open spec fn matrix(m: int, n: int, f: spec_fn(int, int) -> u32) -> Seq<u32> {
    Seq::new((m * n) as nat, |t: int| f(t / n, t % n))
}

/// `A · B` with `A: (m, k)`, `B: (k, n)`.
pub open spec fn product_of(a: Seq<u32>, b: Seq<u32>, m: int, k: int, n: int) -> Seq<u32> {
    matrix(m, n, |i: int, j: int| dot(row(a, i, k), column(b, j, k, n)))
}

/// `A^T · B` with `A: (m, k)`, `B: (m, n)`.
pub open spec fn product_of_left(a: Seq<u32>, b: Seq<u32>, m: int, k: int, n: int) -> Seq<u32> {
    matrix(k, n, |i: int, j: int| dot(column(a, i, m, k), column(b, j, m, n)))
}

/// `A · B^T` with `A: (m, k)`, `B: (n, k)`.
pub open spec fn product_of_right(a: Seq<u32>, b: Seq<u32>, m: int, k: int, n: int) -> Seq<u32> {
    matrix(m, n, |i: int, j: int| dot(row(a, i, k), row(b, j, k)))
}

/// The transpose of a matrix with `m` rows and `k` columns.
pub open spec fn transposed(a: Seq<u32>, m: int, k: int) -> Seq<u32> {
    matrix(k, m, |i: int, j: int| a[j * k + i])
}

/// Row and column of a position, and the position within bounds.
pub proof fn lemma_position(i: int, j: int, m: int, n: int)
    requires
        0 <= i < m,
        0 <= j < n,
    ensures
        0 <= i * n + j < m * n,
        (i * n + j) / n == i,
        (i * n + j) % n == j,
{
    assert(i * n + j < m * n) by (nonlinear_arith)
        requires
            i + 1 <= m,
            j < n,
            n > 0,
            i >= 0,
    ;
    assert(i * n >= 0) by (nonlinear_arith)
        requires
            i >= 0,
            n > 0,
    ;
    assert(n * i == i * n) by (nonlinear_arith);
    crate::ieee::lemma_div_unique((i * n + j) as nat, n as nat, i as nat, j as nat);
}

/// Row and column of a position inside a matrix.
pub proof fn lemma_cell(t: int, m: int, n: int)
    requires
        0 <= t < m * n,
        0 <= m,
        0 <= n,
    ensures
        n > 0,
        0 <= t / n < m,
        0 <= t % n < n,
        t == (t / n) * n + t % n,
{
    assert(n > 0) by (nonlinear_arith)
        requires
            0 <= t < m * n,
            n >= 0,
    ;
    crate::ieee::lemma_div_parts(t as nat, n as nat);
    let (q, r) = (t / n, t % n);
    assert(q * n == n * q) by (nonlinear_arith);
    assert(q < m) by (nonlinear_arith)
        requires
            n * q + r < m * n,
            r >= 0,
            n > 0,
    ;
}

/// The dot product of `a[p0], a[p0 + s], ..` and `b[q0], b[q0 + t], ..`.
fn strided_dot(
    a: &[u32],
    p0: usize,
    s: usize,
    b: &[u32],
    q0: usize,
    t: usize,
    k: usize,
) -> (r: u32)
    requires
        k > 0 ==> p0 + (k - 1) * s < a@.len(),
        k > 0 ==> q0 + (k - 1) * t < b@.len(),
    ensures
        r == dot(
            Seq::new(k as nat, |i: int| a@[p0 + i * s]),
            Seq::new(k as nat, |i: int| b@[q0 + i * t]),
        ),
{
    let ghost x = Seq::new(k as nat, |i: int| a@[p0 + i * s]);
    let ghost y = Seq::new(k as nat, |i: int| b@[q0 + i * t]);
    let mut acc: u32 = 0;
    let mut p: usize = p0;
    let mut q: usize = q0;
    let mut i: usize = 0;
    proof {
        assert(x.take(0) =~= seq![]);
        assert(0 * s == 0 && 0 * t == 0);
    }
    while i < k
        invariant
            x == Seq::new(k as nat, |i: int| a@[p0 + i * s]),
            y == Seq::new(k as nat, |i: int| b@[q0 + i * t]),
            k > 0 ==> p0 + (k - 1) * s < a@.len(),
            k > 0 ==> q0 + (k - 1) * t < b@.len(),
            i <= k,
            i < k ==> p == p0 + i * s,
            i < k ==> q == q0 + i * t,
            acc == dot(x.take(i as int), y.take(i as int)),
        decreases k - i,
    {
        proof {
            assert(p0 + i * s <= p0 + (k - 1) * s) by (nonlinear_arith)
                requires
                    i <= k - 1,
                    s >= 0,
            ;
            assert(q0 + i * t <= q0 + (k - 1) * t) by (nonlinear_arith)
                requires
                    i <= k - 1,
                    t >= 0,
            ;
            assert(x.take(i + 1).drop_last() =~= x.take(i as int));
            assert(y.take(i + 1).drop_last() =~= y.take(i as int));
        }
        acc = single::plus(acc, single::times(a[p], b[q]));
        i = i + 1;
        if i < k {
            proof {
                assert(p0 + i * s <= p0 + (k - 1) * s) by (nonlinear_arith)
                    requires
                        i <= k - 1,
                        s >= 0,
                ;
                assert(q0 + i * t <= q0 + (k - 1) * t) by (nonlinear_arith)
                    requires
                        i <= k - 1,
                        t >= 0,
                ;
                assert(i * s == (i - 1) * s + s) by (nonlinear_arith);
                assert(i * t == (i - 1) * t + t) by (nonlinear_arith);
            }
            let (la, lb): (usize, usize) = (a.len(), b.len());
            p = p + s;
            q = q + t;
        }
    }
    assert(x.take(k as int) =~= x);
    assert(y.take(k as int) =~= y);
    acc
}

/// Row-major GEMM: `C = A · B` with `A: (m, k)`, `B: (k, n)`, `C: (m, n)`.
pub fn matmul(a: &[u32], b: &[u32], m: usize, k: usize, n: usize) -> (r: Vec<u32>)
    requires
        a@.len() == m * k,
        b@.len() == k * n,
        m * n <= usize::MAX,
    ensures
        r@ == product_of(a@, b@, m as int, k as int, n as int),
{
    let ghost want = product_of(a@, b@, m as int, k as int, n as int);
    let total: usize = m * n;
    let (la, lb): (usize, usize) = (a.len(), b.len());
    let mut c: Vec<u32> = Vec::new();
    let mut t: usize = 0;
    while t < total
        invariant
            la == a@.len() == m * k,
            b@.len() == k * n,
            total == m * n,
            want == product_of(a@, b@, m as int, k as int, n as int),
            t <= total,
            c@.len() == t,
            forall|s: int| 0 <= s < t ==> #[trigger] c@[s] == want[s],
        decreases total - t,
    {
        proof {
            lemma_cell(t as int, m as int, n as int);
        }
        let i: usize = t / n;
        let j: usize = t % n;
        proof {
            if k > 0 {
                lemma_position(i as int, 0, m as int, k as int);
                lemma_position(i as int, k - 1, m as int, k as int);
                lemma_position(k - 1, j as int, k as int, n as int);
                assert(j + (k - 1) * n == (k - 1) * n + j);
                assert(i * k + (k - 1) * 1 == i * k + (k - 1));
            } else {
                assert(i * k == 0) by (nonlinear_arith)
                    requires
                        k == 0,
                ;
            }
        }
        let x: u32 = strided_dot(a, i * k, 1, b, j, n, k);
        proof {
            assert(Seq::new(k as nat, |p: int| a@[i * k + p * 1]) =~= row(
                a@,
                i as int,
                k as int,
            ));
            assert(Seq::new(k as nat, |p: int| b@[j + p * n]) =~= column(
                b@,
                j as int,
                k as int,
                n as int,
            ));
        }
        c.push(x);
        t = t + 1;
    }
    assert(c@ =~= want);
    c
}

/// Row-major GEMM with transposed LHS: `C = A^T · B` with `A: (m, k)`,
/// `B: (m, n)`, `C: (k, n)`.
///
/// Used by the backward pass (`dB = dY^T · T1`, `dA = D^T · X`).
pub fn matmul_trans_a(a: &[u32], b: &[u32], m: usize, k: usize, n: usize) -> (r: Vec<u32>)
    requires
        a@.len() == m * k,
        b@.len() == m * n,
        k * n <= usize::MAX,
    ensures
        r@ == product_of_left(a@, b@, m as int, k as int, n as int),
{
    let ghost want = product_of_left(a@, b@, m as int, k as int, n as int);
    let total: usize = k * n;
    let mut c: Vec<u32> = Vec::new();
    let mut t: usize = 0;
    while t < total
        invariant
            a@.len() == m * k,
            b@.len() == m * n,
            total == k * n,
            want == product_of_left(a@, b@, m as int, k as int, n as int),
            t <= total,
            c@.len() == t,
            forall|s: int| 0 <= s < t ==> #[trigger] c@[s] == want[s],
        decreases total - t,
    {
        proof {
            lemma_cell(t as int, k as int, n as int);
        }
        let i: usize = t / n;
        let j: usize = t % n;
        proof {
            if m > 0 {
                lemma_position(m - 1, i as int, m as int, k as int);
                lemma_position(m - 1, j as int, m as int, n as int);
            }
        }
        let x: u32 = strided_dot(a, i, k, b, j, n, m);
        proof {
            assert(Seq::new(m as nat, |p: int| a@[i + p * k]) =~= column(
                a@,
                i as int,
                m as int,
                k as int,
            ));
            assert(Seq::new(m as nat, |p: int| b@[j + p * n]) =~= column(
                b@,
                j as int,
                m as int,
                n as int,
            ));
        }
        c.push(x);
        t = t + 1;
    }
    assert(c@ =~= want);
    c
}

/// Row-major GEMM with transposed RHS: `C = A · B^T` with `A: (m, k)`,
/// `B: (n, k)` stored row-major, `C: (m, n)`.
///
/// This matches the transformer convention where weights are stored as
/// `(out, in)` and inputs multiply `W^T`.
pub fn matmul_trans_b(a: &[u32], b: &[u32], m: usize, k: usize, n: usize) -> (r: Vec<u32>)
    requires
        a@.len() == m * k,
        b@.len() == n * k,
        m * n <= usize::MAX,
    ensures
        r@ == product_of_right(a@, b@, m as int, k as int, n as int),
{
    let ghost want = product_of_right(a@, b@, m as int, k as int, n as int);
    let total: usize = m * n;
    let (la, lb): (usize, usize) = (a.len(), b.len());
    let mut c: Vec<u32> = Vec::new();
    let mut t: usize = 0;
    while t < total
        invariant
            la == a@.len() == m * k,
            lb == b@.len() == n * k,
            total == m * n,
            want == product_of_right(a@, b@, m as int, k as int, n as int),
            t <= total,
            c@.len() == t,
            forall|s: int| 0 <= s < t ==> #[trigger] c@[s] == want[s],
        decreases total - t,
    {
        proof {
            lemma_cell(t as int, m as int, n as int);
        }
        let i: usize = t / n;
        let j: usize = t % n;
        proof {
            if k > 0 {
                lemma_position(i as int, 0, m as int, k as int);
                lemma_position(j as int, 0, n as int, k as int);
                lemma_position(i as int, k - 1, m as int, k as int);
                lemma_position(j as int, k - 1, n as int, k as int);
                assert((k - 1) * 1 == k - 1);
            } else {
                assert(i * k == 0 && j * k == 0) by (nonlinear_arith)
                    requires
                        k == 0,
                ;
            }
        }
        let x: u32 = strided_dot(a, i * k, 1, b, j * k, 1, k);
        proof {
            assert(Seq::new(k as nat, |p: int| a@[i * k + p * 1]) =~= row(
                a@,
                i as int,
                k as int,
            ));
            assert(Seq::new(k as nat, |p: int| b@[j * k + p * 1]) =~= row(
                b@,
                j as int,
                k as int,
            ));
        }
        c.push(x);
        t = t + 1;
    }
    assert(c@ =~= want);
    c
}

/// `A^T · B` is the product of the transpose of `A` and `B`, bit for bit.
pub proof fn lemma_trans_a(a: Seq<u32>, b: Seq<u32>, m: int, k: int, n: int)
    requires
        0 <= m,
        0 <= k,
        0 <= n,
        a.len() == m * k,
    ensures
        product_of_left(a, b, m, k, n) == product_of(transposed(a, m, k), b, k, m, n),
{
    let at = transposed(a, m, k);
    let (x, y) = (product_of_left(a, b, m, k, n), product_of(at, b, k, m, n));
    assert forall|t: int| 0 <= t < k * n implies #[trigger] x[t] == y[t] by {
        lemma_cell(t, k, n);
        let i = t / n;
        assert(column(a, i, m, k) =~= row(at, i, m)) by {
            assert forall|p: int| 0 <= p < m implies #[trigger] column(a, i, m, k)[p] == row(
                at,
                i,
                m,
            )[p] by {
                lemma_position(i, p, k, m);
            }
        }
    }
    assert(x =~= y);
}

/// `A · B^T` is the product of `A` and the transpose of `B`, bit for bit.
pub proof fn lemma_trans_b(a: Seq<u32>, b: Seq<u32>, m: int, k: int, n: int)
    requires
        0 <= m,
        0 <= k,
        0 <= n,
        b.len() == n * k,
    ensures
        product_of_right(a, b, m, k, n) == product_of(a, transposed(b, n, k), m, k, n),
{
    let bt = transposed(b, n, k);
    let (x, y) = (product_of_right(a, b, m, k, n), product_of(a, bt, m, k, n));
    assert forall|t: int| 0 <= t < m * n implies #[trigger] x[t] == y[t] by {
        lemma_cell(t, m, n);
        let j = t % n;
        assert(row(b, j, k) =~= column(bt, j, k, n)) by {
            assert forall|p: int| 0 <= p < k implies #[trigger] row(b, j, k)[p] == column(
                bt,
                j,
                k,
                n,
            )[p] by {
                lemma_position(p, j, k, n);
            }
        }
    }
    assert(x =~= y);
}

/// The model of an adapter.
#[verifier::ext_equal]
pub struct AdapterView {
    pub in_dim: nat,
    pub out_dim: nat,
    pub r: nat,
    pub alpha: u32,
    pub a: Seq<u32>,
    pub b: Seq<u32>,
}

impl AdapterView {
    pub open spec fn wf(self) -> bool {
        &&& self.r > 0
        &&& self.in_dim <= usize::MAX
        &&& self.out_dim <= usize::MAX
        &&& self.r <= usize::MAX
        &&& self.a.len() == self.r * self.in_dim
        &&& self.b.len() == self.out_dim * self.r
    }

    /// The LoRA scaling factor `alpha / r`.
    pub open spec fn scale(self) -> u32 {
        single::quotient(self.alpha, single::of_integer(self.r as int))
    }

    /// Equal sizes and equal numbers.
    pub open spec fn same(self, other: AdapterView) -> bool {
        &&& self.in_dim == other.in_dim
        &&& self.out_dim == other.out_dim
        &&& self.r == other.r
        &&& single::same_number(self.alpha, other.alpha)
        &&& single::same_numbers(self.a, other.a)
        &&& single::same_numbers(self.b, other.b)
    }

    /// `scale · (X · A^T) · B^T`.
    pub open spec fn term(self, x: Seq<u32>, batch: nat) -> Seq<u32> {
        let t1 = product_of_right(x, self.a, batch as int, self.in_dim as int, self.r as int);
        let t2 = product_of_right(t1, self.b, batch as int, self.r as int, self.out_dim as int);
        scaled(t2, self.scale())
    }
}

/// Each element times `s`.
pub open spec fn scaled(x: Seq<u32>, s: u32) -> Seq<u32> {
    Seq::new(x.len(), |i: int| single::product(x[i], s))
}

/// Element by element, as far as `y` reaches.
pub open spec fn added(x: Seq<u32>, y: Seq<u32>) -> Seq<u32> {
    Seq::new(
        x.len(),
        |i: int|
            if i < y.len() {
                single::sum(x[i], y[i])
            } else {
                x[i]
            },
    )
}

/// Multiplies each element by `s`.
pub fn scale_all(x: &[u32], s: u32) -> (r: Vec<u32>)
    ensures
        r@ == scaled(x@, s),
{
    let mut out: Vec<u32> = Vec::new();
    let mut i: usize = 0;
    while i < x.len()
        invariant
            i <= x@.len(),
            out@.len() == i,
            forall|j: int| 0 <= j < i ==> #[trigger] out@[j] == scaled(x@, s)[j],
        decreases x@.len() - i,
    {
        out.push(single::times(x[i], s));
        i = i + 1;
    }
    assert(out@ =~= scaled(x@, s));
    out
}

/// Adds element by element, as far as `y` reaches.
pub fn add_all(x: &[u32], y: &[u32]) -> (r: Vec<u32>)
    ensures
        r@ == added(x@, y@),
{
    let mut out: Vec<u32> = Vec::new();
    let mut i: usize = 0;
    while i < x.len()
        invariant
            i <= x@.len(),
            out@.len() == i,
            forall|j: int| 0 <= j < i ==> #[trigger] out@[j] == added(x@, y@)[j],
        decreases x@.len() - i,
    {
        if i < y.len() {
            out.push(single::plus(x[i], y[i]));
        } else {
            out.push(x[i]);
        }
        i = i + 1;
    }
    assert(out@ =~= added(x@, y@));
    out
}

/// A LoRA adapter: `A: (r, in_dim)`, `B: (out_dim, r)`, scaling `alpha / r`.
#[derive(Debug, Clone)]
pub struct LoraAdapter {
    in_dim: usize,
    out_dim: usize,
    r: usize,
    alpha: u32,
    a: Vec<u32>,
    b: Vec<u32>,
}

impl View for LoraAdapter {
    type V = AdapterView;

    closed spec fn view(&self) -> AdapterView {
        AdapterView {
            in_dim: self.in_dim as nat,
            out_dim: self.out_dim as nat,
            r: self.r as nat,
            alpha: self.alpha,
            a: self.a@,
            b: self.b@,
        }
    }
}

impl PartialEq for LoraAdapter {
    /// Equal sizes and equal numbers.
    fn eq(&self, other: &Self) -> (r: bool) {
        self.in_dim == other.in_dim && self.out_dim == other.out_dim && self.r == other.r
            && single::equal(self.alpha, other.alpha) && single::equal_lists(
            self.a.as_slice(),
            other.a.as_slice(),
        ) && single::equal_lists(self.b.as_slice(), other.b.as_slice())
    }
}

impl vstd::std_specs::cmp::PartialEqSpecImpl for LoraAdapter {
    open spec fn obeys_eq_spec() -> bool {
        true
    }

    open spec fn eq_spec(&self, other: &Self) -> bool {
        self@.same(other@)
    }
}

/// A copy of a slice.
pub fn copied(x: &[u32]) -> (r: Vec<u32>)
    ensures
        r@ == x@,
{
    let mut out: Vec<u32> = Vec::new();
    out.extend_from_slice(x);
    assert(out@ =~= x@);
    out
}

impl LoraAdapter {
    /// Builds an adapter, checking `a.len() == r * in_dim` etc.
    pub fn new(
        a: &[u32],
        b: &[u32],
        in_dim: usize,
        out_dim: usize,
        r: usize,
        alpha: u32,
    ) -> (result: Result<LoraAdapter, QloraError>)
        requires
            r * in_dim <= usize::MAX,
            a@.len() == r * in_dim ==> out_dim * r <= usize::MAX,
        ensures
            if r == 0 {
                result matches Err(e) && e@ == QloraErrorView::InvalidConfig("rank r must be > 0"@)
            } else if a@.len() != r * in_dim {
                result matches Err(e) && e@ == QloraErrorView::ShapeMismatch(
                    error::disagreement("a.len()"@, a@.len(), "r*in_dim"@, (r * in_dim) as nat),
                )
            } else if b@.len() != out_dim * r {
                result matches Err(e) && e@ == QloraErrorView::ShapeMismatch(
                    error::disagreement("b.len()"@, b@.len(), "out_dim*r"@, (out_dim * r) as nat),
                )
            } else {
                result matches Ok(ad) && ad@.wf() && ad@ == (AdapterView {
                    in_dim: in_dim as nat,
                    out_dim: out_dim as nat,
                    r: r as nat,
                    alpha,
                    a: a@,
                    b: b@,
                })
            },
    {
        if r == 0 {
            return Err(invalid_config("rank r must be > 0"));
        }
        if a.len() != r * in_dim {
            return Err(sizes_differ("a.len()", a.len(), "r*in_dim", r * in_dim));
        }
        if b.len() != out_dim * r {
            return Err(sizes_differ("b.len()", b.len(), "out_dim*r", out_dim * r));
        }
        Ok(LoraAdapter { in_dim, out_dim, r, alpha, a: copied(a), b: copied(b) })
    }

    /// The LoRA scaling factor `alpha / r`.
    pub fn scale(&self) -> (s: u32)
        ensures
            s == self@.scale(),
    {
        single::over(self.alpha, single::from_u64(self.r as u64))
    }

    /// Replaces the adapter matrices in place (shape-checked). Used by
    /// optimizers after each step; the base weight is untouched.
    pub fn set_weights(&mut self, a: &[u32], b: &[u32]) -> (result: Result<(), QloraError>)
        ensures
            if a@.len() != old(self)@.a.len() || b@.len() != old(self)@.b.len() {
                &&& result matches Err(e) && e@ == QloraErrorView::ShapeMismatch(
                    "set_weights: got ("@ + text::decimal(a@.len()) + ", "@ + text::decimal(b@.len())
                        + "), expected ("@ + text::decimal(old(self)@.a.len()) + ", "@
                        + text::decimal(old(self)@.b.len()) + ")"@,
                )
                &&& *final(self) == *old(self)
            } else {
                &&& result is Ok
                &&& final(self)@ == (AdapterView { a: a@, b: b@, ..old(self)@ })
            },
    {
        if a.len() != self.a.len() || b.len() != self.b.len() {
            let mut m = "set_weights: got (".to_owned();
            text::push_decimal(&mut m, a.len() as u64);
            m.append(", ");
            text::push_decimal(&mut m, b.len() as u64);
            m.append("), expected (");
            text::push_decimal(&mut m, self.a.len() as u64);
            m.append(", ");
            text::push_decimal(&mut m, self.b.len() as u64);
            m.append(")");
            return Err(QloraError::ShapeMismatch(m));
        }
        self.a = copied(a);
        self.b = copied(b);
        Ok(())
    }

    /// Adapter-only term `scale · (X · A^T) · B^T` for `X: (batch, in_dim)`.
    pub fn forward(&self, x: &[u32], batch: usize) -> (result: Result<Vec<u32>, QloraError>)
        requires
            self@.wf(),
            batch * self@.in_dim <= usize::MAX,
            x@.len() == batch * self@.in_dim ==> batch * self@.r <= usize::MAX && batch
                * self@.out_dim <= usize::MAX,
        ensures
            if x@.len() != batch * self@.in_dim {
                result matches Err(e) && e@ == QloraErrorView::ShapeMismatch(
                    error::disagreement(
                        "x.len()"@,
                        x@.len(),
                        "batch*in_dim"@,
                        batch as nat * self@.in_dim,
                    ),
                )
            } else {
                result matches Ok(v) && v@ == self@.term(x@, batch as nat)
            },
    {
        if x.len() != batch * self.in_dim {
            return Err(sizes_differ("x.len()", x.len(), "batch*in_dim", batch * self.in_dim));
        }
        // T1 = X · A^T : (batch, r)
        let t1 = matmul_trans_b(x, self.a.as_slice(), batch, self.in_dim, self.r);
        // T2 = T1 · B^T : (batch, out_dim)
        let t2 = matmul_trans_b(t1.as_slice(), self.b.as_slice(), batch, self.r, self.out_dim);
        Ok(scale_all(t2.as_slice(), self.scale()))
    }

    pub fn in_dim(&self) -> (r: usize)
        ensures
            r == self@.in_dim,
    {
        self.in_dim
    }

    pub fn out_dim(&self) -> (r: usize)
        ensures
            r == self@.out_dim,
    {
        self.out_dim
    }

    pub fn rank(&self) -> (r: usize)
        ensures
            r == self@.r,
    {
        self.r
    }

    pub fn alpha(&self) -> (r: u32)
        ensures
            r == self@.alpha,
    {
        self.alpha
    }

    pub fn a(&self) -> (r: &[u32])
        ensures
            r@ == self@.a,
    {
        self.a.as_slice()
    }

    pub fn b(&self) -> (r: &[u32])
        ensures
            r@ == self@.b,
    {
        self.b.as_slice()
    }
}

} // verus!
