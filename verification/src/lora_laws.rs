//! What matrix products, adapters and fused layers compute, element by element.
use crate::lora;
use crate::lora::AdapterView;
use crate::qlora::LayerView;
use crate::single;
use vstd::prelude::*;

verus! {

/// `f(0) * g(0) + f(1) * g(1) + ...`, `n` products added from left to right,
/// beginning with zero.
pub open spec fn inner(f: spec_fn(int) -> u32, g: spec_fn(int) -> u32, n: nat) -> u32
    decreases n,
{
    if n == 0 {
        0
    } else {
        single::sum(inner(f, g, (n - 1) as nat), single::product(f(n - 1), g(n - 1)))
    }
}

/// Equal factors give equal sums.
pub proof fn lemma_inner_same(
    f: spec_fn(int) -> u32,
    g: spec_fn(int) -> u32,
    u: spec_fn(int) -> u32,
    v: spec_fn(int) -> u32,
    n: nat,
)
    requires
        forall|p: int| 0 <= p < n ==> #[trigger] f(p) == u(p),
        forall|p: int| 0 <= p < n ==> #[trigger] g(p) == v(p),
    ensures
        inner(f, g, n) == inner(u, v, n),
    decreases n,
{
    if n > 0 {
        lemma_inner_same(f, g, u, v, (n - 1) as nat);
        assert(f(n - 1) == u(n - 1) && g(n - 1) == v(n - 1));
    }
}

/// A sum of products, from its factors.
pub proof fn lemma_dot(x: Seq<u32>, y: Seq<u32>, f: spec_fn(int) -> u32, g: spec_fn(int) -> u32)
    requires
        x.len() == y.len(),
        forall|p: int| 0 <= p < x.len() ==> #[trigger] f(p) == x[p],
        forall|p: int| 0 <= p < x.len() ==> #[trigger] g(p) == y[p],
    ensures
        lora::dot(x, y) == inner(f, g, x.len()),
    decreases x.len(),
{
    if x.len() > 0 {
        let n = x.len() - 1;
        lemma_dot(x.drop_last(), y.drop_last(), f, g);
        assert(f(n) == x[n] && g(n) == y[n]);
    }
}

/// `(A · B)(i, j)` is the sum over `p` of `A(i, p) * B(p, j)`.
pub proof fn lemma_product(a: Seq<u32>, b: Seq<u32>, m: int, k: int, n: int, i: int, j: int)
    requires
        0 <= i < m,
        0 <= j < n,
        k >= 0,
    ensures
        lora::product_of(a, b, m, k, n).len() == m * n,
        0 <= i * n + j < m * n,
        lora::product_of(a, b, m, k, n)[i * n + j] == inner(
            |p: int| a[i * k + p],
            |p: int| b[p * n + j],
            k as nat,
        ),
{
    lora::lemma_position(i, j, m, n);
    lemma_dot(
        lora::row(a, i, k),
        lora::column(b, j, k, n),
        |p: int| a[i * k + p],
        |p: int| b[p * n + j],
    );
}

/// `(A · B^T)(i, j)` is the sum over `p` of `A(i, p) * B(j, p)`.
pub proof fn lemma_product_right(a: Seq<u32>, b: Seq<u32>, m: int, k: int, n: int, i: int, j: int)
    requires
        0 <= i < m,
        0 <= j < n,
        k >= 0,
    ensures
        lora::product_of_right(a, b, m, k, n).len() == m * n,
        0 <= i * n + j < m * n,
        lora::product_of_right(a, b, m, k, n)[i * n + j] == inner(
            |p: int| a[i * k + p],
            |p: int| b[j * k + p],
            k as nat,
        ),
{
    lora::lemma_position(i, j, m, n);
    lemma_dot(
        lora::row(a, i, k),
        lora::row(b, j, k),
        |p: int| a[i * k + p],
        |p: int| b[j * k + p],
    );
}

/// `(A^T · B)(i, j)` is the sum over `p` of `A(p, i) * B(p, j)`.
pub proof fn lemma_product_left(a: Seq<u32>, b: Seq<u32>, m: int, k: int, n: int, i: int, j: int)
    requires
        0 <= i < k,
        0 <= j < n,
        m >= 0,
    ensures
        lora::product_of_left(a, b, m, k, n).len() == k * n,
        0 <= i * n + j < k * n,
        lora::product_of_left(a, b, m, k, n)[i * n + j] == inner(
            |p: int| a[p * k + i],
            |p: int| b[p * n + j],
            m as nat,
        ),
{
    lora::lemma_position(i, j, k, n);
    lemma_dot(
        lora::column(a, i, m, k),
        lora::column(b, j, m, n),
        |p: int| a[p * k + i],
        |p: int| b[p * n + j],
    );
}

/// `(X · A^T)(i, q)`: what an adapter's first matrix makes of an input row.
pub open spec fn reduced(ad: AdapterView, x: Seq<u32>, i: int, q: int) -> u32 {
    inner(|p: int| x[i * ad.in_dim + p], |p: int| ad.a[q * ad.in_dim + p], ad.in_dim)
}

/// The adapter's term of an output is `alpha / r` times the sum over the ranks
/// `q` of `(X · A^T)(i, q) * B(o, q)`.
pub proof fn lemma_adapter_term(ad: AdapterView, x: Seq<u32>, batch: nat, i: int, o: int)
    requires
        ad.wf(),
        0 <= i < batch,
        0 <= o < ad.out_dim,
    ensures
        ad.term(x, batch).len() == batch * ad.out_dim,
        0 <= i * ad.out_dim + o < batch * ad.out_dim,
        ad.term(x, batch)[i * ad.out_dim + o] == single::product(
            inner(|q: int| reduced(ad, x, i, q), |q: int| ad.b[o * ad.r + q], ad.r),
            single::quotient(ad.alpha, single::of_integer(ad.r as int)),
        ),
{
    let (m, n, k, r) = (batch as int, ad.out_dim as int, ad.in_dim as int, ad.r as int);
    let t1 = lora::product_of_right(x, ad.a, m, k, r);
    lemma_product_right(t1, ad.b, m, r, n, i, o);
    let f = |q: int| t1[i * r + q];
    let g = |q: int| reduced(ad, x, i, q);
    assert forall|q: int| 0 <= q < r implies #[trigger] f(q) == g(q) by {
        lemma_product_right(x, ad.a, m, k, r, i, q);
    }
    let h = |q: int| ad.b[o * r + q];
    lemma_inner_same(f, h, g, h, ad.r);
}

/// An output of a layer without an adapter is the sum over the inputs of the
/// input times the dequantized weight; an adapter adds its term.
pub proof fn lemma_layer_output(l: LayerView, x: Seq<u32>, batch: nat, i: int, o: int)
    requires
        l.wf(),
        l.fits(),
        0 <= i < batch,
        0 <= o < l.weight.rows,
    ensures
        l.output(x, batch).len() == batch * l.weight.rows,
        0 <= i * l.weight.rows + o < batch * l.weight.rows,
        ({
            let (n, k) = (l.weight.rows, l.weight.cols);
            let w = l.weight.values();
            let base = inner(|p: int| x[i * k + p], |p: int| w[o * k + p], k);
            l.output(x, batch)[i * n + o] == match l.adapter {
                None => base,
                Some(ad) => single::sum(
                    base,
                    single::product(
                        inner(|q: int| reduced(ad, x, i, q), |q: int| ad.b[o * ad.r + q], ad.r),
                        single::quotient(ad.alpha, single::of_integer(ad.r as int)),
                    ),
                ),
            }
        }),
{
    lemma_product_right(
        x,
        l.weight.values(),
        batch as int,
        l.weight.cols as int,
        l.weight.rows as int,
        i,
        o,
    );
    if let Some(ad) = l.adapter {
        lemma_adapter_term(ad, x, batch, i, o);
    }
}

/// `(s·dY · B)(i, q)`: what reaches rank `q` from the outputs of row `i`.
pub open spec fn reached(ad: AdapterView, dy: Seq<u32>, i: int, q: int) -> u32 {
    inner(
        |o: int|
            single::product(
                dy[i * ad.out_dim + o],
                single::quotient(ad.alpha, single::of_integer(ad.r as int)),
            ),
        |o: int| ad.b[o * ad.r + q],
        ad.out_dim,
    )
}

/// The gradient of an input of a layer: what each output hands back through
/// its weight, and, with an adapter, what each rank hands back through `A`.
pub proof fn lemma_layer_input_gradient(
    l: LayerView,
    x: Seq<u32>,
    dy: Seq<u32>,
    batch: nat,
    i: int,
    c: int,
)
    requires
        l.wf(),
        l.fits(),
        dy.len() == batch * l.weight.rows,
        0 <= i < batch,
        0 <= c < l.weight.cols,
    ensures
        l.gradients(x, dy, batch).grad_x.len() == batch * l.weight.cols,
        0 <= i * l.weight.cols + c < batch * l.weight.cols,
        ({
            let (n, k) = (l.weight.rows, l.weight.cols);
            let w = l.weight.values();
            let base = inner(|o: int| dy[i * n + o], |o: int| w[o * k + c], n);
            l.gradients(x, dy, batch).grad_x[i * k + c] == match l.adapter {
                None => base,
                Some(ad) => single::sum(
                    base,
                    inner(|q: int| reached(ad, dy, i, q), |q: int| ad.a[q * k + c], ad.r),
                ),
            }
        }),
        l.adapter is None ==> l.gradients(x, dy, batch).grad_a is None && l.gradients(
            x,
            dy,
            batch,
        ).grad_b is None,
{
    let (m, n, k) = (batch as int, l.weight.rows as int, l.weight.cols as int);
    lemma_product(dy, l.weight.values(), m, n, k, i, c);
    if let Some(ad) = l.adapter {
        let r = ad.r as int;
        let dys = lora::scaled(dy, ad.scale());
        let d = lora::product_of(dys, ad.b, m, n, r);
        lemma_product(d, ad.a, m, r, k, i, c);
        let f = |q: int| d[i * r + q];
        let g = |q: int| reached(ad, dy, i, q);
        assert forall|q: int| 0 <= q < r implies #[trigger] f(q) == g(q) by {
            lemma_reached(ad, dy, batch, i, q);
        }
        let h = |q: int| ad.a[q * k + c];
        lemma_inner_same(f, h, g, h, ad.r);
    }
}

proof fn lemma_reached(ad: AdapterView, dy: Seq<u32>, batch: nat, i: int, q: int)
    requires
        ad.wf(),
        dy.len() == batch * ad.out_dim,
        0 <= i < batch,
        0 <= q < ad.r,
    ensures
        ({
            let (m, n, r) = (batch as int, ad.out_dim as int, ad.r as int);
            let d = lora::product_of(lora::scaled(dy, ad.scale()), ad.b, m, n, r);
            d.len() == m * r && 0 <= i * r + q < m * r && d[i * r + q] == reached(ad, dy, i, q)
        }),
{
    let (m, n, r) = (batch as int, ad.out_dim as int, ad.r as int);
    let dys = lora::scaled(dy, ad.scale());
    lemma_product(dys, ad.b, m, n, r, i, q);
    let f = |o: int| dys[i * n + o];
    let g = |o: int| single::product(dy[i * n + o], ad.scale());
    assert forall|o: int| 0 <= o < n implies #[trigger] f(o) == g(o) by {
        lora::lemma_position(i, o, m, n);
    }
    let h = |o: int| ad.b[o * r + q];
    lemma_inner_same(f, h, g, h, ad.out_dim);
    lemma_inner_same(
        g,
        h,
        |o: int|
            single::product(
                dy[i * ad.out_dim + o],
                single::quotient(ad.alpha, single::of_integer(ad.r as int)),
            ),
        |o: int| ad.b[o * ad.r + q],
        ad.out_dim,
    );
}

/// The gradients of an adapter's matrices: `dB(o, q)` adds up, over the rows of
/// the batch, the scaled upstream gradient of output `o` times what rank `q`
/// saw; `dA(q, c)` what reached rank `q` times input `c`.
pub proof fn lemma_layer_adapter_gradients(
    l: LayerView,
    x: Seq<u32>,
    dy: Seq<u32>,
    batch: nat,
    o: int,
    q: int,
    c: int,
)
    requires
        l.wf(),
        l.fits(),
        l.adapter is Some,
        dy.len() == batch * l.weight.rows,
        0 <= o < l.weight.rows,
        0 <= q < l.adapter->0.r,
        0 <= c < l.weight.cols,
    ensures
        ({
            let ad = l.adapter->0;
            let (n, k, r) = (l.weight.rows, l.weight.cols, ad.r);
            let g = l.gradients(x, dy, batch);
            &&& g.grad_b matches Some(gb) && gb.len() == n * r && 0 <= o * r + q < n * r && gb[o * r
                + q] == inner(
                |i: int|
                    single::product(
                        dy[i * n + o],
                        single::quotient(ad.alpha, single::of_integer(ad.r as int)),
                    ),
                |i: int| reduced(ad, x, i, q),
                batch,
            )
            &&& g.grad_a matches Some(ga) && ga.len() == r * k && 0 <= q * k + c < r * k && ga[q * k
                + c] == inner(|i: int| reached(ad, dy, i, q), |i: int| x[i * k + c], batch)
        }),
{
    let ad = l.adapter->0;
    let (m, n, k, r) = (batch as int, l.weight.rows as int, l.weight.cols as int, ad.r as int);
    let dys = lora::scaled(dy, ad.scale());
    let t1 = lora::product_of_right(x, ad.a, m, k, r);
    lemma_product_left(dys, t1, m, n, r, o, q);
    let f = |i: int| dys[i * n + o];
    let f2 = |i: int|
        single::product(
            dy[i * n + o],
            single::quotient(ad.alpha, single::of_integer(ad.r as int)),
        );
    let g = |i: int| t1[i * r + q];
    let g2 = |i: int| reduced(ad, x, i, q);
    assert forall|i: int| 0 <= i < m implies #[trigger] f(i) == f2(i) by {
        lora::lemma_position(i, o, m, n);
    }
    assert forall|i: int| 0 <= i < m implies #[trigger] g(i) == g2(i) by {
        lemma_product_right(x, ad.a, m, k, r, i, q);
    }
    lemma_inner_same(f, g, f2, g2, batch);
    let d = lora::product_of(dys, ad.b, m, n, r);
    lemma_product_left(d, x, m, r, k, q, c);
    let u = |i: int| d[i * r + q];
    let u2 = |i: int| reached(ad, dy, i, q);
    assert forall|i: int| 0 <= i < m implies #[trigger] u(i) == u2(i) by {
        lemma_reached(ad, dy, batch, i, q);
    }
    let h = |i: int| x[i * k + c];
    lemma_inner_same(u, h, u2, h, batch);
}

} // verus!
