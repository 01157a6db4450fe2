//! What the backward pass computes, position by position and element by
//! element, from the gradients of the logits down.
use crate::float_laws;
use crate::lora;
use crate::lora_laws;
use crate::lora_laws::inner;
use crate::model::block;
use crate::model::block::{CacheView, TablesView};
use crate::model::block_grad;
use crate::model::block_grad::AdapterGradView;
use crate::model::config::{LlamaConfig, ProjKind};
use crate::model::llama::ModelView;
use crate::model::norm;
use crate::model::pass_laws;
use crate::model::pass_laws::squares;
use crate::model::weights::{ProjView, WeightsView};
use crate::single;
use vstd::prelude::*;

verus! {

/// `f(0) * g(0) * w(0) + ...`, `n` products added from left to right, beginning
/// with zero.
pub open spec fn triple(
    f: spec_fn(int) -> u32,
    g: spec_fn(int) -> u32,
    w: spec_fn(int) -> u32,
    n: nat,
) -> u32
    decreases n,
{
    if n == 0 {
        0
    } else {
        single::sum(
            triple(f, g, w, (n - 1) as nat),
            single::product(single::product(f(n - 1), g(n - 1)), w(n - 1)),
        )
    }
}

/// `mean(x^2) + eps` over a row of `n` elements.
pub open spec fn mean_square(x: spec_fn(int) -> u32, n: nat, eps: u32) -> u32 {
    single::sum(single::quotient(squares(x, n), single::of_integer(n as int)), eps)
}

/// The gradient of the mean square: `sum(dy * x * w) * (-0.5 / s / sqrt(s))`.
pub open spec fn mean_square_gradient(
    dy: spec_fn(int) -> u32,
    x: spec_fn(int) -> u32,
    w: spec_fn(int) -> u32,
    n: nat,
    eps: u32,
) -> u32 {
    let s = mean_square(x, n, eps);
    single::product(
        triple(dy, x, w, n),
        single::product(
            single::product(norm::MINUS_HALF, single::quotient(single::ONE, s)),
            single::quotient(single::ONE, single::root(s)),
        ),
    )
}

/// What comes back to element `c` of a row `x` through its normalization with
/// the weights `w`: `dy * w / sqrt(s) + 2 * x / n * ds`.
pub open spec fn norm_back(
    dy: spec_fn(int) -> u32,
    x: spec_fn(int) -> u32,
    w: spec_fn(int) -> u32,
    n: nat,
    eps: u32,
    c: int,
) -> u32 {
    let r = single::quotient(single::ONE, single::root(mean_square(x, n, eps)));
    single::sum(
        single::product(single::product(dy(c), w(c)), r),
        single::product(
            single::quotient(single::product(norm::TWO, x(c)), single::of_integer(n as int)),
            mean_square_gradient(dy, x, w, n, eps),
        ),
    )
}

/// Equal rows give equal gradients.
pub proof fn lemma_norm_back_same(
    dy: spec_fn(int) -> u32,
    x: spec_fn(int) -> u32,
    w: spec_fn(int) -> u32,
    dy2: spec_fn(int) -> u32,
    x2: spec_fn(int) -> u32,
    w2: spec_fn(int) -> u32,
    n: nat,
    eps: u32,
    c: int,
)
    requires
        0 <= c < n,
        forall|j: int| 0 <= j < n ==> #[trigger] dy(j) == dy2(j),
        forall|j: int| 0 <= j < n ==> #[trigger] x(j) == x2(j),
        forall|j: int| 0 <= j < n ==> #[trigger] w(j) == w2(j),
    ensures
        norm_back(dy, x, w, n, eps, c) == norm_back(dy2, x2, w2, n, eps, c),
{
    pass_laws::lemma_same_squares(x, x2, n);
    lemma_triple_same(dy, x, w, dy2, x2, w2, n);
    assert(dy(c) == dy2(c) && x(c) == x2(c) && w(c) == w2(c));
}

proof fn lemma_triple_same(
    dy: spec_fn(int) -> u32,
    x: spec_fn(int) -> u32,
    w: spec_fn(int) -> u32,
    dy2: spec_fn(int) -> u32,
    x2: spec_fn(int) -> u32,
    w2: spec_fn(int) -> u32,
    n: nat,
)
    requires
        forall|j: int| 0 <= j < n ==> #[trigger] dy(j) == dy2(j),
        forall|j: int| 0 <= j < n ==> #[trigger] x(j) == x2(j),
        forall|j: int| 0 <= j < n ==> #[trigger] w(j) == w2(j),
    ensures
        triple(dy, x, w, n) == triple(dy2, x2, w2, n),
    decreases n,
{
    if n > 0 {
        lemma_triple_same(dy, x, w, dy2, x2, w2, (n - 1) as nat);
        assert(dy(n - 1) == dy2(n - 1) && x(n - 1) == x2(n - 1) && w(n - 1) == w2(n - 1));
    }
}

proof fn lemma_weighted(
    dy: Seq<u32>,
    x: Seq<u32>,
    w: Seq<u32>,
    f: spec_fn(int) -> u32,
    g: spec_fn(int) -> u32,
    u: spec_fn(int) -> u32,
    n: nat,
)
    requires
        forall|j: int| 0 <= j < n ==> #[trigger] f(j) == dy[j],
        forall|j: int| 0 <= j < n ==> #[trigger] g(j) == x[j],
        forall|j: int| 0 <= j < n ==> #[trigger] u(j) == w[j],
    ensures
        norm::weighted_sum(dy, x, w, n) == triple(f, g, u, n),
    decreases n,
{
    if n > 0 {
        lemma_weighted(dy, x, w, f, g, u, (n - 1) as nat);
        assert(f(n - 1) == dy[n - 1] && g(n - 1) == x[n - 1] && u(n - 1) == w[n - 1]);
    }
}

/// The gradient of a normalized row depends on that row alone.
pub proof fn lemma_norm_gradient(
    x: Seq<u32>,
    w: Seq<u32>,
    dy: Seq<u32>,
    eps: u32,
    rows: int,
    t: int,
    c: int,
)
    requires
        0 <= t < rows,
        0 <= c < w.len(),
        x.len() == rows * w.len(),
    ensures
        norm::input_gradient(x, w, dy, eps).len() == x.len(),
        0 <= t * w.len() + c < x.len(),
        norm::input_gradient(x, w, dy, eps)[t * w.len() + c] == norm_back(
            |j: int| dy[t * w.len() + j],
            |j: int| x[t * w.len() + j],
            |j: int| w[j],
            w.len(),
            eps,
            c,
        ),
{
    let h = w.len() as int;
    lora::lemma_position(t, c, rows, h);
    assert(x.len() as int == h * rows + 0) by (nonlinear_arith)
        requires
            x.len() == rows * h,
    ;
    crate::ieee::lemma_div_unique(x.len(), h as nat, rows as nat, 0);
    let xr = lora::row(x, t, h);
    let dyr = lora::row(dy, t, h);
    let f = |j: int| dy[t * w.len() + j];
    let g = |j: int| x[t * w.len() + j];
    let u = |j: int| w[j];
    pass_laws::lemma_squares(xr, g);
    lemma_weighted(dyr, xr, w, f, g, u, w.len());
    reveal(norm::row_scale);
    reveal(norm::mean_gradient);
    reveal(norm::element_gradient);
}

/// The gradient of weight `c` of a normalization adds up, over the rows, the
/// upstream gradient times the normalized element: one more row adds
/// `dy * x / rms`.
pub proof fn lemma_weight_gradient(
    x: Seq<u32>,
    dy: Seq<u32>,
    h: nat,
    eps: u32,
    c: int,
    t: nat,
)
    requires
        0 <= c < h,
    ensures
        norm::weight_gradient(x, dy, h as int, eps, c, 0) == 0,
        norm::weight_gradient(x, dy, h as int, eps, c, t + 1) == single::sum(
            norm::weight_gradient(x, dy, h as int, eps, c, t),
            single::product(
                single::product(dy[t * h + c], x[t * h + c]),
                pass_laws::inverse_rms(|j: int| x[t * h + j], h, eps),
            ),
        ),
{
    let xr = lora::row(x, t as int, h as int);
    pass_laws::lemma_squares(xr, |j: int| x[t * h + j]);
    reveal(norm::row_scale);
}

/// `dL/dH(t, c)` of the normalized last hidden state: every token `v` hands
/// back its entry at position `t`, weighed with its own embedding.
pub open spec fn from_logits(m: ModelView, dlogits: Seq<u32>, t: int, c: int) -> u32 {
    inner(
        |v: int| dlogits[t * m.cfg.vocab + v],
        |v: int| m.embed[v * m.cfg.hidden + c],
        m.cfg.vocab as nat,
    )
}

/// What enters the last hidden state at position `t`, in column `c`, is made of
/// the gradients of the logits of that position alone: the entry for token `v`
/// weighs the embedding of `v`, and the sum goes back through the final
/// normalization of the row.
pub proof fn lemma_head_gradient(
    m: ModelView,
    ids: Seq<u32>,
    caches: Seq<CacheView>,
    dlogits: Seq<u32>,
    t: int,
    c: int,
)
    requires
        m.final_norm.len() == m.cfg.hidden,
        m.hidden(ids, caches, m.layers.len() as int).len() == ids.len() * m.cfg.hidden,
        0 <= t < ids.len(),
        0 <= c < m.cfg.hidden,
    ensures
        ({
            let h = m.cfg.hidden as nat;
            let x = m.hidden(ids, caches, m.layers.len() as int);
            let d = m.head_gradient(ids, caches, dlogits);
            &&& d.len() == ids.len() * h
            &&& 0 <= t * h + c < ids.len() * h
            &&& d[t * h + c] == norm_back(
                |j: int| from_logits(m, dlogits, t, j),
                |j: int| x[t * h + j],
                |j: int| m.final_norm[j],
                h,
                m.cfg.rms_eps,
                c,
            )
        }),
{
    let h = m.cfg.hidden as nat;
    let seq = ids.len() as int;
    let vocab = m.cfg.vocab as int;
    let x = m.hidden(ids, caches, m.layers.len() as int);
    let dy = lora::product_of(dlogits, m.embed, seq, vocab, h as int);
    lemma_norm_gradient(x, m.final_norm, dy, m.cfg.rms_eps, seq, t, c);
    let f = |j: int| dy[t * m.final_norm.len() + j];
    let g = |j: int| from_logits(m, dlogits, t, j);
    assert forall|j: int| 0 <= j < h implies #[trigger] f(j) == g(j) by {
        lora_laws::lemma_product(dlogits, m.embed, seq, vocab, h as int, t, j);
        lora_laws::lemma_inner_same(
            |p: int| dlogits[t * vocab + p],
            |p: int| m.embed[p * (h as int) + j],
            |v: int| dlogits[t * m.cfg.vocab + v],
            |v: int| m.embed[v * m.cfg.hidden + j],
            vocab as nat,
        );
    }
    lemma_norm_back_same(
        f,
        |j: int| x[t * m.final_norm.len() + j],
        |j: int| m.final_norm[j],
        g,
        |j: int| x[t * h + j],
        |j: int| m.final_norm[j],
        h,
        m.cfg.rms_eps,
        c,
    );
}

/// Gradients of logits that agree at position `t` bring the same into the last
/// hidden state there, however they differ elsewhere.
pub proof fn lemma_head_local(
    m: ModelView,
    ids: Seq<u32>,
    caches: Seq<CacheView>,
    dlogits: Seq<u32>,
    other: Seq<u32>,
    t: int,
    c: int,
)
    requires
        m.final_norm.len() == m.cfg.hidden,
        m.hidden(ids, caches, m.layers.len() as int).len() == ids.len() * m.cfg.hidden,
        dlogits.len() == ids.len() * m.cfg.vocab,
        other.len() == ids.len() * m.cfg.vocab,
        0 <= t < ids.len(),
        0 <= c < m.cfg.hidden,
        forall|i: int|
            t * m.cfg.vocab <= i < t * m.cfg.vocab + m.cfg.vocab ==> #[trigger] dlogits[i]
                == other[i],
    ensures
        m.head_gradient(ids, caches, dlogits)[t * m.cfg.hidden + c] == m.head_gradient(
            ids,
            caches,
            other,
        )[t * m.cfg.hidden + c],
{
    let h = m.cfg.hidden as nat;
    let x = m.hidden(ids, caches, m.layers.len() as int);
    lemma_head_gradient(m, ids, caches, dlogits, t, c);
    lemma_head_gradient(m, ids, caches, other, t, c);
    let f = |j: int| from_logits(m, dlogits, t, j);
    let g = |j: int| from_logits(m, other, t, j);
    assert forall|j: int| 0 <= j < h implies #[trigger] f(j) == g(j) by {
        lora_laws::lemma_inner_same(
            |v: int| dlogits[t * m.cfg.vocab + v],
            |v: int| m.embed[v * m.cfg.hidden + j],
            |v: int| other[t * m.cfg.vocab + v],
            |v: int| m.embed[v * m.cfg.hidden + j],
            m.cfg.vocab as nat,
        );
    }
    lemma_norm_back_same(
        f,
        |j: int| x[t * h + j],
        |j: int| m.final_norm[j],
        g,
        |j: int| x[t * h + j],
        |j: int| m.final_norm[j],
        h,
        m.cfg.rms_eps,
        c,
    );
}

/// A sum of products with a zero in each is a zero.
proof fn lemma_zero_inner(f: spec_fn(int) -> u32, g: spec_fn(int) -> u32, n: nat)
    requires
        forall|p: int| 0 <= p < n ==> single::mag(#[trigger] f(p)) == 0,
        forall|p: int| 0 <= p < n ==> single::is_finite(#[trigger] g(p)),
    ensures
        single::mag(inner(f, g, n)) == 0,
    decreases n,
{
    if n > 0 {
        lemma_zero_inner(f, g, (n - 1) as nat);
        assert(single::mag(f(n - 1)) == 0 && single::is_finite(g(n - 1)));
        float_laws::lemma_zero_product(f(n - 1), g(n - 1));
        float_laws::lemma_zero_sum(
            inner(f, g, (n - 1) as nat),
            single::product(f(n - 1), g(n - 1)),
        );
    }
}

proof fn lemma_zero_triple(
    f: spec_fn(int) -> u32,
    g: spec_fn(int) -> u32,
    w: spec_fn(int) -> u32,
    n: nat,
)
    requires
        forall|p: int| 0 <= p < n ==> single::mag(#[trigger] f(p)) == 0,
        forall|p: int| 0 <= p < n ==> single::is_finite(#[trigger] g(p)),
        forall|p: int| 0 <= p < n ==> single::is_finite(#[trigger] w(p)),
    ensures
        single::mag(triple(f, g, w, n)) == 0,
    decreases n,
{
    if n > 0 {
        let p = n - 1;
        lemma_zero_triple(f, g, w, (n - 1) as nat);
        assert(single::mag(f(p)) == 0 && single::is_finite(g(p)) && single::is_finite(w(p)));
        float_laws::lemma_zero_product(f(p), g(p));
        float_laws::lemma_zero_product(single::product(f(p), g(p)), w(p));
        float_laws::lemma_zero_sum(
            triple(f, g, w, (n - 1) as nat),
            single::product(single::product(f(p), g(p)), w(p)),
        );
    }
}

/// Whether the numbers by which the gradient of a row is scaled on its way
/// through the normalization are finite: the weights, the row, the inverse of
/// its root mean square and the factors of the mean square.
pub open spec fn ordinary_row(
    x: spec_fn(int) -> u32,
    w: spec_fn(int) -> u32,
    n: nat,
    eps: u32,
) -> bool {
    let s = mean_square(x, n, eps);
    let r = single::quotient(single::ONE, single::root(s));
    &&& single::is_finite(r)
    &&& single::is_finite(
        single::product(
            single::product(norm::MINUS_HALF, single::quotient(single::ONE, s)),
            r,
        ),
    )
    &&& forall|j: int|
        0 <= j < n ==> single::is_finite(#[trigger] x(j)) && single::is_finite(
            single::quotient(single::product(norm::TWO, x(j)), single::of_integer(n as int)),
        )
    &&& forall|j: int| 0 <= j < n ==> single::is_finite(#[trigger] w(j))
}

/// Where the gradients of all logits of position `t` are zero, nothing enters
/// the last hidden state there, for finite embeddings and an ordinary row.
pub proof fn lemma_head_zero(
    m: ModelView,
    ids: Seq<u32>,
    caches: Seq<CacheView>,
    dlogits: Seq<u32>,
    t: int,
    c: int,
)
    requires
        m.final_norm.len() == m.cfg.hidden,
        m.hidden(ids, caches, m.layers.len() as int).len() == ids.len() * m.cfg.hidden,
        m.embed.len() == m.cfg.vocab * m.cfg.hidden,
        dlogits.len() == ids.len() * m.cfg.vocab,
        0 <= t < ids.len(),
        0 <= c < m.cfg.hidden,
        forall|i: int|
            t * m.cfg.vocab <= i < t * m.cfg.vocab + m.cfg.vocab ==> single::mag(
                #[trigger] dlogits[i],
            ) == 0,
        forall|i: int| 0 <= i < m.embed.len() ==> single::is_finite(#[trigger] m.embed[i]),
        ({
            let x = m.hidden(ids, caches, m.layers.len() as int);
            ordinary_row(
                |j: int| x[t * m.cfg.hidden + j],
                |j: int| m.final_norm[j],
                m.cfg.hidden as nat,
                m.cfg.rms_eps,
            )
        }),
    ensures
        single::mag(m.head_gradient(ids, caches, dlogits)[t * m.cfg.hidden + c]) == 0,
{
    let h = m.cfg.hidden as nat;
    let vocab = m.cfg.vocab as int;
    let eps = m.cfg.rms_eps;
    let s = m.hidden(ids, caches, m.layers.len() as int);
    lemma_head_gradient(m, ids, caches, dlogits, t, c);
    let dy = |j: int| from_logits(m, dlogits, t, j);
    let x = |j: int| s[t * h + j];
    let x2 = |j: int| s[t * m.cfg.hidden + j];
    let w = |j: int| m.final_norm[j];
    assert forall|j: int| 0 <= j < h implies single::mag(#[trigger] dy(j)) == 0 by {
        let f = |v: int| dlogits[t * m.cfg.vocab + v];
        let g = |v: int| m.embed[v * m.cfg.hidden + j];
        assert forall|v: int| 0 <= v < vocab implies single::is_finite(#[trigger] g(v)) by {
            lora::lemma_position(v, j, vocab, h as int);
        }
        lemma_zero_inner(f, g, vocab as nat);
    }
    lemma_norm_back_same(dy, x, w, dy, x2, w, h, eps, c);
    lemma_zero_triple(dy, x2, w, h);
    let a = mean_square(x2, h, eps);
    let r = single::quotient(single::ONE, single::root(a));
    let k = single::product(
        single::product(norm::MINUS_HALF, single::quotient(single::ONE, a)),
        r,
    );
    let y = triple(dy, x2, w, h);
    let ds = single::product(y, k);
    float_laws::lemma_zero_product(y, k);
    assert(single::mag(dy(c)) == 0 && single::is_finite(x2(c)) && single::is_finite(w(c)));
    let p = single::product(dy(c), w(c));
    float_laws::lemma_zero_product(dy(c), w(c));
    float_laws::lemma_zero_product(p, r);
    let q = single::quotient(single::product(norm::TWO, x2(c)), single::of_integer(h as int));
    float_laws::lemma_zero_product(q, ds);
    float_laws::lemma_zero_sum(single::product(p, r), single::product(q, ds));
}

/// What comes back to input `c` of a projection with `rows` outputs and `cols`
/// inputs from the outputs of row `t`: each output hands back its gradient
/// through its weight, and each rank of an adapter what reached it.
pub open spec fn back(p: ProjView, dy: Seq<u32>, rows: nat, cols: nat, t: int, c: int) -> u32 {
    match p {
        ProjView::Raw(w) => inner(|o: int| dy[t * rows + o], |o: int| w[o * cols + c], rows),
        ProjView::Qlora(l) => {
            let w = l.weight.values();
            let base = inner(|o: int| dy[t * rows + o], |o: int| w[o * cols + c], rows);
            match l.adapter {
                None => base,
                Some(ad) => single::sum(
                    base,
                    inner(
                        |q: int| lora_laws::reached(ad, dy, t, q),
                        |q: int| ad.a[q * cols + c],
                        ad.r,
                    ),
                ),
            }
        },
    }
}

/// The gradients of a projection.
pub proof fn lemma_proj_back(
    p: ProjView,
    x: Seq<u32>,
    dy: Seq<u32>,
    batch: int,
    rows: nat,
    cols: nat,
    t: int,
    c: int,
)
    requires
        p.wf(rows as int, cols as int),
        rows > 0,
        dy.len() == batch * rows,
        0 <= t < batch,
        0 <= c < cols,
    ensures
        p.gradients(x, dy, batch, rows as int).1.len() == batch * cols,
        0 <= t * cols + c < batch * cols,
        p.gradients(x, dy, batch, rows as int).1[t * cols + c] == back(p, dy, rows, cols, t, c),
{
    block::lemma_in_size(p, rows as int, cols as int);
    match p {
        ProjView::Raw(w) => {
            lora_laws::lemma_product(dy, w, batch, rows as int, cols as int, t, c);
            lora_laws::lemma_inner_same(
                |i: int| dy[t * (rows as int) + i],
                |i: int| w[i * (cols as int) + c],
                |o: int| dy[t * rows + o],
                |o: int| w[o * cols + c],
                rows,
            );
        },
        ProjView::Qlora(l) => {
            lora_laws::lemma_layer_input_gradient(l, x, dy, batch as nat, t, c);
        },
    }
}

/// The gradients of a projection's adapter matrices: none without an adapter;
/// otherwise `dA(q, c)` and `dB(o, q)`, in this order, as those of the layer.
pub proof fn lemma_proj_adapter_back(
    p: ProjView,
    x: Seq<u32>,
    dy: Seq<u32>,
    batch: int,
    rows: nat,
    cols: nat,
    o: int,
    q: int,
    c: int,
)
    requires
        p.wf(rows as int, cols as int),
        rows > 0,
        batch >= 0,
        dy.len() == batch * rows,
        0 <= o < rows,
        0 <= c < cols,
    ensures
        ({
            let g = p.gradients(x, dy, batch, rows as int).0;
            match p {
                ProjView::Raw(w) => g is None,
                ProjView::Qlora(l) => match l.adapter {
                    None => g is None,
                    Some(ad) => 0 <= q < ad.r ==> {
                        let scale = single::quotient(ad.alpha, single::of_integer(ad.r as int));
                        &&& g matches Some((da, db))
                        &&& da.len() == ad.r * cols
                        &&& db.len() == rows * ad.r
                        &&& da[q * cols + c] == inner(
                            |i: int| lora_laws::reached(ad, dy, i, q),
                            |i: int| x[i * cols + c],
                            batch as nat,
                        )
                        &&& db[o * ad.r + q] == inner(
                            |i: int| single::product(dy[i * rows + o], scale),
                            |i: int| lora_laws::reduced(ad, x, i, q),
                            batch as nat,
                        )
                    },
                },
            }
        }),
{
    if let ProjView::Qlora(l) = p {
        if let Some(ad) = l.adapter {
            if 0 <= q < ad.r {
                lora_laws::lemma_layer_adapter_gradients(l, x, dy, batch as nat, o, q, c);
                lora_laws::lemma_inner_same(
                    |i: int|
                        single::product(
                            dy[i * rows + o],
                            single::quotient(ad.alpha, single::of_integer(ad.r as int)),
                        ),
                    |i: int| lora_laws::reduced(ad, x, i, q),
                    |i: int|
                        single::product(
                            dy[i * rows + o],
                            single::quotient(ad.alpha, single::of_integer(ad.r as int)),
                        ),
                    |i: int| lora_laws::reduced(ad, x, i, q),
                    batch as nat,
                );
            }
        }
    }
}

/// The sigmoid `1 / (1 + e)`, where `e` is the exponential of the negated gate.
pub open spec fn sigmoid_of(e: u32) -> u32 {
    single::quotient(single::ONE, single::sum(single::ONE, e))
}

/// `dL/dact(t, e)`, from the gradient of the block's output.
pub open spec fn act_back(cfg: LlamaConfig, w: WeightsView, dx: Seq<u32>, t: int, e: int) -> u32 {
    back(w.down, dx, cfg.hidden as nat, cfg.intermediate as nat, t, e)
}

/// `dL/dgate`: `dact * up * s * (1 + gate * (1 - s))`.
pub open spec fn gate_back(
    c: CacheView,
    cfg: LlamaConfig,
    w: WeightsView,
    seq: int,
    dx: Seq<u32>,
) -> Seq<u32> {
    let inter = cfg.intermediate as int;
    lora::matrix(
        seq,
        inter,
        |t: int, e: int|
            {
                let s = sigmoid_of(c.gate_exps[t * inter + e]);
                single::product(
                    single::product(act_back(cfg, w, dx, t, e), c.up[t * inter + e]),
                    single::product(
                        s,
                        single::sum(
                            single::ONE,
                            single::product(
                                c.gate[t * inter + e],
                                single::difference(single::ONE, s),
                            ),
                        ),
                    ),
                )
            },
    )
}

/// `dL/dup`: `dact * gate / (1 + e)`.
pub open spec fn up_back(
    c: CacheView,
    cfg: LlamaConfig,
    w: WeightsView,
    seq: int,
    dx: Seq<u32>,
) -> Seq<u32> {
    let inter = cfg.intermediate as int;
    lora::matrix(
        seq,
        inter,
        |t: int, e: int|
            single::product(
                act_back(cfg, w, dx, t, e),
                single::quotient(
                    c.gate[t * inter + e],
                    single::sum(single::ONE, c.gate_exps[t * inter + e]),
                ),
            ),
    )
}

proof fn lemma_gate_and_up(
    c: CacheView,
    cfg: LlamaConfig,
    w: WeightsView,
    seq: int,
    tables: TablesView,
    dx: Seq<u32>,
)
    requires
        block::block_runs(cfg, w, seq),
        block_grad::sized(c, cfg, seq, tables),
        cfg.hidden > 0,
        dx.len() == seq * cfg.hidden,
    ensures
        ({
            let d = w.down.gradients(c.act, dx, seq, cfg.hidden as int).1;
            &&& gate_back(c, cfg, w, seq, dx) == block_grad::gate_gradient(c, d)
            &&& up_back(c, cfg, w, seq, dx) == block_grad::up_gradient(c, d)
            &&& d.len() == seq * cfg.intermediate
        }),
{
    let (h, inter) = (cfg.hidden as nat, cfg.intermediate as nat);
    let d = w.down.gradients(c.act, dx, seq, h as int).1;
    block::lemma_kind_wf(w, cfg);
    block::lemma_proj_sizes(w.down, c.act, dx, seq, h as int, inter as int);
    let (g1, g2) = (gate_back(c, cfg, w, seq, dx), block_grad::gate_gradient(c, d));
    let (u1, u2) = (up_back(c, cfg, w, seq, dx), block_grad::up_gradient(c, d));
    reveal(block::silu_slope);
    reveal(block::silu_value);
    assert forall|i: int| 0 <= i < seq * inter implies g1[i] == g2[i] && u1[i] == u2[i] by {
        lora::lemma_cell(i, seq, inter as int);
        lemma_proj_back(w.down, c.act, dx, seq, h, inter, i / (inter as int), i % (inter as int));
    }
    assert(g1 =~= g2);
    assert(u1 =~= u2);
}

/// The MLP branch: what enters `x_mid` at position `t`, in column `k`, is the
/// gradient of the block's output there and what comes back through the
/// normalization from the two projections that read it. The adapters of the
/// down projection, of `gate` and of `up` are noted in this order, each with
/// what its projection read and what came back to its outputs.
pub proof fn lemma_mlp_back(
    c: CacheView,
    cfg: LlamaConfig,
    w: WeightsView,
    seq: int,
    tables: TablesView,
    layer: usize,
    dx: Seq<u32>,
    grads: Seq<AdapterGradView>,
    t: int,
    k: int,
)
    requires
        block::block_runs(cfg, w, seq),
        block_grad::sized(c, cfg, seq, tables),
        cfg.hidden > 0,
        dx.len() == seq * cfg.hidden,
        0 <= t < seq,
        0 <= k < cfg.hidden,
    ensures
        ({
            let (h, inter) = (cfg.hidden as nat, cfg.intermediate as nat);
            let r = block_grad::mlp_gradients(c, cfg, w, seq, layer, dx, grads);
            let (dg, du) = (gate_back(c, cfg, w, seq, dx), up_back(c, cfg, w, seq, dx));
            &&& r.0.len() == seq * h
            &&& 0 <= t * h + k < seq * h
            &&& r.0[t * h + k] == single::sum(
                norm_back(
                    |j: int|
                        single::sum(
                            back(w.gate, dg, inter, h, t, j),
                            back(w.up, du, inter, h, t, j),
                        ),
                    |j: int| c.x_mid[t * h + j],
                    |j: int| w.mlp_norm[j],
                    h,
                    cfg.rms_eps,
                    k,
                ),
                dx[t * h + k],
            )
            &&& r.1 == block_grad::noted(
                block_grad::noted(
                    block_grad::noted(
                        grads,
                        layer,
                        ProjKind::Down,
                        w.down.gradients(c.act, dx, seq, h as int).0,
                    ),
                    layer,
                    ProjKind::Gate,
                    w.gate.gradients(c.xn_mlp, dg, seq, inter as int).0,
                ),
                layer,
                ProjKind::Up,
                w.up.gradients(c.xn_mlp, du, seq, inter as int).0,
            )
        }),
{
    let (h, inter) = (cfg.hidden as nat, cfg.intermediate as nat);
    let eps = cfg.rms_eps;
    let (dg, du) = (gate_back(c, cfg, w, seq, dx), up_back(c, cfg, w, seq, dx));
    lemma_gate_and_up(c, cfg, w, seq, tables, dx);
    block::lemma_kind_wf(w, cfg);
    let g = w.gate.gradients(c.xn_mlp, dg, seq, inter as int).1;
    let u = w.up.gradients(c.xn_mlp, du, seq, inter as int).1;
    block::lemma_proj_sizes(w.gate, c.xn_mlp, dg, seq, inter as int, h as int);
    block::lemma_proj_sizes(w.up, c.xn_mlp, du, seq, inter as int, h as int);
    let dxn = lora::added(g, u);
    lora::lemma_position(t, k, seq, h as int);
    lemma_norm_gradient(c.x_mid, w.mlp_norm, dxn, eps, seq, t, k);
    let f = |j: int| dxn[t * w.mlp_norm.len() + j];
    let f2 = |j: int|
        single::sum(back(w.gate, dg, inter, h, t, j), back(w.up, du, inter, h, t, j));
    assert forall|j: int| 0 <= j < h implies #[trigger] f(j) == f2(j) by {
        lora::lemma_position(t, j, seq, h as int);
        lemma_proj_back(w.gate, c.xn_mlp, dg, seq, inter, h, t, j);
        lemma_proj_back(w.up, c.xn_mlp, du, seq, inter, h, t, j);
    }
    lemma_norm_back_same(
        f,
        |j: int| c.x_mid[t * w.mlp_norm.len() + j],
        |j: int| w.mlp_norm[j],
        f2,
        |j: int| c.x_mid[t * h + j],
        |j: int| w.mlp_norm[j],
        h,
        eps,
        k,
    );
}

/// `dL/dattn_out`, from the gradient of `x_mid`.
pub open spec fn out_back(cfg: LlamaConfig, w: WeightsView, seq: int, dx: Seq<u32>) -> Seq<u32> {
    let h = cfg.hidden as nat;
    lora::matrix(seq, h as int, |t: int, e: int| back(w.o, dx, h, h, t, e))
}

/// The attention branch: what enters the block at position `t`, in column `k`,
/// is the gradient of `x_mid` there and what comes back through the
/// normalization from the three projections that read it. The adapters of
/// `o`, `q`, `k` and `v` are noted in this order.
pub proof fn lemma_attention_back(
    c: CacheView,
    cfg: LlamaConfig,
    w: WeightsView,
    seq: int,
    tables: TablesView,
    layer: usize,
    dx: Seq<u32>,
    grads: Seq<AdapterGradView>,
    t: int,
    k: int,
)
    requires
        block::block_runs(cfg, w, seq),
        block_grad::sized(c, cfg, seq, tables),
        cfg.hidden > 0,
        dx.len() == seq * cfg.hidden,
        0 <= t < seq,
        0 <= k < cfg.hidden,
    ensures
        ({
            let (h, kv) = (cfg.hidden as nat, cfg.kv_size() as nat);
            let r = block_grad::attention_gradients(c, cfg, w, seq, tables, layer, dx, grads);
            let a = c.attention(cfg, seq, tables);
            let d = out_back(cfg, w, seq, dx);
            let dq = a.query_gradient(d, c.exps);
            let dk = a.key_gradient(d, c.exps, c.exps.len());
            let dv = a.value_gradient(d, c.exps, c.exps.len());
            &&& r.0.len() == seq * h
            &&& 0 <= t * h + k < seq * h
            &&& r.0[t * h + k] == single::sum(
                dx[t * h + k],
                norm_back(
                    |j: int|
                        single::sum(
                            single::sum(back(w.q, dq, h, h, t, j), back(w.k, dk, kv, h, t, j)),
                            back(w.v, dv, kv, h, t, j),
                        ),
                    |j: int| c.x_in[t * h + j],
                    |j: int| w.attn_norm[j],
                    h,
                    cfg.rms_eps,
                    k,
                ),
            )
            &&& r.1 == block_grad::noted(
                block_grad::noted(
                    block_grad::noted(
                        block_grad::noted(
                            grads,
                            layer,
                            ProjKind::O,
                            w.o.gradients(c.attn_out, dx, seq, h as int).0,
                        ),
                        layer,
                        ProjKind::Q,
                        w.q.gradients(c.xn_attn, dq, seq, h as int).0,
                    ),
                    layer,
                    ProjKind::K,
                    w.k.gradients(c.xn_attn, dk, seq, kv as int).0,
                ),
                layer,
                ProjKind::V,
                w.v.gradients(c.xn_attn, dv, seq, kv as int).0,
            )
        }),
{
    let (h, kv) = (cfg.hidden as nat, cfg.kv_size() as nat);
    let eps = cfg.rms_eps;
    let a = c.attention(cfg, seq, tables);
    let d = out_back(cfg, w, seq, dx);
    let o = w.o.gradients(c.attn_out, dx, seq, h as int).1;
    block::lemma_kind_wf(w, cfg);
    block::lemma_block_sizes(cfg);
    block::lemma_proj_sizes(w.o, c.attn_out, dx, seq, h as int, h as int);
    assert forall|i: int| 0 <= i < seq * h implies d[i] == o[i] by {
        lora::lemma_cell(i, seq, h as int);
        lemma_proj_back(w.o, c.attn_out, dx, seq, h, h, i / (h as int), i % (h as int));
    }
    assert(d =~= o);
    let dq = a.query_gradient(d, c.exps);
    let dk = a.key_gradient(d, c.exps, c.exps.len());
    let dv = a.value_gradient(d, c.exps, c.exps.len());
    let gq = w.q.gradients(c.xn_attn, dq, seq, h as int).1;
    let gk = w.k.gradients(c.xn_attn, dk, seq, kv as int).1;
    let gv = w.v.gradients(c.xn_attn, dv, seq, kv as int).1;
    assert(seq * kv >= 0) by (nonlinear_arith)
        requires
            seq >= 0,
            kv >= 0,
    ;
    block::lemma_proj_sizes(w.q, c.xn_attn, dq, seq, h as int, h as int);
    block::lemma_proj_sizes(w.k, c.xn_attn, dk, seq, kv as int, h as int);
    block::lemma_proj_sizes(w.v, c.xn_attn, dv, seq, kv as int, h as int);
    let dxn = lora::added(lora::added(gq, gk), gv);
    lora::lemma_position(t, k, seq, h as int);
    lemma_norm_gradient(c.x_in, w.attn_norm, dxn, eps, seq, t, k);
    let f = |j: int| dxn[t * w.attn_norm.len() + j];
    let f2 = |j: int|
        single::sum(
            single::sum(back(w.q, dq, h, h, t, j), back(w.k, dk, kv, h, t, j)),
            back(w.v, dv, kv, h, t, j),
        );
    assert forall|j: int| 0 <= j < h implies #[trigger] f(j) == f2(j) by {
        lora::lemma_position(t, j, seq, h as int);
        lemma_proj_back(w.q, c.xn_attn, dq, seq, h, h, t, j);
        lemma_proj_back(w.k, c.xn_attn, dk, seq, kv, h, t, j);
        lemma_proj_back(w.v, c.xn_attn, dv, seq, kv, h, t, j);
    }
    lemma_norm_back_same(
        f,
        |j: int| c.x_in[t * w.attn_norm.len() + j],
        |j: int| w.attn_norm[j],
        f2,
        |j: int| c.x_in[t * h + j],
        |j: int| w.attn_norm[j],
        h,
        eps,
        k,
    );
}

/// Whether `flow[i]` is the gradient of what enters block `i`, and `lists[i]`
/// the adapter gradients noted once block `i` is done: the last entries are the
/// gradient of the last hidden state and an empty list, and each block goes
/// from those after it, the MLP branch first, to its own.
pub open spec fn is_flow(
    m: ModelView,
    ids: Seq<u32>,
    tables: TablesView,
    caches: Seq<CacheView>,
    dlogits: Seq<u32>,
    flow: Seq<Seq<u32>>,
    lists: Seq<Seq<AdapterGradView>>,
) -> bool {
    let n = m.layers.len() as int;
    &&& flow.len() == n + 1
    &&& lists.len() == n + 1
    &&& flow[n] == m.head_gradient(ids, caches, dlogits)
    &&& lists[n] == Seq::<AdapterGradView>::empty()
    &&& forall|i: int| 0 <= i < n ==> flows_through(m, ids, tables, caches, flow, lists, i)
}

/// One block of the flow.
pub open spec fn flows_through(
    m: ModelView,
    ids: Seq<u32>,
    tables: TablesView,
    caches: Seq<CacheView>,
    flow: Seq<Seq<u32>>,
    lists: Seq<Seq<AdapterGradView>>,
    i: int,
) -> bool {
    let seq = ids.len() as int;
    let (c, cfg, w, l) = (caches[i], m.cfg, m.layers[i], i as usize);
    let mlp = block_grad::mlp_gradients(c, cfg, w, seq, l, flow[i + 1], lists[i + 1]);
    (flow[i], lists[i]) == block_grad::attention_gradients(
        c,
        cfg,
        w,
        seq,
        tables,
        l,
        mlp.0,
        mlp.1,
    )
}

/// The backward pass runs from the head through the blocks, last block first,
/// and gives the adapter gradients noted on the way.
pub proof fn lemma_flow(
    m: ModelView,
    ids: Seq<u32>,
    tables: TablesView,
    caches: Seq<CacheView>,
    dlogits: Seq<u32>,
    flow: Seq<Seq<u32>>,
    lists: Seq<Seq<AdapterGradView>>,
)
    requires
        is_flow(m, ids, tables, caches, dlogits, flow, lists),
    ensures
        m.gradients(ids, tables, caches, dlogits) == lists[0],
{
    lemma_flow_from(m, ids, tables, caches, dlogits, flow, lists, m.layers.len() as int);
}

proof fn lemma_flow_from(
    m: ModelView,
    ids: Seq<u32>,
    tables: TablesView,
    caches: Seq<CacheView>,
    dlogits: Seq<u32>,
    flow: Seq<Seq<u32>>,
    lists: Seq<Seq<AdapterGradView>>,
    n: int,
)
    requires
        is_flow(m, ids, tables, caches, dlogits, flow, lists),
        0 <= n <= m.layers.len(),
    ensures
        m.layer_gradients(caches, ids.len() as int, tables, n as nat, flow[n], lists[n])
            == lists[0],
    decreases n,
{
    if n > 0 {
        assert(flows_through(m, ids, tables, caches, flow, lists, n - 1));
        lemma_flow_from(m, ids, tables, caches, dlogits, flow, lists, n - 1);
    }
}

/// There is such a flow.
pub proof fn lemma_flow_exists(
    m: ModelView,
    ids: Seq<u32>,
    tables: TablesView,
    caches: Seq<CacheView>,
    dlogits: Seq<u32>,
) -> (r: (Seq<Seq<u32>>, Seq<Seq<AdapterGradView>>))
    ensures
        is_flow(m, ids, tables, caches, dlogits, r.0, r.1),
{
    let n = m.layers.len() as int;
    let flow = Seq::new(
        (n + 1) as nat,
        |i: int| flow_at(m, ids, tables, caches, dlogits, i).0,
    );
    let lists = Seq::new(
        (n + 1) as nat,
        |i: int| flow_at(m, ids, tables, caches, dlogits, i).1,
    );
    (flow, lists)
}

spec fn flow_at(
    m: ModelView,
    ids: Seq<u32>,
    tables: TablesView,
    caches: Seq<CacheView>,
    dlogits: Seq<u32>,
    i: int,
) -> (Seq<u32>, Seq<AdapterGradView>)
    decreases m.layers.len() - i,
{
    if i >= m.layers.len() {
        (m.head_gradient(ids, caches, dlogits), Seq::empty())
    } else {
        let seq = ids.len() as int;
        let (c, cfg, w, l) = (caches[i], m.cfg, m.layers[i], i as usize);
        let after = flow_at(m, ids, tables, caches, dlogits, i + 1);
        let mlp = block_grad::mlp_gradients(c, cfg, w, seq, l, after.0, after.1);
        block_grad::attention_gradients(c, cfg, w, seq, tables, l, mlp.0, mlp.1)
    }
}

} // verus!
