//! The model is causal: no row of the logits depends on later ids.
use crate::ieee;
use crate::lora;
use crate::model::attention;
use crate::model::attention::AttentionView;
use crate::model::block;
use crate::model::block::{CacheView, TablesView};
use crate::model::config::LlamaConfig;
use crate::model::laws;
use crate::model::llama::ModelView;
use crate::model::norm;
use crate::model::weights::{ProjView, WeightsView};
use crate::quant;
use crate::single;
use vstd::prelude::*;

verus! {

/// Whether two lists begin with the same `k` elements.
pub open spec fn same_start(x: Seq<u32>, y: Seq<u32>, k: int) -> bool {
    &&& k <= x.len()
    &&& k <= y.len()
    &&& forall|i: int| 0 <= i < k ==> #[trigger] x[i] == y[i]
}

/// Whether a function has one answer for each argument.
pub open spec fn single_valued<E: Fn(u32) -> u32>(exp: E) -> bool {
    forall|x: u32, y: u32, z: u32|
        #![trigger call_ensures(exp, (x,), y), call_ensures(exp, (x,), z)]
        call_ensures(exp, (x,), y) && call_ensures(exp, (x,), z) ==> y == z
}

/// Row and column of a position among the first `n` rows of width `w`.
proof fn lemma_row_of(p: int, n: int, w: int)
    requires
        0 <= p < n * w,
        w >= 0,
    ensures
        w > 0,
        0 <= p / w < n,
        0 <= p % w < w,
        0 <= (p / w) * w <= p,
        (p / w) * w + w <= n * w,
        p == (p / w) * w + p % w,
{
    if w == 0 {
        assert(n * w == 0) by (nonlinear_arith)
            requires
                w == 0,
        ;
    }
    ieee::lemma_div_parts(p as nat, w as nat);
    let (q, r) = (p / w, p % w);
    assert(q * w == w * q) by (nonlinear_arith);
    assert(q < n) by (nonlinear_arith)
        requires
            p == w * q + r,
            r >= 0,
            p < n * w,
            w > 0,
    ;
    assert(q * w + w <= n * w) by (nonlinear_arith)
        requires
            q + 1 <= n,
            w > 0,
    ;
    assert(0 <= q * w) by (nonlinear_arith)
        requires
            q >= 0,
            w > 0,
    ;
}

/// The first rows of a matrix.
proof fn lemma_rows_fit(n: int, m: int, w: int)
    requires
        0 <= n <= m,
        w >= 0,
    ensures
        0 <= n * w <= m * w,
{
    assert(0 <= n * w <= m * w) by (nonlinear_arith)
        requires
            0 <= n <= m,
            w >= 0,
    ;
}

/// Rows of a product come from the rows of its left factor.
proof fn lemma_product_start(
    x: Seq<u32>,
    y: Seq<u32>,
    b: Seq<u32>,
    s: int,
    t: int,
    n: int,
    k: int,
    m: int,
)
    requires
        0 <= n <= s,
        n <= t,
        k >= 0,
        m >= 0,
        same_start(x, y, n * k),
    ensures
        same_start(
            lora::product_of_right(x, b, s, k, m),
            lora::product_of_right(y, b, t, k, m),
            n * m,
        ),
{
    lemma_rows_fit(n, s, m);
    lemma_rows_fit(n, t, m);
    let (p, q) = (lora::product_of_right(x, b, s, k, m), lora::product_of_right(y, b, t, k, m));
    assert forall|i: int| 0 <= i < n * m implies #[trigger] p[i] == q[i] by {
        lemma_row_of(i, n, m);
        let r = i / m;
        lemma_rows_fit(r, n, k);
        assert(r * k + k <= n * k) by (nonlinear_arith)
            requires
                r + 1 <= n,
                k >= 0,
        ;
        assert(lora::row(x, r, k) =~= lora::row(y, r, k));
    }
}

/// Rows of a projection come from the rows of its input.
proof fn lemma_proj_start(
    p: ProjView,
    x: Seq<u32>,
    y: Seq<u32>,
    s: int,
    t: int,
    n: int,
    rows: int,
    cols: int,
)
    requires
        p.wf(rows, cols),
        rows > 0,
        cols >= 0,
        0 <= n <= s,
        n <= t,
        same_start(x, y, n * cols),
    ensures
        same_start(p.output(x, s, rows), p.output(y, t, rows), n * rows),
{
    block::lemma_in_size(p, rows, cols);
    block::lemma_proj_sizes(p, x, seq![], s, rows, cols);
    block::lemma_proj_sizes(p, y, seq![], t, rows, cols);
    lemma_rows_fit(n, s, rows);
    lemma_rows_fit(n, t, rows);
    match p {
        ProjView::Raw(w) => {
            lemma_product_start(x, y, w, s, t, n, cols, rows);
        },
        ProjView::Qlora(l) => {
            lemma_product_start(x, y, l.weight.values(), s, t, n, cols, rows);
            if let Some(ad) = l.adapter {
                let r = ad.r as int;
                lemma_product_start(x, y, ad.a, s, t, n, cols, r);
                let a = lora::product_of_right(x, ad.a, s, cols, r);
                let b = lora::product_of_right(y, ad.a, t, cols, r);
                lemma_product_start(a, b, ad.b, s, t, n, r, rows);
            }
        },
    }
}

/// Rows are normalized one by one.
proof fn lemma_norm_start(x: Seq<u32>, y: Seq<u32>, w: Seq<u32>, eps: u32, n: int)
    requires
        0 <= n,
        same_start(x, y, n * w.len()),
    ensures
        same_start(norm::normalized(x, w, eps), norm::normalized(y, w, eps), n * w.len()),
{
    let h = w.len() as int;
    let (p, q) = (norm::normalized(x, w, eps), norm::normalized(y, w, eps));
    assert forall|i: int| 0 <= i < n * h implies #[trigger] p[i] == q[i] by {
        lemma_row_of(i, n, h);
        assert(quant::block(x, i / h, h) =~= quant::block(y, i / h, h));
    }
}

/// The exponentials of the first `n` positions agree.
proof fn lemma_same_exps<E: Fn(u32) -> u32>(
    a: AttentionView,
    b: AttentionView,
    exp: E,
    xa: Seq<Seq<u32>>,
    xb: Seq<Seq<u32>>,
    n: int,
    r: int,
)
    requires
        a.wf(),
        b.wf(),
        laws::agree(a, b, n),
        single_valued(exp),
        a.has_rows(xa),
        b.has_rows(xb),
        a.answered(exp, xa),
        b.answered(exp, xb),
        0 <= r < n * a.cfg.heads,
    ensures
        r < xa.len(),
        r < xb.len(),
        xa[r] == xb[r],
{
    let heads = a.cfg.heads as int;
    lemma_row_of(r, n, heads);
    lemma_rows_fit(n, a.seq, heads);
    lemma_rows_fit(n, b.seq, heads);
    let (t, head) = (r / heads, r % heads);
    laws::lemma_causal(a, b, n, t, head, seq![], 0);
    assert forall|i: int| 0 <= i < xa[r].len() implies #[trigger] xa[r][i] == xb[r][i] by {
        let e = a.exponent(t, head, i);
        assert(e == b.exponent(t, head, i));
        assert(call_ensures(exp, (e,), xa[r][i]));
        assert(call_ensures(exp, (e,), xb[r][i]));
    }
    assert(xa[r] =~= xb[r]);
}

/// The outputs of an attention for the first `n` positions agree.
proof fn lemma_attention_start<E: Fn(u32) -> u32>(
    a: AttentionView,
    b: AttentionView,
    exp: E,
    xa: Seq<Seq<u32>>,
    xb: Seq<Seq<u32>>,
    n: int,
)
    requires
        a.wf(),
        b.wf(),
        0 <= n,
        laws::agree(a, b, n),
        single_valued(exp),
        a.has_rows(xa),
        b.has_rows(xb),
        a.answered(exp, xa),
        b.answered(exp, xb),
    ensures
        same_start(a.output(xa), b.output(xb), n * a.cfg.hidden),
{
    let (h, heads, dh) = (a.cfg.hidden as int, a.cfg.heads as int, a.cfg.head_size());
    lemma_rows_fit(n, a.seq, h);
    lemma_rows_fit(n, b.seq, h);
    let (p, q) = (a.output(xa), b.output(xb));
    assert forall|i: int| 0 <= i < n * h implies #[trigger] p[i] == q[i] by {
        lemma_row_of(i, n, h);
        let (t, c) = (i / h, i % h);
        if c < heads * dh {
            lemma_row_of(c, heads, dh);
            let head = c / dh;
            lora::lemma_position(t, head, n, heads);
            lemma_same_exps(a, b, exp, xa, xb, n, t * heads + head);
            laws::lemma_causal(a, b, n, t, head, xa[t * heads + head], c % dh);
        }
    }
}

/// The first rows as a prefix.
proof fn lemma_start_is_prefix(x: Seq<u32>, y: Seq<u32>, k: int)
    requires
        0 <= k,
        same_start(x, y, k),
    ensures
        x.take(k) == y.take(k),
{
    assert(x.take(k) =~= y.take(k));
}

/// The outputs of a block for the first `n` positions agree where its inputs do.
proof fn lemma_block_start<E: Fn(u32) -> u32>(
    cfg: LlamaConfig,
    w: WeightsView,
    a: CacheView,
    b: CacheView,
    s: int,
    t: int,
    ta: TablesView,
    tb: TablesView,
    exp: E,
    n: int,
)
    requires
        single_valued(exp),
        0 <= n <= s,
        n <= t,
        block::block_runs(cfg, w, s),
        block::block_runs(cfg, w, t),
        block::tables_for(ta, cfg, s),
        block::tables_for(tb, cfg, t),
        ta.cos.take(n) == tb.cos.take(n),
        ta.sin.take(n) == tb.sin.take(n),
        a.x_in.len() == s * cfg.hidden,
        b.x_in.len() == t * cfg.hidden,
        a.recorded(cfg, w, s, ta, exp),
        b.recorded(cfg, w, t, tb, exp),
        same_start(a.x_in, b.x_in, n * cfg.hidden),
    ensures
        same_start(a.output(cfg, w, s), b.output(cfg, w, t), n * cfg.hidden),
{
    let h = cfg.hidden as int;
    let inter = cfg.intermediate as int;
    let kv = cfg.kv_size();
    block::lemma_recorded_sizes(a, cfg, w, s, ta, exp);
    block::lemma_recorded_sizes(b, cfg, w, t, tb, exp);
    block::lemma_block_sizes(cfg);
    block::lemma_kind_wf(w, cfg);
    lemma_norm_start(a.x_in, b.x_in, w.attn_norm, cfg.rms_eps, n);
    lemma_proj_start(w.q, a.xn_attn, b.xn_attn, s, t, n, h, h);
    lemma_proj_start(w.k, a.xn_attn, b.xn_attn, s, t, n, kv, h);
    lemma_proj_start(w.v, a.xn_attn, b.xn_attn, s, t, n, kv, h);
    let (x, y) = (a.attention(cfg, s, ta), b.attention(cfg, t, tb));
    lemma_rows_fit(n, n, h);
    lemma_rows_fit(n, n, kv);
    lemma_start_is_prefix(a.q, b.q, n * h);
    lemma_start_is_prefix(a.k, b.k, n * kv);
    lemma_start_is_prefix(a.v, b.v, n * kv);
    lemma_attention_start(x, y, exp, a.exps, b.exps, n);
    lemma_proj_start(w.o, a.attn_out, b.attn_out, s, t, n, h, h);
    block::lemma_proj_sizes(w.o, a.attn_out, seq![], s, h, h);
    block::lemma_proj_sizes(w.o, b.attn_out, seq![], t, h, h);
    assert(same_start(a.x_mid, b.x_mid, n * h));
    lemma_norm_start(a.x_mid, b.x_mid, w.mlp_norm, cfg.rms_eps, n);
    lemma_proj_start(w.gate, a.xn_mlp, b.xn_mlp, s, t, n, inter, h);
    lemma_proj_start(w.up, a.xn_mlp, b.xn_mlp, s, t, n, inter, h);
    assert(same_start(a.gate_exps, b.gate_exps, n * inter)) by {
        assert forall|i: int| 0 <= i < n * inter implies #[trigger] a.gate_exps[i]
            == b.gate_exps[i] by {
            let e = single::negation(a.gate[i]);
            assert(a.gate[i] == b.gate[i]);
            assert(call_ensures(exp, (e,), a.gate_exps[i]));
            assert(call_ensures(exp, (e,), b.gate_exps[i]));
        }
    }
    assert(same_start(a.act, b.act, n * inter)) by {
        assert forall|i: int| 0 <= i < n * inter implies #[trigger] a.act[i] == b.act[i] by {
            assert(a.gate[i] == b.gate[i]);
            assert(a.gate_exps[i] == b.gate_exps[i]);
            assert(a.up[i] == b.up[i]);
        }
    }
    lemma_proj_start(w.down, a.act, b.act, s, t, n, h, inter);
    block::lemma_proj_sizes(w.down, a.act, seq![], s, h, inter);
    block::lemma_proj_sizes(w.down, b.act, seq![], t, h, inter);
}

/// What both runs share.
pub open spec fn runs_share<E: Fn(u32) -> u32>(
    m: ModelView,
    a: Seq<u32>,
    b: Seq<u32>,
    ta: TablesView,
    tb: TablesView,
    exp: E,
    ca: Seq<CacheView>,
    cb: Seq<CacheView>,
    n: int,
) -> bool {
    &&& m.runs(a, ta)
    &&& m.runs(b, tb)
    &&& m.traced(a, ta, exp, ca)
    &&& m.traced(b, tb, exp, cb)
    &&& ca.len() == m.layers.len()
    &&& cb.len() == m.layers.len()
    &&& 0 <= n <= a.len()
    &&& n <= b.len()
    &&& a.take(n) == b.take(n)
    &&& ta.cos.take(n) == tb.cos.take(n)
    &&& ta.sin.take(n) == tb.sin.take(n)
}

/// The first `n` rows of the hidden states agree after any number of blocks.
proof fn lemma_hidden_start<E: Fn(u32) -> u32>(
    m: ModelView,
    a: Seq<u32>,
    b: Seq<u32>,
    ta: TablesView,
    tb: TablesView,
    exp: E,
    ca: Seq<CacheView>,
    cb: Seq<CacheView>,
    n: int,
    layer: int,
)
    requires
        single_valued(exp),
        runs_share(m, a, b, ta, tb, exp, ca, cb, n),
        0 <= layer <= m.layers.len(),
    ensures
        m.hidden(a, ca, layer).len() == a.len() * m.cfg.hidden,
        m.hidden(b, cb, layer).len() == b.len() * m.cfg.hidden,
        same_start(m.hidden(a, ca, layer), m.hidden(b, cb, layer), n * m.cfg.hidden),
    decreases layer,
{
    let h = m.cfg.hidden as int;
    let (s, t) = (a.len() as int, b.len() as int);
    lemma_rows_fit(n, s, h);
    lemma_rows_fit(n, t, h);
    if layer == 0 {
        let (x, y) = (m.embedded(a), m.embedded(b));
        assert forall|i: int| 0 <= i < n * h implies #[trigger] x[i] == y[i] by {
            lemma_row_of(i, n, h);
            assert(a.take(n)[i / h] == a[i / h]);
            assert(b.take(n)[i / h] == b[i / h]);
        }
    } else {
        let i = layer - 1;
        lemma_hidden_start(m, a, b, ta, tb, exp, ca, cb, n, i);
        assert(ca[i].x_in == m.hidden(a, ca, i));
        assert(cb[i].x_in == m.hidden(b, cb, i));
        assert(block::block_runs(m.cfg, m.layers[i], s));
        assert(block::block_runs(m.cfg, m.layers[i], t));
        block::lemma_recorded_sizes(ca[i], m.cfg, m.layers[i], s, ta, exp);
        block::lemma_recorded_sizes(cb[i], m.cfg, m.layers[i], t, tb, exp);
        lemma_block_start(m.cfg, m.layers[i], ca[i], cb[i], s, t, ta, tb, exp, n);
    }
}

/// The model is causal: two runs over ids that begin with the same `n` give
/// logits that begin with the same `n` rows, where `exp` has one answer for
/// each argument and the rotations of the first `n` positions are the same.
/// Nothing is asked of the ids, rotations and records behind them.
pub proof fn lemma_forward_causal<E: Fn(u32) -> u32>(
    m: ModelView,
    a: Seq<u32>,
    b: Seq<u32>,
    ta: TablesView,
    tb: TablesView,
    exp: E,
    ca: Seq<CacheView>,
    cb: Seq<CacheView>,
    n: int,
)
    requires
        single_valued(exp),
        runs_share(m, a, b, ta, tb, exp, ca, cb, n),
    ensures
        m.logits(a, ca).len() == a.len() * m.cfg.vocab,
        m.logits(b, cb).len() == b.len() * m.cfg.vocab,
        m.logits(a, ca).take(n * m.cfg.vocab) == m.logits(b, cb).take(n * m.cfg.vocab),
{
    let (h, v) = (m.cfg.hidden as int, m.cfg.vocab as int);
    let (s, t) = (a.len() as int, b.len() as int);
    let last = m.layers.len() as int;
    lemma_rows_fit(n, s, v);
    lemma_rows_fit(n, t, v);
    lemma_hidden_start(m, a, b, ta, tb, exp, ca, cb, n, last);
    let (x, y) = (m.hidden(a, ca, last), m.hidden(b, cb, last));
    lemma_norm_start(x, y, m.final_norm, m.cfg.rms_eps, n);
    lemma_product_start(
        norm::normalized(x, m.final_norm, m.cfg.rms_eps),
        norm::normalized(y, m.final_norm, m.cfg.rms_eps),
        m.embed,
        s,
        t,
        n,
        h,
        v,
    );
    lemma_start_is_prefix(m.logits(a, ca), m.logits(b, cb), n * v);
}

} // verus!
