//! Properties of the model as a whole.
use crate::lora::AdapterView;
use crate::io::npz::NamedArrayView;
use crate::model::attention;
use crate::model::attention::AttentionView;
use crate::model::block::{CacheView, TablesView};
use crate::model::block_grad;
use crate::model::block_grad::AdapterGradView;
use crate::model::config::{AdapterConfigView, LlamaConfig, ProjKind};
use crate::model::llama;
use crate::model::llama::ModelView;
use crate::model::weights;
use crate::model::weights::{ProjView, WeightsView};
use crate::qlora;
use crate::single;
use vstd::prelude::*;

verus! {

/// What is written into an adapter is read back from it, and every other
/// projection stays as it was.
pub proof fn lemma_adapter_written(
    m: ModelView,
    layer: nat,
    kind: ProjKind,
    a: Seq<u32>,
    b: Seq<u32>,
)
    requires
        llama::write_fault(m, layer, kind, a, b) is None,
    ensures
        ({
            let after = llama::with_adapter(m, layer as int, kind, a, b);
            let old_adapter = llama::adapter_at(m, layer as int, kind)->0;
            &&& llama::adapter_at(after, layer as int, kind) == Some(
                AdapterView { a, b, ..old_adapter },
            )
            &&& after.layers.len() == m.layers.len()
            &&& forall|l: int, k: ProjKind|
                0 <= l < m.layers.len() && (l != layer || k != kind) ==> #[trigger]
                    after.layers[l].proj(k) == m.layers[l].proj(k)
            &&& forall|l: int|
                0 <= l < m.layers.len() ==> (#[trigger] after.layers[l]).attn_norm
                    == m.layers[l].attn_norm && after.layers[l].mlp_norm == m.layers[l].mlp_norm
            &&& after.cfg == m.cfg && after.embed == m.embed && after.final_norm == m.final_norm
        }),
{
}

/// A fresh model carries an adapter exactly where one is targeted, and its `B`
/// is zero: until the first optimizer step it contributes nothing.
pub proof fn lemma_loaded_adapters(
    ts: Seq<NamedArrayView>,
    cfg: LlamaConfig,
    ad: AdapterConfigView,
    n: nat,
    seed: u64,
    layer: int,
    kind: ProjKind,
)
    requires
        weights::loaded_layers(ts, cfg, ad, n, seed) is Ok,
        0 <= layer < n,
    ensures
        ({
            let layers = weights::loaded_layers(ts, cfg, ad, n, seed)->Ok_0.0;
            &&& layers.len() == n
            &&& if ad.targets.contains(kind) {
                &&& layers[layer].proj(kind) matches ProjView::Qlora(l)
                &&& l.adapter matches Some(x)
                &&& x.r == ad.rank
                &&& x.alpha == ad.alpha
                &&& qlora::all_zero(x.b)
            } else {
                layers[layer].proj(kind) is Raw
            }
        }),
    decreases n,
{
    let l = (n - 1) as nat;
    let (front, rng) = weights::loaded_layers(ts, cfg, ad, l, seed)->Ok_0;
    lemma_loaded_len(ts, cfg, ad, l, seed);
    if layer < l {
        lemma_loaded_adapters(ts, cfg, ad, l, seed, layer, kind);
    } else {
        lemma_layer_adapters(ts, cfg, ad, l, rng, kind);
    }
}

proof fn lemma_loaded_len(
    ts: Seq<NamedArrayView>,
    cfg: LlamaConfig,
    ad: AdapterConfigView,
    n: nat,
    seed: u64,
)
    ensures
        weights::loaded_layers(ts, cfg, ad, n, seed) matches Ok(p) ==> p.0.len() == n,
    decreases n,
{
    if n > 0 {
        lemma_loaded_len(ts, cfg, ad, (n - 1) as nat, seed);
    }
}

/// Whether a projection is as loading makes it.
spec fn is_fresh(p: ProjView, ad: AdapterConfigView, kind: ProjKind) -> bool {
    if ad.targets.contains(kind) {
        &&& p matches ProjView::Qlora(l)
        &&& l.adapter matches Some(x)
        &&& x.r == ad.rank
        &&& x.alpha == ad.alpha
        &&& qlora::all_zero(x.b)
    } else {
        p is Raw
    }
}

proof fn lemma_layer_adapters(
    ts: Seq<NamedArrayView>,
    cfg: LlamaConfig,
    ad: AdapterConfigView,
    l: nat,
    rng: u64,
    kind: ProjKind,
)
    requires
        weights::loaded_layer(ts, cfg, ad, l, rng) is Ok,
    ensures
        is_fresh(weights::loaded_layer(ts, cfg, ad, l, rng)->Ok_0.0.proj(kind), ad, kind),
{
    assert forall|k: ProjKind, r: u64|
        (#[trigger] weights::loaded_proj(ts, cfg, ad, l, k, r)) is Ok implies is_fresh(
        weights::loaded_proj(ts, cfg, ad, l, k, r)->Ok_0.0,
        ad,
        k,
    ) by {
        assert(single::mag(0) == 0);
    }
}

/// The kinds of projection, in the order in which the backward pass comes to
/// them.
pub open spec fn backward_order() -> Seq<ProjKind> {
    seq![
        ProjKind::Down,
        ProjKind::Gate,
        ProjKind::Up,
        ProjKind::O,
        ProjKind::Q,
        ProjKind::K,
        ProjKind::V,
    ]
}

/// Whether a projection has an adapter.
pub open spec fn is_adapted(p: ProjView) -> bool {
    p matches ProjView::Qlora(l) && l.adapter is Some
}

/// The adapters of a layer among the first `n` kinds, in backward order.
pub open spec fn layer_places(w: WeightsView, layer: usize, n: nat) -> Seq<(usize, ProjKind)>
    decreases n,
{
    if n == 0 {
        seq![]
    } else {
        let front = layer_places(w, layer, (n - 1) as nat);
        let kind = backward_order()[n - 1];
        if is_adapted(w.proj(kind)) {
            front.push((layer, kind))
        } else {
            front
        }
    }
}

/// The adapters of the first `n` layers, last layer first.
pub open spec fn places(layers: Seq<WeightsView>, n: nat) -> Seq<(usize, ProjKind)>
    decreases n,
{
    if n == 0 {
        seq![]
    } else {
        layer_places(layers[n - 1], (n - 1) as usize, 7) + places(layers, (n - 1) as nat)
    }
}

/// Where gradients belong.
pub open spec fn places_of(grads: Seq<AdapterGradView>) -> Seq<(usize, ProjKind)> {
    Seq::new(grads.len(), |i: int| (grads[i].layer, grads[i].kind))
}

/// A projection has adapter gradients exactly where it has an adapter.
proof fn lemma_noted(
    p: ProjView,
    x: Seq<u32>,
    dy: Seq<u32>,
    batch: int,
    out_dim: int,
    grads: Seq<AdapterGradView>,
    layer: usize,
    kind: ProjKind,
)
    ensures
        places_of(block_grad::noted(grads, layer, kind, p.gradients(x, dy, batch, out_dim).0))
            == (if is_adapted(p) {
            places_of(grads).push((layer, kind))
        } else {
            places_of(grads)
        }),
{
    let ab = p.gradients(x, dy, batch, out_dim).0;
    assert(ab is Some == is_adapted(p));
    let next = block_grad::noted(grads, layer, kind, ab);
    if is_adapted(p) {
        assert(places_of(next) =~= places_of(grads).push((layer, kind)));
    }
}

/// A block adds the gradients of its adapters, in backward order.
proof fn lemma_block_places(
    c: CacheView,
    cfg: LlamaConfig,
    w: WeightsView,
    seq: int,
    t: TablesView,
    layer: usize,
    dx: Seq<u32>,
    grads: Seq<AdapterGradView>,
)
    ensures
        places_of(block_grad::block_gradients(c, cfg, w, seq, t, layer, dx, grads).1) == places_of(
            grads,
        ) + layer_places(w, layer, 7),
{
    let (h, inter, kv) = (cfg.hidden as int, cfg.intermediate as int, cfg.kv_size());
    let down = w.down.gradients(c.act, dx, seq, h);
    let dg = block_grad::gate_gradient(c, down.1);
    let du = block_grad::up_gradient(c, down.1);
    let gate = w.gate.gradients(c.xn_mlp, dg, seq, inter);
    let up = w.up.gradients(c.xn_mlp, du, seq, inter);
    let g1 = block_grad::noted(grads, layer, ProjKind::Down, down.0);
    let g2 = block_grad::noted(g1, layer, ProjKind::Gate, gate.0);
    let g3 = block_grad::noted(g2, layer, ProjKind::Up, up.0);
    lemma_noted(w.down, c.act, dx, seq, h, grads, layer, ProjKind::Down);
    lemma_noted(w.gate, c.xn_mlp, dg, seq, inter, g1, layer, ProjKind::Gate);
    lemma_noted(w.up, c.xn_mlp, du, seq, inter, g2, layer, ProjKind::Up);
    let mlp = block_grad::mlp_gradients(c, cfg, w, seq, layer, dx, grads);
    assert(mlp.1 == g3);
    let a = c.attention(cfg, seq, t);
    let n = c.exps.len();
    let o = w.o.gradients(c.attn_out, mlp.0, seq, h);
    let dq = a.query_gradient(o.1, c.exps);
    let dk = a.key_gradient(o.1, c.exps, n);
    let dv = a.value_gradient(o.1, c.exps, n);
    let q = w.q.gradients(c.xn_attn, dq, seq, h);
    let k = w.k.gradients(c.xn_attn, dk, seq, kv);
    let v = w.v.gradients(c.xn_attn, dv, seq, kv);
    let g4 = block_grad::noted(g3, layer, ProjKind::O, o.0);
    let g5 = block_grad::noted(g4, layer, ProjKind::Q, q.0);
    let g6 = block_grad::noted(g5, layer, ProjKind::K, k.0);
    let g7 = block_grad::noted(g6, layer, ProjKind::V, v.0);
    lemma_noted(w.o, c.attn_out, mlp.0, seq, h, g3, layer, ProjKind::O);
    lemma_noted(w.q, c.xn_attn, dq, seq, h, g4, layer, ProjKind::Q);
    lemma_noted(w.k, c.xn_attn, dk, seq, kv, g5, layer, ProjKind::K);
    lemma_noted(w.v, c.xn_attn, dv, seq, kv, g6, layer, ProjKind::V);
    assert(block_grad::block_gradients(c, cfg, w, seq, t, layer, dx, grads).1 == g7);
    let p = places_of(grads);
    reveal_with_fuel(layer_places, 8);
    assert(places_of(g1) =~= p + layer_places(w, layer, 1));
    assert(places_of(g2) =~= p + layer_places(w, layer, 2));
    assert(places_of(g3) =~= p + layer_places(w, layer, 3));
    assert(places_of(g4) =~= p + layer_places(w, layer, 4));
    assert(places_of(g5) =~= p + layer_places(w, layer, 5));
    assert(places_of(g6) =~= p + layer_places(w, layer, 6));
    assert(places_of(g7) =~= p + layer_places(w, layer, 7));
}

proof fn lemma_layer_gradient_places(
    m: ModelView,
    caches: Seq<CacheView>,
    seq: int,
    t: TablesView,
    n: nat,
    dx: Seq<u32>,
    grads: Seq<AdapterGradView>,
)
    ensures
        places_of(m.layer_gradients(caches, seq, t, n, dx, grads)) == places_of(grads) + places(
            m.layers,
            n,
        ),
    decreases n,
{
    if n == 0 {
        assert(places_of(grads) + places(m.layers, 0) =~= places_of(grads));
    } else {
        let i = n - 1;
        let b = block_grad::block_gradients(
            caches[i],
            m.cfg,
            m.layers[i],
            seq,
            t,
            i as usize,
            dx,
            grads,
        );
        lemma_block_places(caches[i], m.cfg, m.layers[i], seq, t, i as usize, dx, grads);
        lemma_layer_gradient_places(m, caches, seq, t, i as nat, b.0, b.1);
        let here = layer_places(m.layers[i], i as usize, 7);
        let rest = places(m.layers, i as nat);
        assert((places_of(grads) + here) + rest =~= places_of(grads) + (here + rest));
    }
}

/// The backward pass gives one gradient per attached adapter and none for
/// anything else: last layer first, and within a layer in backward order.
pub proof fn lemma_one_gradient_per_adapter(
    m: ModelView,
    ids: Seq<u32>,
    t: TablesView,
    caches: Seq<CacheView>,
    dlogits: Seq<u32>,
)
    ensures
        places_of(m.gradients(ids, t, caches, dlogits)) == places(m.layers, m.layers.len()),
{
    let none = Seq::<AdapterGradView>::empty();
    lemma_layer_gradient_places(
        m,
        caches,
        ids.len() as int,
        t,
        m.layers.len(),
        m.head_gradient(ids, caches, dlogits),
        none,
    );
    assert(places_of(none) + places(m.layers, m.layers.len()) =~= places(
        m.layers,
        m.layers.len(),
    ));
}

/// Whether two attentions read the same up to position `n`.
pub open spec fn agree(a: AttentionView, b: AttentionView, n: int) -> bool {
    &&& a.cfg == b.cfg
    &&& n <= a.seq
    &&& n <= b.seq
    &&& a.q.take(n * a.cfg.hidden) == b.q.take(n * a.cfg.hidden)
    &&& a.k.take(n * a.cfg.kv_size()) == b.k.take(n * a.cfg.kv_size())
    &&& a.v.take(n * a.cfg.kv_size()) == b.v.take(n * a.cfg.kv_size())
    &&& a.cos.take(n) == b.cos.take(n)
    &&& a.sin.take(n) == b.sin.take(n)
}

/// Attention is causal: what a position weighs and gives out depends on
/// nothing behind it.
pub proof fn lemma_causal(
    a: AttentionView,
    b: AttentionView,
    n: int,
    t: int,
    head: int,
    row: Seq<u32>,
    j: int,
)
    requires
        a.wf(),
        b.wf(),
        agree(a, b, n),
        0 <= t < n,
        0 <= head < a.cfg.heads,
        0 <= j < a.cfg.head_size(),
    ensures
        forall|i: int|
            0 <= i <= t ==> #[trigger] a.exponent(t, head, i) == b.exponent(t, head, i),
        a.mixed(row, a.cfg.kv_of(head), j, (t + 1) as nat) == b.mixed(
            row,
            a.cfg.kv_of(head),
            j,
            (t + 1) as nat,
        ),
{
    let kv = a.cfg.kv_of(head);
    attention::lemma_head_bounds(a.cfg, n, t, head);
    lemma_same_query(a, b, n, t, head);
    assert forall|i: int| 0 <= i <= t implies #[trigger] a.score(t, head, i) == b.score(
        t,
        head,
        i,
    ) by {
        lemma_same_rows(a, b, n, i, kv);
        reveal(AttentionView::score);
    }
    lemma_same_top(a, b, t, head, (t + 1) as nat);
    assert forall|i: int| 0 <= i <= t implies #[trigger] a.exponent(t, head, i) == b.exponent(
        t,
        head,
        i,
    ) by {
        reveal(AttentionView::exponent);
        assert(a.score(t, head, i) == b.score(t, head, i));
    }
    lemma_same_mix(a, b, n, row, kv, j, (t + 1) as nat);
}

proof fn lemma_same_query(a: AttentionView, b: AttentionView, n: int, t: int, head: int)
    requires
        a.wf(),
        b.wf(),
        agree(a, b, n),
        0 <= t < n,
        0 <= head < a.cfg.heads,
    ensures
        a.query(t, head) == b.query(t, head),
{
    let (h, dh) = (a.cfg.hidden as int, a.cfg.head_size());
    attention::lemma_head_bounds(a.cfg, n, t, head);
    attention::lemma_head_bounds(a.cfg, a.seq, t, head);
    attention::lemma_head_bounds(a.cfg, b.seq, t, head);
    let from = t * h + head * dh;
    assert(n * h <= a.seq * h && n * h <= b.seq * h) by (nonlinear_arith)
        requires
            n <= a.seq,
            n <= b.seq,
            h >= 0,
    ;
    assert(a.q.subrange(from, from + dh) =~= a.q.take(n * h).subrange(from, from + dh));
    assert(b.q.subrange(from, from + dh) =~= b.q.take(n * h).subrange(from, from + dh));
    assert(a.cos[t] == a.cos.take(n)[t]);
    assert(b.cos[t] == b.cos.take(n)[t]);
    assert(a.sin[t] == a.sin.take(n)[t]);
    assert(b.sin[t] == b.sin.take(n)[t]);
}

proof fn lemma_same_rows(a: AttentionView, b: AttentionView, n: int, i: int, kv: int)
    requires
        a.wf(),
        b.wf(),
        agree(a, b, n),
        0 <= i < n,
        0 <= kv < a.cfg.kv_heads,
    ensures
        a.key(i, kv) == b.key(i, kv),
        a.kv_part(a.v, i, kv) == b.kv_part(b.v, i, kv),
{
    let (w, dh) = (a.cfg.kv_size(), a.cfg.head_size());
    attention::lemma_kv_bounds(a.cfg, n, i, kv);
    let from = i * w + kv * dh;
    assert(w >= 0) by (nonlinear_arith)
        requires
            w == a.cfg.kv_heads as int * dh,
            dh > 0,
    ;
    assert(n * w <= a.seq * w && n * w <= b.seq * w) by (nonlinear_arith)
        requires
            n <= a.seq,
            n <= b.seq,
            w >= 0,
    ;
    assert(a.k.subrange(from, from + dh) =~= a.k.take(n * w).subrange(from, from + dh));
    assert(b.k.subrange(from, from + dh) =~= b.k.take(n * w).subrange(from, from + dh));
    assert(a.v.subrange(from, from + dh) =~= a.v.take(n * w).subrange(from, from + dh));
    assert(b.v.subrange(from, from + dh) =~= b.v.take(n * w).subrange(from, from + dh));
    assert(a.cos[i] == a.cos.take(n)[i]);
    assert(b.cos[i] == b.cos.take(n)[i]);
    assert(a.sin[i] == a.sin.take(n)[i]);
    assert(b.sin[i] == b.sin.take(n)[i]);
}

proof fn lemma_same_top(a: AttentionView, b: AttentionView, t: int, head: int, n: nat)
    requires
        n <= t + 1,
        forall|i: int| 0 <= i <= t ==> #[trigger] a.score(t, head, i) == b.score(t, head, i),
    ensures
        a.top(t, head, n) == b.top(t, head, n),
    decreases n,
{
    if n > 0 {
        lemma_same_top(a, b, t, head, (n - 1) as nat);
        assert(a.score(t, head, n - 1) == b.score(t, head, n - 1));
    }
}

proof fn lemma_same_mix(
    a: AttentionView,
    b: AttentionView,
    n: int,
    row: Seq<u32>,
    kv: int,
    j: int,
    m: nat,
)
    requires
        a.wf(),
        b.wf(),
        agree(a, b, n),
        m <= n,
        0 <= kv < a.cfg.kv_heads,
    ensures
        a.mixed(row, kv, j, m) == b.mixed(row, kv, j, m),
    decreases m,
{
    if m > 0 {
        lemma_same_mix(a, b, n, row, kv, j, (m - 1) as nat);
        lemma_same_rows(a, b, n, m - 1, kv);
    }
}

} // verus!
