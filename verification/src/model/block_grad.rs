//! The backward pass of a decoder block.
use crate::lora;
use crate::lora::add_all;
use crate::model::attention::Attention;
use crate::model::attention_grad::attention_backward;
use crate::model::block;
use crate::model::block::{
    proj_backward, silu, silu_prime, BlockCache, CacheView, Tables, TablesView,
};
use crate::model::config::{LlamaConfig, ProjKind};
use crate::model::norm;
use crate::model::norm::rmsnorm_backward;
use crate::model::weights::{LayerWeights, WeightsView};
use crate::single;
use vstd::prelude::*;

verus! {

/// Gradients of one adapter: `(layer, kind, dA (r,in), dB (out,r))`.
#[derive(Debug, Clone)]
pub struct AdapterGrad {
    pub layer: usize,
    pub kind: ProjKind,
    pub grad_a: Vec<u32>,
    pub grad_b: Vec<u32>,
}

/// The model of an [`AdapterGrad`].
#[verifier::ext_equal]
pub struct AdapterGradView {
    pub layer: usize,
    pub kind: ProjKind,
    pub grad_a: Seq<u32>,
    pub grad_b: Seq<u32>,
}

impl View for AdapterGrad {
    type V = AdapterGradView;

    open spec fn view(&self) -> AdapterGradView {
        AdapterGradView {
            layer: self.layer,
            kind: self.kind,
            grad_a: self.grad_a@,
            grad_b: self.grad_b@,
        }
    }
}

/// The models of adapter gradients.
pub open spec fn grad_views(grads: Seq<AdapterGrad>) -> Seq<AdapterGradView> {
    Seq::new(grads.len(), |i: int| grads[i]@)
}

/// The list with the gradients of an adapter, if there are any.
pub open spec fn noted(
    grads: Seq<AdapterGradView>,
    layer: usize,
    kind: ProjKind,
    ab: Option<(Seq<u32>, Seq<u32>)>,
) -> Seq<AdapterGradView> {
    match ab {
        Some((grad_a, grad_b)) => grads.push(AdapterGradView { layer, kind, grad_a, grad_b }),
        None => grads,
    }
}

/// `dL/dgate`: `dact * up * silu'(gate)`.
pub open spec fn gate_gradient(c: CacheView, d_act: Seq<u32>) -> Seq<u32> {
    Seq::new(
        d_act.len(),
        |i: int|
            single::product(
                single::product(d_act[i], c.up[i]),
                block::silu_slope(c.gate[i], c.gate_exps[i]),
            ),
    )
}

/// `dL/dup`: `dact * silu(gate)`.
pub open spec fn up_gradient(c: CacheView, d_act: Seq<u32>) -> Seq<u32> {
    Seq::new(
        d_act.len(),
        |i: int| single::product(d_act[i], block::silu_value(c.gate[i], c.gate_exps[i])),
    )
}

/// The MLP branch: `dL/dx_mid` and the adapter gradients, from `dL/dx_out`.
pub open spec fn mlp_gradients(
    c: CacheView,
    cfg: LlamaConfig,
    w: WeightsView,
    seq: int,
    layer: usize,
    dx_out: Seq<u32>,
    grads: Seq<AdapterGradView>,
) -> (Seq<u32>, Seq<AdapterGradView>) {
    let (h, inter) = (cfg.hidden as int, cfg.intermediate as int);
    let down = w.down.gradients(c.act, dx_out, seq, h);
    let gate = w.gate.gradients(c.xn_mlp, gate_gradient(c, down.1), seq, inter);
    let up = w.up.gradients(c.xn_mlp, up_gradient(c, down.1), seq, inter);
    let grads = noted(grads, layer, ProjKind::Down, down.0);
    let grads = noted(grads, layer, ProjKind::Gate, gate.0);
    let grads = noted(grads, layer, ProjKind::Up, up.0);
    let dxn = lora::added(gate.1, up.1);
    // Residual x_out = x_mid + mlp: norm path + straight path.
    let dx_mid = lora::added(
        norm::input_gradient(c.x_mid, w.mlp_norm, dxn, cfg.rms_eps),
        dx_out,
    );
    (dx_mid, grads)
}

/// The attention branch: `dL/dx_in` and the adapter gradients, from
/// `dL/dx_mid`.
pub open spec fn attention_gradients(
    c: CacheView,
    cfg: LlamaConfig,
    w: WeightsView,
    seq: int,
    t: TablesView,
    layer: usize,
    dx_mid: Seq<u32>,
    grads: Seq<AdapterGradView>,
) -> (Seq<u32>, Seq<AdapterGradView>) {
    let (h, kv) = (cfg.hidden as int, cfg.kv_size());
    let a = c.attention(cfg, seq, t);
    let n = c.exps.len();
    let o = w.o.gradients(c.attn_out, dx_mid, seq, h);
    let q = w.q.gradients(c.xn_attn, a.query_gradient(o.1, c.exps), seq, h);
    let k = w.k.gradients(c.xn_attn, a.key_gradient(o.1, c.exps, n), seq, kv);
    let v = w.v.gradients(c.xn_attn, a.value_gradient(o.1, c.exps, n), seq, kv);
    let grads = noted(grads, layer, ProjKind::O, o.0);
    let grads = noted(grads, layer, ProjKind::Q, q.0);
    let grads = noted(grads, layer, ProjKind::K, k.0);
    let grads = noted(grads, layer, ProjKind::V, v.0);
    let dxn = lora::added(lora::added(q.1, k.1), v.1);
    // Residual x_mid = x_in + attn: norm path + straight path.
    let dx_in = lora::added(
        dx_mid,
        norm::input_gradient(c.x_in, w.attn_norm, dxn, cfg.rms_eps),
    );
    (dx_in, grads)
}

/// `dL/dx_in` of a block and its adapter gradients, from `dL/dx_out`.
pub open spec fn block_gradients(
    c: CacheView,
    cfg: LlamaConfig,
    w: WeightsView,
    seq: int,
    t: TablesView,
    layer: usize,
    dx_out: Seq<u32>,
    grads: Seq<AdapterGradView>,
) -> (Seq<u32>, Seq<AdapterGradView>) {
    let mlp = mlp_gradients(c, cfg, w, seq, layer, dx_out, grads);
    attention_gradients(c, cfg, w, seq, t, layer, mlp.0, mlp.1)
}

/// Notes the gradients of an adapter, if there are any.
fn note(
    grads: &mut Vec<AdapterGrad>,
    layer: usize,
    kind: ProjKind,
    ab: Option<(Vec<u32>, Vec<u32>)>,
)
    ensures
        grad_views(final(grads)@) == noted(
            grad_views(old(grads)@),
            layer,
            kind,
            block::pair_view(ab),
        ),
{
    let ghost before = grad_views(grads@);
    if let Some((grad_a, grad_b)) = ab {
        let g = AdapterGrad { layer, kind, grad_a, grad_b };
        let ghost v = g@;
        grads.push(g);
        assert(grad_views(grads@) =~= before.push(v));
    }
}

/// `dL/dgate` and `dL/dup`.
fn gate_and_up(c: &BlockCache, d_act: &[u32]) -> (r: (Vec<u32>, Vec<u32>))
    requires
        d_act@.len() == c.up@.len() == c.gate@.len() == c.gate_exps@.len(),
    ensures
        r.0@ == gate_gradient(c@, d_act@),
        r.1@ == up_gradient(c@, d_act@),
{
    let ghost (want_g, want_u) = (gate_gradient(c@, d_act@), up_gradient(c@, d_act@));
    let mut dg: Vec<u32> = Vec::new();
    let mut du: Vec<u32> = Vec::new();
    let mut i: usize = 0;
    while i < d_act.len()
        invariant
            i <= d_act@.len(),
            d_act@.len() == c.up@.len() == c.gate@.len() == c.gate_exps@.len(),
            want_g == gate_gradient(c@, d_act@),
            want_u == up_gradient(c@, d_act@),
            dg@.len() == i,
            du@.len() == i,
            forall|j: int| 0 <= j < i ==> #[trigger] dg@[j] == want_g[j],
            forall|j: int| 0 <= j < i ==> #[trigger] du@[j] == want_u[j],
        decreases d_act@.len() - i,
    {
        dg.push(
            single::times(
                single::times(d_act[i], c.up[i]),
                silu_prime(c.gate[i], c.gate_exps[i]),
            ),
        );
        du.push(single::times(d_act[i], silu(c.gate[i], c.gate_exps[i])));
        i = i + 1;
    }
    assert(dg@ =~= want_g);
    assert(du@ =~= want_u);
    (dg, du)
}

/// What the recorded tensors of a block measure.
pub open spec fn sized(c: CacheView, cfg: LlamaConfig, seq: int, t: TablesView) -> bool {
    &&& c.x_in.len() == seq * cfg.hidden
    &&& c.xn_attn.len() == seq * cfg.hidden
    &&& c.q.len() == seq * cfg.hidden
    &&& c.k.len() == seq * cfg.kv_size()
    &&& c.v.len() == seq * cfg.kv_size()
    &&& c.attn_out.len() == seq * cfg.hidden
    &&& c.x_mid.len() == seq * cfg.hidden
    &&& c.xn_mlp.len() == seq * cfg.hidden
    &&& c.gate.len() == seq * cfg.intermediate
    &&& c.gate_exps.len() == seq * cfg.intermediate
    &&& c.up.len() == seq * cfg.intermediate
    &&& c.act.len() == seq * cfg.intermediate
    &&& c.attention(cfg, seq, t).has_rows(c.exps)
}

/// The MLP branch, in reverse.
fn mlp_backward(
    cfg: &LlamaConfig,
    w: &LayerWeights,
    c: &BlockCache,
    seq: usize,
    dx_out: &[u32],
    layer: usize,
    grads: &mut Vec<AdapterGrad>,
    Ghost(t): Ghost<TablesView>,
) -> (r: Vec<u32>)
    requires
        block::block_runs(*cfg, w@, seq as int),
        sized(c@, *cfg, seq as int, t),
        dx_out@.len() == seq * cfg.hidden,
    ensures
        (r@, grad_views(final(grads)@)) == mlp_gradients(
            c@,
            *cfg,
            w@,
            seq as int,
            layer,
            dx_out@,
            grad_views(old(grads)@),
        ),
        r@.len() == seq * cfg.hidden,
{
    let h: usize = cfg.hidden;
    let inter: usize = cfg.intermediate;
    proof {
        block::lemma_block_sizes(*cfg);
        block::lemma_kind_wf(w@, *cfg);
        block::lemma_kind_fits(w@, seq as int);
        block::lemma_in_size(w@.gate, inter as int, h as int);
        block::lemma_in_size(w@.up, inter as int, h as int);
        block::lemma_in_size(w@.down, h as int, inter as int);
        block::lemma_proj_sizes(w@.down, c@.act, dx_out@, seq as int, h as int, inter as int);
    }
    let (down_ab, d_act) = proj_backward(&w.down, c.act.as_slice(), dx_out, seq, h);
    note(grads, layer, ProjKind::Down, down_ab);
    let (dg, du) = gate_and_up(c, d_act.as_slice());
    proof {
        block::lemma_proj_sizes(w@.gate, c@.xn_mlp, dg@, seq as int, inter as int, h as int);
        block::lemma_proj_sizes(w@.up, c@.xn_mlp, du@, seq as int, inter as int, h as int);
    }
    let (gate_ab, dxn_g) = proj_backward(
        &w.gate,
        c.xn_mlp.as_slice(),
        dg.as_slice(),
        seq,
        inter,
    );
    note(grads, layer, ProjKind::Gate, gate_ab);
    let (up_ab, dxn_u) = proj_backward(&w.up, c.xn_mlp.as_slice(), du.as_slice(), seq, inter);
    note(grads, layer, ProjKind::Up, up_ab);
    let dxn = add_all(dxn_g.as_slice(), dxn_u.as_slice());
    let (dx_norm, _) = rmsnorm_backward(
        c.x_mid.as_slice(),
        w.mlp_norm.as_slice(),
        dxn.as_slice(),
        cfg.rms_eps,
    );
    add_all(dx_norm.as_slice(), dx_out)
}

/// The attention branch, in reverse.
fn attention_branch_backward(
    cfg: &LlamaConfig,
    w: &LayerWeights,
    c: &BlockCache,
    seq: usize,
    tables: &Tables,
    dx_mid: &[u32],
    layer: usize,
    grads: &mut Vec<AdapterGrad>,
) -> (r: Vec<u32>)
    requires
        block::block_runs(*cfg, w@, seq as int),
        block::tables_for(tables@, *cfg, seq as int),
        sized(c@, *cfg, seq as int, tables@),
        dx_mid@.len() == seq * cfg.hidden,
    ensures
        (r@, grad_views(final(grads)@)) == attention_gradients(
            c@,
            *cfg,
            w@,
            seq as int,
            tables@,
            layer,
            dx_mid@,
            grad_views(old(grads)@),
        ),
        r@.len() == seq * cfg.hidden,
{
    let h: usize = cfg.hidden;
    let kv_dim: usize = cfg.kv_dim();
    proof {
        block::lemma_block_sizes(*cfg);
        block::lemma_kind_wf(w@, *cfg);
        block::lemma_kind_fits(w@, seq as int);
        block::lemma_in_size(w@.q, h as int, h as int);
        block::lemma_in_size(w@.k, kv_dim as int, h as int);
        block::lemma_in_size(w@.v, kv_dim as int, h as int);
        block::lemma_in_size(w@.o, h as int, h as int);
        block::lemma_proj_sizes(w@.o, c@.attn_out, dx_mid@, seq as int, h as int, h as int);
    }
    let (o_ab, d_attn) = proj_backward(&w.o, c.attn_out.as_slice(), dx_mid, seq, h);
    note(grads, layer, ProjKind::O, o_ab);
    let a = Attention {
        cfg,
        seq,
        q: c.q.as_slice(),
        k: c.k.as_slice(),
        v: c.v.as_slice(),
        cos: tables.cos,
        sin: tables.sin,
    };
    assert(a@ == c@.attention(*cfg, seq as int, tables@));
    let (dq, dk, dv) = attention_backward(&a, c.exps.as_slice(), d_attn.as_slice());
    proof {
        block::lemma_proj_sizes(w@.q, c@.xn_attn, dq@, seq as int, h as int, h as int);
        block::lemma_proj_sizes(w@.k, c@.xn_attn, dk@, seq as int, kv_dim as int, h as int);
        block::lemma_proj_sizes(w@.v, c@.xn_attn, dv@, seq as int, kv_dim as int, h as int);
    }
    let (q_ab, dxn_q) = proj_backward(&w.q, c.xn_attn.as_slice(), dq.as_slice(), seq, h);
    note(grads, layer, ProjKind::Q, q_ab);
    let (k_ab, dxn_k) = proj_backward(&w.k, c.xn_attn.as_slice(), dk.as_slice(), seq, kv_dim);
    note(grads, layer, ProjKind::K, k_ab);
    let (v_ab, dxn_v) = proj_backward(&w.v, c.xn_attn.as_slice(), dv.as_slice(), seq, kv_dim);
    note(grads, layer, ProjKind::V, v_ab);
    // The gradients through k and v are (seq, hidden) too: both map hidden to
    // kv_dim, and the gradient flows back to hidden.
    let both = add_all(dxn_q.as_slice(), dxn_k.as_slice());
    let dxn = add_all(both.as_slice(), dxn_v.as_slice());
    let (dx_norm, _) = rmsnorm_backward(
        c.x_in.as_slice(),
        w.attn_norm.as_slice(),
        dxn.as_slice(),
        cfg.rms_eps,
    );
    add_all(dx_mid, dx_norm.as_slice())
}

/// One decoder block backward: `dx_out` (dL/d(block output)) in, `dx_in`
/// (dL/d(block input)) out; adapter grads appended to `grads`.
pub fn block_backward(
    cfg: &LlamaConfig,
    w: &LayerWeights,
    c: &BlockCache,
    seq: usize,
    tables: &Tables,
    dx_out: &[u32],
    layer: usize,
    grads: &mut Vec<AdapterGrad>,
) -> (r: Vec<u32>)
    requires
        block::block_runs(*cfg, w@, seq as int),
        block::tables_for(tables@, *cfg, seq as int),
        sized(c@, *cfg, seq as int, tables@),
        dx_out@.len() == seq * cfg.hidden,
    ensures
        (r@, grad_views(final(grads)@)) == block_gradients(
            c@,
            *cfg,
            w@,
            seq as int,
            tables@,
            layer,
            dx_out@,
            grad_views(old(grads)@),
        ),
        r@.len() == seq * cfg.hidden,
{
    let dx_mid = mlp_backward(cfg, w, c, seq, dx_out, layer, grads, Ghost(tables@));
    attention_branch_backward(cfg, w, c, seq, tables, dx_mid.as_slice(), layer, grads)
}

} // verus!
