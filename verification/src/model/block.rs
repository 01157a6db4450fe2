//! One decoder block, forward and backward.
use crate::ieee;
use crate::lora;
use crate::lora::{add_all, copied, matmul, matmul_trans_b};
use crate::model::attention;
use crate::model::attention::{attention, Attention, AttentionView};
use crate::model::config::{LlamaConfig, ProjKind};
use crate::model::norm;
use crate::model::norm::rmsnorm_in_place;
use crate::model::weights::{LayerWeights, Proj, ProjView, WeightsView};
use crate::qlora::QloraGrads;
use crate::single;
use vstd::prelude::*;

verus! {

impl ProjView {
    /// Elements of an input row.
    pub open spec fn in_size(self, out_dim: int) -> int {
        match self {
            ProjView::Raw(w) => w.len() as int / out_dim,
            ProjView::Qlora(l) => l.weight.cols as int,
        }
    }

    /// The outputs for `batch` input rows.
    pub open spec fn output(self, x: Seq<u32>, batch: int, out_dim: int) -> Seq<u32> {
        match self {
            ProjView::Raw(w) => lora::product_of_right(
                x,
                w,
                batch,
                self.in_size(out_dim),
                out_dim,
            ),
            ProjView::Qlora(l) => l.output(x, batch as nat),
        }
    }

    /// The gradients for `batch` input rows and upstream gradients: those of the
    /// adapter matrices, if there is an adapter, and that of the input.
    pub open spec fn gradients(self, x: Seq<u32>, dy: Seq<u32>, batch: int, out_dim: int) -> (
        Option<(Seq<u32>, Seq<u32>)>,
        Seq<u32>,
    ) {
        match self {
            ProjView::Raw(w) => (
                None,
                lora::product_of(dy, w, batch, out_dim, self.in_size(out_dim)),
            ),
            ProjView::Qlora(l) => {
                let g = l.gradients(x, dy, batch as nat);
                (
                    match (g.grad_a, g.grad_b) {
                        (Some(a), Some(b)) => Some((a, b)),
                        _ => None,
                    },
                    g.grad_x,
                )
            },
        }
    }

    /// Whether the rows in between, of `batch` inputs, can be held.
    pub open spec fn fits(self, batch: int) -> bool {
        match self {
            ProjView::Raw(w) => true,
            ProjView::Qlora(l) => l.adapter matches Some(ad) ==> batch * ad.r <= usize::MAX,
        }
    }
}

/// The input size of a well-formed projection.
pub proof fn lemma_in_size(p: ProjView, rows: int, cols: int)
    requires
        p.wf(rows, cols),
        rows > 0,
        cols >= 0,
    ensures
        p.in_size(rows) == cols,
{
    if let ProjView::Raw(w) = p {
        assert(rows * cols == rows * cols + 0);
        ieee::lemma_div_unique((rows * cols) as nat, rows as nat, cols as nat, 0);
    }
}

/// The sizes of what a projection gives.
pub proof fn lemma_proj_sizes(
    p: ProjView,
    x: Seq<u32>,
    dy: Seq<u32>,
    batch: int,
    rows: int,
    cols: int,
)
    requires
        p.wf(rows, cols),
        rows > 0,
        cols >= 0,
        batch >= 0,
    ensures
        p.output(x, batch, rows).len() == batch * rows,
        p.gradients(x, dy, batch, rows).1.len() == batch * cols,
{
    lemma_in_size(p, rows, cols);
    assert(batch * rows >= 0 && batch * cols >= 0) by (nonlinear_arith)
        requires
            batch >= 0,
            rows > 0,
            cols >= 0,
    ;
}

/// The outputs of a projection for `batch` input rows.
pub fn proj_forward(p: &Proj, x: &[u32], batch: usize, out_dim: usize) -> (r: Vec<u32>)
    requires
        out_dim > 0,
        p@.wf(out_dim as int, p@.in_size(out_dim as int)),
        p@.fits(batch as int),
        x@.len() == batch * p@.in_size(out_dim as int),
        batch * out_dim <= usize::MAX,
    ensures
        r@ == p@.output(x@, batch as int, out_dim as int),
{
    let n: usize = x.len();
    match p {
        Proj::Raw(w) => {
            let in_dim: usize = w.len() / out_dim;
            proof {
                let (a, b) = (out_dim as int, in_dim as int);
                assert(a * b == b * a) by (nonlinear_arith);
            }
            matmul_trans_b(x, w.as_slice(), batch, in_dim, out_dim)
        },
        Proj::Qlora(l) => match l.forward(x, batch) {
            Ok(y) => y,
            Err(_) => Vec::new(),
        },
    }
}

/// Returns `(adapter grads (dA, dB) if QLoRA, dX)`.
pub fn proj_backward(p: &Proj, x: &[u32], dy: &[u32], batch: usize, out_dim: usize) -> (r: (
    Option<(Vec<u32>, Vec<u32>)>,
    Vec<u32>,
))
    requires
        out_dim > 0,
        p@.wf(out_dim as int, p@.in_size(out_dim as int)),
        p@.fits(batch as int),
        x@.len() == batch * p@.in_size(out_dim as int),
        dy@.len() == batch * out_dim,
    ensures
        pair_view(r.0) == p@.gradients(x@, dy@, batch as int, out_dim as int).0,
        r.1@ == p@.gradients(x@, dy@, batch as int, out_dim as int).1,
{
    let (n, m): (usize, usize) = (x.len(), dy.len());
    match p {
        Proj::Raw(w) => {
            let in_dim: usize = w.len() / out_dim;
            (None, matmul(dy, w.as_slice(), batch, out_dim, in_dim))
        },
        Proj::Qlora(l) => match l.backward(x, dy, batch) {
            Ok(g) => {
                let QloraGrads { grad_a, grad_b, grad_x } = g;
                let ab = match (grad_a, grad_b) {
                    (Some(a), Some(b)) => Some((a, b)),
                    _ => None,
                };
                (ab, grad_x)
            },
            Err(_) => (None, Vec::new()),
        },
    }
}

pub open spec fn pair_view(ab: Option<(Vec<u32>, Vec<u32>)>) -> Option<(Seq<u32>, Seq<u32>)> {
    match ab {
        Some(p) => Some((p.0@, p.1@)),
        None => None,
    }
}

/// `x / (1 + e)` where `e` is the exponential of `-x`.
#[verifier::opaque]
pub open spec fn silu_value(x: u32, e: u32) -> u32 {
    single::quotient(x, single::sum(single::ONE, e))
}

/// `1 / (1 + e)` where `e` is the exponential of `-x`.
pub open spec fn sigmoid_value(e: u32) -> u32 {
    single::quotient(single::ONE, single::sum(single::ONE, e))
}

/// The slope of [`silu`]: `s * (1 + x * (1 - s))` with the sigmoid `s`.
#[verifier::opaque]
pub open spec fn silu_slope(x: u32, e: u32) -> u32 {
    let s = sigmoid_value(e);
    single::product(
        s,
        single::sum(
            single::ONE,
            single::product(x, single::difference(single::ONE, s)),
        ),
    )
}

/// `x / (1 + e)` where `e` is the exponential of `-x`.
pub fn silu(x: u32, e: u32) -> (r: u32)
    ensures
        r == silu_value(x, e),
{
    proof {
        reveal(silu_value);
    }
    single::over(x, single::plus(single::ONE, e))
}

/// `1 / (1 + e)` where `e` is the exponential of `-x`.
pub fn sigmoid(e: u32) -> (r: u32)
    ensures
        r == sigmoid_value(e),
{
    single::over(single::ONE, single::plus(single::ONE, e))
}

/// The slope of [`silu`] where `e` is the exponential of `-x`.
pub fn silu_prime(x: u32, e: u32) -> (r: u32)
    ensures
        r == silu_slope(x, e),
{
    proof {
        reveal(silu_slope);
    }
    let s: u32 = sigmoid(e);
    single::times(
        s,
        single::plus(single::ONE, single::times(x, single::minus(single::ONE, s))),
    )
}

/// Recorded per-block tensors for the backward pass.
#[derive(Debug, Clone)]
pub struct BlockCache {
    pub x_in: Vec<u32>,
    pub xn_attn: Vec<u32>,
    pub q: Vec<u32>,
    pub k: Vec<u32>,
    pub v: Vec<u32>,
    /// Exponentials of the attention scores: a row per position and head.
    pub exps: Vec<Vec<u32>>,
    pub attn_out: Vec<u32>,
    pub x_mid: Vec<u32>,
    pub xn_mlp: Vec<u32>,
    pub gate: Vec<u32>,
    /// Exponentials of the negated gates.
    pub gate_exps: Vec<u32>,
    pub up: Vec<u32>,
    pub act: Vec<u32>,
}

/// The model of a [`BlockCache`].
#[verifier::ext_equal]
pub struct CacheView {
    pub x_in: Seq<u32>,
    pub xn_attn: Seq<u32>,
    pub q: Seq<u32>,
    pub k: Seq<u32>,
    pub v: Seq<u32>,
    pub exps: Seq<Seq<u32>>,
    pub attn_out: Seq<u32>,
    pub x_mid: Seq<u32>,
    pub xn_mlp: Seq<u32>,
    pub gate: Seq<u32>,
    pub gate_exps: Seq<u32>,
    pub up: Seq<u32>,
    pub act: Seq<u32>,
}

impl View for BlockCache {
    type V = CacheView;

    open spec fn view(&self) -> CacheView {
        CacheView {
            x_in: self.x_in@,
            xn_attn: self.xn_attn@,
            q: self.q@,
            k: self.k@,
            v: self.v@,
            exps: lora::lists(self.exps@),
            attn_out: self.attn_out@,
            x_mid: self.x_mid@,
            xn_mlp: self.xn_mlp@,
            gate: self.gate@,
            gate_exps: self.gate_exps@,
            up: self.up@,
            act: self.act@,
        }
    }
}

/// Rotation tables.
#[verifier::ext_equal]
pub struct TablesView {
    pub cos: Seq<Seq<u32>>,
    pub sin: Seq<Seq<u32>>,
}

/// Rotation tables: a vector of cosines and one of sines per position.
#[derive(Clone, Copy)]
pub struct Tables<'a> {
    pub cos: &'a [Vec<u32>],
    pub sin: &'a [Vec<u32>],
}

impl<'a> View for Tables<'a> {
    type V = TablesView;

    open spec fn view(&self) -> TablesView {
        TablesView { cos: lora::lists(self.cos@), sin: lora::lists(self.sin@) }
    }
}

/// `silu(gate) * up`, element by element.
pub open spec fn activation(gate: Seq<u32>, gate_exps: Seq<u32>, up: Seq<u32>) -> Seq<u32> {
    Seq::new(
        gate.len(),
        |i: int| single::product(silu_value(gate[i], gate_exps[i]), up[i]),
    )
}

/// Whether a block over `seq` positions can be computed with such settings
/// and weights on this machine.
pub open spec fn block_runs(cfg: LlamaConfig, w: WeightsView, seq: int) -> bool {
    &&& cfg.grouped()
    &&& cfg.intermediate > 0
    &&& seq >= 0
    &&& seq * cfg.hidden <= usize::MAX
    &&& seq * cfg.kv_size() <= usize::MAX
    &&& seq * cfg.intermediate <= usize::MAX
    &&& w.wf(cfg)
    &&& forall|kind: ProjKind| #[trigger] w.proj(kind).fits(seq)
}

/// Whether there are rotations for `seq` positions.
pub open spec fn tables_for(t: TablesView, cfg: LlamaConfig, seq: int) -> bool {
    &&& attention::is_table(t.cos, seq, cfg.head_size() / 2)
    &&& attention::is_table(t.sin, seq, cfg.head_size() / 2)
}

impl CacheView {
    /// The attention of the block.
    pub open spec fn attention(self, cfg: LlamaConfig, seq: int, t: TablesView) -> AttentionView {
        AttentionView { cfg, seq, q: self.q, k: self.k, v: self.v, cos: t.cos, sin: t.sin }
    }

    /// Whether this is what a block computes on the way from `x_in`, with
    /// exponentials as `exp` gives them.
    pub open spec fn recorded<E: Fn(u32) -> u32>(
        self,
        cfg: LlamaConfig,
        w: WeightsView,
        seq: int,
        t: TablesView,
        exp: E,
    ) -> bool {
        let h = cfg.hidden as int;
        let inter = cfg.intermediate as int;
        let a = self.attention(cfg, seq, t);
        &&& self.xn_attn == norm::normalized(self.x_in, w.attn_norm, cfg.rms_eps)
        &&& self.q == w.q.output(self.xn_attn, seq, h)
        &&& self.k == w.k.output(self.xn_attn, seq, cfg.kv_size())
        &&& self.v == w.v.output(self.xn_attn, seq, cfg.kv_size())
        &&& a.has_rows(self.exps)
        &&& a.answered(exp, self.exps)
        &&& self.attn_out == a.output(self.exps)
        &&& self.x_mid == lora::added(self.x_in, w.o.output(self.attn_out, seq, h))
        &&& self.xn_mlp == norm::normalized(self.x_mid, w.mlp_norm, cfg.rms_eps)
        &&& self.gate == w.gate.output(self.xn_mlp, seq, inter)
        &&& self.up == w.up.output(self.xn_mlp, seq, inter)
        &&& self.gate_exps.len() == self.gate.len()
        &&& forall|i: int|
            0 <= i < self.gate.len() ==> call_ensures(
                exp,
                (single::negation(self.gate[i]),),
                #[trigger] self.gate_exps[i],
            )
        &&& self.act == activation(self.gate, self.gate_exps, self.up)
    }

    /// The block's output.
    pub open spec fn output(self, cfg: LlamaConfig, w: WeightsView, seq: int) -> Seq<u32> {
        lora::added(self.x_mid, w.down.output(self.act, seq, cfg.hidden as int))
    }
}

/// The sizes of the recorded tensors.
pub proof fn lemma_recorded_sizes<E: Fn(u32) -> u32>(
    c: CacheView,
    cfg: LlamaConfig,
    w: WeightsView,
    seq: int,
    t: TablesView,
    exp: E,
)
    requires
        block_runs(cfg, w, seq),
        c.recorded(cfg, w, seq, t, exp),
        c.x_in.len() == seq * cfg.hidden,
    ensures
        c.xn_attn.len() == seq * cfg.hidden,
        c.q.len() == seq * cfg.hidden,
        c.k.len() == seq * cfg.kv_size(),
        c.v.len() == seq * cfg.kv_size(),
        c.attn_out.len() == seq * cfg.hidden,
        c.x_mid.len() == seq * cfg.hidden,
        c.xn_mlp.len() == seq * cfg.hidden,
        c.gate.len() == seq * cfg.intermediate,
        c.up.len() == seq * cfg.intermediate,
        c.act.len() == seq * cfg.intermediate,
        c.output(cfg, w, seq).len() == seq * cfg.hidden,
{
    let h = cfg.hidden as int;
    let inter = cfg.intermediate as int;
    lemma_block_sizes(cfg);
    lemma_kind_wf(w, cfg);
    lemma_proj_sizes(w.q, c.xn_attn, seq![], seq, h, h);
    lemma_proj_sizes(w.k, c.xn_attn, seq![], seq, cfg.kv_size(), h);
    lemma_proj_sizes(w.v, c.xn_attn, seq![], seq, cfg.kv_size(), h);
    lemma_proj_sizes(w.gate, c.xn_mlp, seq![], seq, inter, h);
    lemma_proj_sizes(w.up, c.xn_mlp, seq![], seq, inter, h);
    assert(seq * h >= 0) by (nonlinear_arith)
        requires
            seq >= 0,
            h >= 0,
    ;
}

/// The sizes of a block are positive.
pub proof fn lemma_block_sizes(cfg: LlamaConfig)
    requires
        cfg.grouped(),
    ensures
        cfg.hidden > 0,
        cfg.kv_size() > 0,
{
    attention::lemma_head_bounds(cfg, 1, 0, 0);
    let (k, d) = (cfg.kv_heads as int, cfg.head_size());
    assert(k * d > 0) by (nonlinear_arith)
        requires
            k > 0,
            d > 0,
    ;
    assert(cfg.heads * d > 0) by (nonlinear_arith)
        requires
            cfg.heads > 0,
            d > 0,
    ;
}

/// Each projection of a well-formed layer is well formed.
pub proof fn lemma_kind_wf(w: WeightsView, cfg: LlamaConfig)
    requires
        w.wf(cfg),
    ensures
        w.q.wf(cfg.hidden as int, cfg.hidden as int),
        w.k.wf(cfg.kv_size(), cfg.hidden as int),
        w.v.wf(cfg.kv_size(), cfg.hidden as int),
        w.o.wf(cfg.hidden as int, cfg.hidden as int),
        w.gate.wf(cfg.intermediate as int, cfg.hidden as int),
        w.up.wf(cfg.intermediate as int, cfg.hidden as int),
        w.down.wf(cfg.hidden as int, cfg.intermediate as int),
{
    assert(w.proj(ProjKind::Q).wf(ProjKind::Q.sizes(cfg).0, ProjKind::Q.sizes(cfg).1));
    assert(w.proj(ProjKind::K).wf(ProjKind::K.sizes(cfg).0, ProjKind::K.sizes(cfg).1));
    assert(w.proj(ProjKind::V).wf(ProjKind::V.sizes(cfg).0, ProjKind::V.sizes(cfg).1));
    assert(w.proj(ProjKind::O).wf(ProjKind::O.sizes(cfg).0, ProjKind::O.sizes(cfg).1));
    assert(w.proj(ProjKind::Gate).wf(ProjKind::Gate.sizes(cfg).0, ProjKind::Gate.sizes(cfg).1));
    assert(w.proj(ProjKind::Up).wf(ProjKind::Up.sizes(cfg).0, ProjKind::Up.sizes(cfg).1));
    assert(w.proj(ProjKind::Down).wf(ProjKind::Down.sizes(cfg).0, ProjKind::Down.sizes(cfg).1));
}

/// The rows between of each projection can be held.
pub proof fn lemma_kind_fits(w: WeightsView, seq: int)
    requires
        forall|kind: ProjKind| #[trigger] w.proj(kind).fits(seq),
    ensures
        w.q.fits(seq),
        w.k.fits(seq),
        w.v.fits(seq),
        w.o.fits(seq),
        w.gate.fits(seq),
        w.up.fits(seq),
        w.down.fits(seq),
{
    assert(w.proj(ProjKind::Q).fits(seq));
    assert(w.proj(ProjKind::K).fits(seq));
    assert(w.proj(ProjKind::V).fits(seq));
    assert(w.proj(ProjKind::O).fits(seq));
    assert(w.proj(ProjKind::Gate).fits(seq));
    assert(w.proj(ProjKind::Up).fits(seq));
    assert(w.proj(ProjKind::Down).fits(seq));
}

/// The exponentials of the negated gates.
fn gate_exponentials<E: Fn(u32) -> u32>(gate: &[u32], exp: &E) -> (r: Vec<u32>)
    requires
        forall|x: u32| #[trigger] exp.requires((x,)),
    ensures
        r@.len() == gate@.len(),
        forall|i: int|
            0 <= i < gate@.len() ==> call_ensures(
                *exp,
                (single::negation(gate@[i]),),
                #[trigger] r@[i],
            ),
{
    let mut out: Vec<u32> = Vec::new();
    let mut i: usize = 0;
    while i < gate.len()
        invariant
            i <= gate@.len(),
            forall|x: u32| #[trigger] exp.requires((x,)),
            out@.len() == i,
            forall|j: int|
                0 <= j < i ==> call_ensures(
                    *exp,
                    (single::negation(gate@[j]),),
                    #[trigger] out@[j],
                ),
        decreases gate@.len() - i,
    {
        let e: u32 = exp(single::negate(gate[i]));
        out.push(e);
        i = i + 1;
    }
    out
}

/// `silu(gate) * up`, element by element.
fn activate(gate: &[u32], gate_exps: &[u32], up: &[u32]) -> (r: Vec<u32>)
    requires
        gate@.len() == gate_exps@.len() == up@.len(),
    ensures
        r@ == activation(gate@, gate_exps@, up@),
{
    let mut out: Vec<u32> = Vec::new();
    let mut i: usize = 0;
    let ghost want = activation(gate@, gate_exps@, up@);
    while i < gate.len()
        invariant
            i <= gate@.len() == gate_exps@.len() == up@.len(),
            want == activation(gate@, gate_exps@, up@),
            out@.len() == i,
            forall|j: int| 0 <= j < i ==> #[trigger] out@[j] == want[j],
        decreases gate@.len() - i,
    {
        out.push(single::times(silu(gate[i], gate_exps[i]), up[i]));
        i = i + 1;
    }
    assert(out@ =~= want);
    out
}

/// One decoder block in place on `x: (seq, hidden)`, returning what the
/// backward pass needs.
///
/// `exp` works on binary32 bit patterns.
pub fn block_forward<E: Fn(u32) -> u32>(
    cfg: &LlamaConfig,
    w: &LayerWeights,
    x: &mut Vec<u32>,
    seq: usize,
    tables: &Tables,
    exp: &E,
) -> (r: BlockCache)
    requires
        block_runs(*cfg, w@, seq as int),
        tables_for(tables@, *cfg, seq as int),
        old(x)@.len() == seq * cfg.hidden,
        forall|x: u32| #[trigger] exp.requires((x,)),
    ensures
        r@.x_in == old(x)@,
        r@.recorded(*cfg, w@, seq as int, tables@, *exp),
        final(x)@ == r@.output(*cfg, w@, seq as int),
        final(x)@.len() == seq * cfg.hidden,
{
    let h: usize = cfg.hidden;
    let kv_dim: usize = cfg.kv_dim();
    let inter: usize = cfg.intermediate;
    proof {
        lemma_block_sizes(*cfg);
        lemma_kind_wf(w@, *cfg);
        lemma_kind_fits(w@, seq as int);
        lemma_in_size(w@.q, h as int, h as int);
        lemma_in_size(w@.k, kv_dim as int, h as int);
        lemma_in_size(w@.v, kv_dim as int, h as int);
        lemma_in_size(w@.o, h as int, h as int);
        lemma_in_size(w@.gate, inter as int, h as int);
        lemma_in_size(w@.up, inter as int, h as int);
        lemma_in_size(w@.down, h as int, inter as int);
    }
    let x_in = copied(x.as_slice());
    // --- attention ---
    let mut xn_attn = copied(x.as_slice());
    rmsnorm_in_place(&mut xn_attn, w.attn_norm.as_slice(), cfg.rms_eps);
    let q = proj_forward(&w.q, xn_attn.as_slice(), seq, h);
    let k = proj_forward(&w.k, xn_attn.as_slice(), seq, kv_dim);
    let v = proj_forward(&w.v, xn_attn.as_slice(), seq, kv_dim);
    proof {
        lemma_proj_sizes(w@.q, xn_attn@, seq![], seq as int, h as int, h as int);
        lemma_proj_sizes(w@.k, xn_attn@, seq![], seq as int, kv_dim as int, h as int);
        lemma_proj_sizes(w@.v, xn_attn@, seq![], seq as int, kv_dim as int, h as int);
    }
    let a = Attention {
        cfg,
        seq,
        q: q.as_slice(),
        k: k.as_slice(),
        v: v.as_slice(),
        cos: tables.cos,
        sin: tables.sin,
    };
    let (attn_out, exps) = attention(&a, exp);
    let proj = proj_forward(&w.o, attn_out.as_slice(), seq, h);
    let x_mid = add_all(x_in.as_slice(), proj.as_slice());
    // --- MLP ---
    let mut xn_mlp = copied(x_mid.as_slice());
    rmsnorm_in_place(&mut xn_mlp, w.mlp_norm.as_slice(), cfg.rms_eps);
    let gate = proj_forward(&w.gate, xn_mlp.as_slice(), seq, inter);
    let up = proj_forward(&w.up, xn_mlp.as_slice(), seq, inter);
    proof {
        lemma_proj_sizes(w@.gate, xn_mlp@, seq![], seq as int, inter as int, h as int);
        lemma_proj_sizes(w@.up, xn_mlp@, seq![], seq as int, inter as int, h as int);
    }
    let gate_exps = gate_exponentials(gate.as_slice(), exp);
    let act = activate(gate.as_slice(), gate_exps.as_slice(), up.as_slice());
    let down = proj_forward(&w.down, act.as_slice(), seq, h);
    *x = add_all(x_mid.as_slice(), down.as_slice());
    BlockCache {
        x_in,
        xn_attn,
        q,
        k,
        v,
        exps,
        attn_out,
        x_mid,
        xn_mlp,
        gate,
        gate_exps,
        up,
        act,
    }
}

} // verus!
