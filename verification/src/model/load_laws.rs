//! Which tensors a model is loaded from.
use crate::io::npy;
use crate::io::npz;
use crate::io::npz::NamedArrayView;
use crate::model::config::{AdapterConfigView, LlamaConfig, ProjKind};
use crate::model::init;
use crate::model::llama;
use crate::model::weights;
use crate::model::weights::{ProjView, WeightsView};
use crate::quant;
use crate::single;
use crate::text;
use vstd::prelude::*;

verus! {

/// Whether the first tensor called `name` stands at `i`.
pub open spec fn first_named(ts: Seq<NamedArrayView>, name: Seq<char>, i: int) -> bool {
    &&& 0 <= i < ts.len()
    &&& ts[i].name == name
    &&& forall|j: int| 0 <= j < i ==> (#[trigger] ts[j]).name != name
}

/// Whether the first tensor called `name` has this shape and these data.
pub open spec fn holds(
    ts: Seq<NamedArrayView>,
    name: Seq<char>,
    shape: Seq<usize>,
    data: Seq<u32>,
) -> bool {
    exists|i: int|
        #[trigger] first_named(ts, name, i) && ts[i].shape == shape && ts[i].data == data
}

/// Whether there is a tensor of this name and shape.
pub open spec fn has(ts: Seq<NamedArrayView>, name: Seq<char>, shape: Seq<usize>) -> bool {
    exists|i: int| #[trigger] first_named(ts, name, i) && ts[i].shape == shape
}

/// Whether a projection is the tensor called `name` as it is, or, where its
/// kind is targeted, that tensor quantized, with an adapter of the configured
/// rank and scale whose `B` is zero.
pub open spec fn projects(
    ts: Seq<NamedArrayView>,
    name: Seq<char>,
    rows: int,
    cols: int,
    ad: AdapterConfigView,
    kind: ProjKind,
    p: ProjView,
) -> bool {
    let shape = seq![rows as usize, cols as usize];
    if ad.targets.contains(kind) {
        &&& p matches ProjView::Qlora(l)
        &&& exists|w: Seq<u32>| #[trigger]
            holds(ts, name, shape, w) && w.len() == rows * cols && l.weight == quant::quantized(
                w,
                rows as nat,
                cols as nat,
                ad.quant,
            )
        &&& l.adapter matches Some(x)
        &&& x.in_dim == cols
        &&& x.out_dim == rows
        &&& x.r == ad.rank
        &&& x.alpha == ad.alpha
        &&& x.a.len() == ad.rank * cols
        &&& exists|s: u64|
            x.a == #[trigger] weights::initial_values(s, (ad.rank * cols) as nat)
        &&& x.b.len() == rows * ad.rank
        &&& forall|i: int| 0 <= i < x.b.len() ==> #[trigger] x.b[i] == 0
    } else {
        p matches ProjView::Raw(w) && holds(ts, name, shape, w)
    }
}

/// Whether the weights of layer `l` come from its tensors.
pub open spec fn layer_from(
    ts: Seq<NamedArrayView>,
    cfg: LlamaConfig,
    ad: AdapterConfigView,
    l: nat,
    w: WeightsView,
) -> bool {
    let p = "model.layers."@ + text::decimal(l);
    let (h, kv, inter) = (cfg.hidden as int, cfg.kv_size(), cfg.intermediate as int);
    &&& holds(ts, p + ".input_layernorm.weight"@, seq![cfg.hidden], w.attn_norm)
    &&& holds(ts, p + ".post_attention_layernorm.weight"@, seq![cfg.hidden], w.mlp_norm)
    &&& projects(ts, p + ".self_attn.q_proj.weight"@, h, h, ad, ProjKind::Q, w.q)
    &&& projects(ts, p + ".self_attn.k_proj.weight"@, kv, h, ad, ProjKind::K, w.k)
    &&& projects(ts, p + ".self_attn.v_proj.weight"@, kv, h, ad, ProjKind::V, w.v)
    &&& projects(ts, p + ".self_attn.o_proj.weight"@, h, h, ad, ProjKind::O, w.o)
    &&& projects(ts, p + ".mlp.gate_proj.weight"@, inter, h, ad, ProjKind::Gate, w.gate)
    &&& projects(ts, p + ".mlp.up_proj.weight"@, inter, h, ad, ProjKind::Up, w.up)
    &&& projects(ts, p + ".mlp.down_proj.weight"@, h, inter, ad, ProjKind::Down, w.down)
}

proof fn lemma_named(ts: Seq<NamedArrayView>, name: Seq<char>)
    ensures
        match npz::index_of_name(ts, name) {
            Some(i) => first_named(ts, name, i),
            None => forall|j: int| 0 <= j < ts.len() ==> (#[trigger] ts[j]).name != name,
        },
    decreases ts.len(),
{
    if ts.len() > 0 {
        let front = ts.drop_last();
        lemma_named(front, name);
        match npz::index_of_name(front, name) {
            Some(i) => {
                assert(front[i] == ts[i]);
                assert forall|j: int| 0 <= j < i implies (#[trigger] ts[j]).name != name by {
                    assert(front[j] == ts[j]);
                }
            },
            None => {
                assert forall|j: int| 0 <= j < front.len() implies (#[trigger] ts[j]).name
                    != name by {
                    assert(front[j] == ts[j]);
                }
            },
        }
    }
}

/// Looking up a tensor succeeds exactly where there is one of that name and
/// shape, and gives its data.
pub proof fn lemma_fetched(ts: Seq<NamedArrayView>, name: Seq<char>, shape: Seq<usize>)
    ensures
        weights::fetched(ts, name, shape) is Ok <==> has(ts, name, shape),
        weights::fetched(ts, name, shape) matches Ok(d) ==> holds(ts, name, shape, d),
        forall|d: Seq<u32>|
            #[trigger] holds(ts, name, shape, d) ==> weights::fetched(ts, name, shape) == Ok::<
                Seq<u32>,
                Seq<char>,
            >(d),
{
    lemma_named(ts, name);
    assert forall|i: int, j: int|
        #![trigger first_named(ts, name, i), first_named(ts, name, j)]
        first_named(ts, name, i) && first_named(ts, name, j) implies i == j by {
        if i < j {
            assert(ts[i].name != name);
        } else if j < i {
            assert(ts[j].name != name);
        }
    }
    match npz::index_of_name(ts, name) {
        Some(i) => {
            assert(first_named(ts, name, i));
        },
        None => {},
    }
}

proof fn lemma_proj(
    ts: Seq<NamedArrayView>,
    cfg: LlamaConfig,
    ad: AdapterConfigView,
    l: nat,
    kind: ProjKind,
    rng: u64,
)
    requires
        cfg.heads > 0,
        weights::loaded_proj(ts, cfg, ad, l, kind, rng) is Ok,
    ensures
        projects(
            ts,
            "model.layers."@ + text::decimal(l) + kind.suffix(),
            kind.sizes(cfg).0,
            kind.sizes(cfg).1,
            ad,
            kind,
            weights::loaded_proj(ts, cfg, ad, l, kind, rng)->Ok_0.0,
        ),
{
    let (rows, cols) = kind.sizes(cfg);
    let name = weights::layer_name(l) + kind.suffix();
    lemma_fetched(ts, name, seq![rows as usize, cols as usize]);
    if ad.targets.contains(kind) {
        let k = cfg.kv_heads as int;
        let d = cfg.head_size();
        assert(k * d >= 0) by (nonlinear_arith)
            requires
                k >= 0,
                d >= 0,
        ;
        assert(rows * ad.rank >= 0 && ad.rank * cols >= 0) by (nonlinear_arith)
            requires
                rows >= 0,
                cols >= 0,
                ad.rank >= 0,
        ;
    }
}

proof fn lemma_layer(
    ts: Seq<NamedArrayView>,
    cfg: LlamaConfig,
    ad: AdapterConfigView,
    l: nat,
    rng: u64,
)
    requires
        cfg.heads > 0,
        weights::loaded_layer(ts, cfg, ad, l, rng) is Ok,
    ensures
        layer_from(ts, cfg, ad, l, weights::loaded_layer(ts, cfg, ad, l, rng)->Ok_0.0),
{
    let p = weights::layer_name(l);
    lemma_fetched(ts, p + ".input_layernorm.weight"@, seq![cfg.hidden]);
    lemma_fetched(ts, p + ".post_attention_layernorm.weight"@, seq![cfg.hidden]);
    let (_, r1) = weights::loaded_proj(ts, cfg, ad, l, ProjKind::Q, rng)->Ok_0;
    let (_, r2) = weights::loaded_proj(ts, cfg, ad, l, ProjKind::K, r1)->Ok_0;
    let (_, r3) = weights::loaded_proj(ts, cfg, ad, l, ProjKind::V, r2)->Ok_0;
    let (_, r4) = weights::loaded_proj(ts, cfg, ad, l, ProjKind::O, r3)->Ok_0;
    let (_, r5) = weights::loaded_proj(ts, cfg, ad, l, ProjKind::Gate, r4)->Ok_0;
    let (_, r6) = weights::loaded_proj(ts, cfg, ad, l, ProjKind::Up, r5)->Ok_0;
    lemma_proj(ts, cfg, ad, l, ProjKind::Q, rng);
    lemma_proj(ts, cfg, ad, l, ProjKind::K, r1);
    lemma_proj(ts, cfg, ad, l, ProjKind::V, r2);
    lemma_proj(ts, cfg, ad, l, ProjKind::O, r3);
    lemma_proj(ts, cfg, ad, l, ProjKind::Gate, r4);
    lemma_proj(ts, cfg, ad, l, ProjKind::Up, r5);
    lemma_proj(ts, cfg, ad, l, ProjKind::Down, r6);
}

proof fn lemma_layers(
    ts: Seq<NamedArrayView>,
    cfg: LlamaConfig,
    ad: AdapterConfigView,
    n: nat,
    seed: u64,
    l: int,
)
    requires
        cfg.heads > 0,
        weights::loaded_layers(ts, cfg, ad, n, seed) is Ok,
    ensures
        ({
            let ws = weights::loaded_layers(ts, cfg, ad, n, seed)->Ok_0.0;
            ws.len() == n && (0 <= l < n ==> layer_from(ts, cfg, ad, l as nat, ws[l]))
        }),
    decreases n,
{
    if n > 0 {
        let (front, rng) = weights::loaded_layers(ts, cfg, ad, (n - 1) as nat, seed)->Ok_0;
        lemma_layers(ts, cfg, ad, (n - 1) as nat, seed, l);
        lemma_layer(ts, cfg, ad, (n - 1) as nat, rng);
    }
}

/// Every weight of a loaded model is the first tensor of its name, in the shape
/// that the settings call for: the embeddings, the final norm, and in every
/// layer two norms and seven projections.
pub proof fn lemma_loaded_model(
    ts: Seq<NamedArrayView>,
    cfg: LlamaConfig,
    ad: AdapterConfigView,
    seed: u64,
    l: int,
)
    requires
        cfg.heads > 0,
        llama::loaded(ts, cfg, ad, seed) is Ok,
    ensures
        ({
            let m = llama::loaded(ts, cfg, ad, seed)->Ok_0;
            &&& m.cfg == cfg
            &&& holds(ts, "model.embed_tokens.weight"@, seq![cfg.vocab, cfg.hidden], m.embed)
            &&& holds(ts, "model.norm.weight"@, seq![cfg.hidden], m.final_norm)
            &&& m.layers.len() == cfg.layers
            &&& 0 <= l < cfg.layers ==> layer_from(ts, cfg, ad, l as nat, m.layers[l])
        }),
{
    lemma_layers(ts, cfg, ad, cfg.layers as nat, seed, l);
    lemma_fetched(ts, "model.embed_tokens.weight"@, seq![cfg.vocab, cfg.hidden]);
    lemma_fetched(ts, "model.norm.weight"@, seq![cfg.hidden]);
}

/// Whether all tensors of layer `l` are there, in the right shapes.
pub open spec fn has_layer(ts: Seq<NamedArrayView>, cfg: LlamaConfig, l: nat) -> bool {
    let p = "model.layers."@ + text::decimal(l);
    let (h, kv, inter) = (cfg.hidden, cfg.kv_size() as usize, cfg.intermediate);
    &&& has(ts, p + ".input_layernorm.weight"@, seq![h])
    &&& has(ts, p + ".post_attention_layernorm.weight"@, seq![h])
    &&& has(ts, p + ".self_attn.q_proj.weight"@, seq![h, h])
    &&& has(ts, p + ".self_attn.k_proj.weight"@, seq![kv, h])
    &&& has(ts, p + ".self_attn.v_proj.weight"@, seq![kv, h])
    &&& has(ts, p + ".self_attn.o_proj.weight"@, seq![h, h])
    &&& has(ts, p + ".mlp.gate_proj.weight"@, seq![inter, h])
    &&& has(ts, p + ".mlp.up_proj.weight"@, seq![inter, h])
    &&& has(ts, p + ".mlp.down_proj.weight"@, seq![h, inter])
}

/// Whether targeted projections can be quantized and adapted.
pub open spec fn can_adapt(cfg: LlamaConfig, ad: AdapterConfigView) -> bool {
    forall|kind: ProjKind| #[trigger]
        ad.targets.contains(kind) ==> ad.rank > 0 && ad.quant.block_size > 0 && kind.sizes(cfg).0
            * kind.sizes(cfg).1 <= usize::MAX
}

proof fn lemma_proj_succeeds(
    ts: Seq<NamedArrayView>,
    cfg: LlamaConfig,
    ad: AdapterConfigView,
    l: nat,
    kind: ProjKind,
    rng: u64,
)
    requires
        cfg.sized(),
        weights::all_sized(ts),
        has(
            ts,
            "model.layers."@ + text::decimal(l) + kind.suffix(),
            seq![kind.sizes(cfg).0 as usize, kind.sizes(cfg).1 as usize],
        ),
        can_adapt(cfg, ad),
    ensures
        weights::loaded_proj(ts, cfg, ad, l, kind, rng) is Ok,
{
    let (rows, cols) = kind.sizes(cfg);
    let shape = seq![rows as usize, cols as usize];
    let name = "model.layers."@ + text::decimal(l) + kind.suffix();
    lemma_fetched(ts, name, shape);
    let i = choose|i: int| #[trigger] first_named(ts, name, i) && ts[i].shape == shape;
    assert(holds(ts, name, shape, ts[i].data));
    let (k, d) = (cfg.kv_heads as int, cfg.head_size());
    assert(k * d >= 0) by (nonlinear_arith)
        requires
            k >= 0,
            d >= 0,
    ;
    weights::lemma_two(rows as usize, cols as usize);
    assert(ts[i].data.len() == npy::product(shape));
}

/// A model is loaded wherever all its tensors are there in the right shapes and
/// the targeted projections can be adapted.
pub proof fn lemma_load_succeeds(
    ts: Seq<NamedArrayView>,
    cfg: LlamaConfig,
    ad: AdapterConfigView,
    seed: u64,
)
    requires
        cfg.sized(),
        weights::all_sized(ts),
        can_adapt(cfg, ad),
        has(ts, "model.embed_tokens.weight"@, seq![cfg.vocab, cfg.hidden]),
        has(ts, "model.norm.weight"@, seq![cfg.hidden]),
        forall|l: nat| l < cfg.layers ==> #[trigger] has_layer(ts, cfg, l),
    ensures
        llama::loaded(ts, cfg, ad, seed) is Ok,
{
    lemma_layers_succeed(ts, cfg, ad, cfg.layers as nat, seed);
    lemma_fetched(ts, "model.embed_tokens.weight"@, seq![cfg.vocab, cfg.hidden]);
    lemma_fetched(ts, "model.norm.weight"@, seq![cfg.hidden]);
}

proof fn lemma_layers_succeed(
    ts: Seq<NamedArrayView>,
    cfg: LlamaConfig,
    ad: AdapterConfigView,
    n: nat,
    seed: u64,
)
    requires
        cfg.sized(),
        weights::all_sized(ts),
        can_adapt(cfg, ad),
        forall|l: nat| l < n ==> #[trigger] has_layer(ts, cfg, l),
    ensures
        weights::loaded_layers(ts, cfg, ad, n, seed) is Ok,
    decreases n,
{
    if n > 0 {
        let l = (n - 1) as nat;
        lemma_layers_succeed(ts, cfg, ad, l, seed);
        let (front, rng) = weights::loaded_layers(ts, cfg, ad, l, seed)->Ok_0;
        assert(has_layer(ts, cfg, l));
        let p = weights::layer_name(l);
        lemma_fetched(ts, p + ".input_layernorm.weight"@, seq![cfg.hidden]);
        lemma_fetched(ts, p + ".post_attention_layernorm.weight"@, seq![cfg.hidden]);
        lemma_proj_succeeds(ts, cfg, ad, l, ProjKind::Q, rng);
        let (_, r1) = weights::loaded_proj(ts, cfg, ad, l, ProjKind::Q, rng)->Ok_0;
        lemma_proj_succeeds(ts, cfg, ad, l, ProjKind::K, r1);
        let (_, r2) = weights::loaded_proj(ts, cfg, ad, l, ProjKind::K, r1)->Ok_0;
        lemma_proj_succeeds(ts, cfg, ad, l, ProjKind::V, r2);
        let (_, r3) = weights::loaded_proj(ts, cfg, ad, l, ProjKind::V, r2)->Ok_0;
        lemma_proj_succeeds(ts, cfg, ad, l, ProjKind::O, r3);
        let (_, r4) = weights::loaded_proj(ts, cfg, ad, l, ProjKind::O, r3)->Ok_0;
        lemma_proj_succeeds(ts, cfg, ad, l, ProjKind::Gate, r4);
        let (_, r5) = weights::loaded_proj(ts, cfg, ad, l, ProjKind::Gate, r4)->Ok_0;
        lemma_proj_succeeds(ts, cfg, ad, l, ProjKind::Up, r5);
        let (_, r6) = weights::loaded_proj(ts, cfg, ad, l, ProjKind::Up, r5)->Ok_0;
        lemma_proj_succeeds(ts, cfg, ad, l, ProjKind::Down, r6);
    }
}

/// The initial values of an adapter are draws of the generator in a row, each
/// times the initial size: the first comes from the state after the given one,
/// and the others are those that follow from there.
pub proof fn lemma_initial_values(s: u64, n: nat, i: int)
    requires
        0 <= i < n,
    ensures
        weights::initial_values(s, n).len() == n,
        weights::initial_values(s, n)[0] == single::product(
            init::uniform(init::next_state(s)),
            weights::INITIAL_SIZE,
        ),
        i > 0 ==> weights::initial_values(s, n)[i] == weights::initial_values(
            init::next_state(s),
            (n - 1) as nat,
        )[i - 1],
{
    reveal_with_fuel(weights::state_after, 2);
    lemma_state_shift(s, i as nat);
}

/// Drawing once and then `n` times is drawing `n + 1` times.
pub proof fn lemma_state_shift(s: u64, n: nat)
    ensures
        weights::state_after(init::next_state(s), n) == weights::state_after(s, n + 1),
    decreases n,
{
    reveal_with_fuel(weights::state_after, 2);
    if n > 0 {
        lemma_state_shift(s, (n - 1) as nat);
    }
}

} // verus!
