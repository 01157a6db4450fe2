//! The model: loading it, and reading and writing its adapters.
use crate::error::QloraErrorView;
use crate::io::npz;
use crate::io::npz::{NamedArray, NamedArrayView};
use crate::io::safetensors;
use crate::io::safetensors::read_safetensors;
use crate::lora::{copied, AdapterView};
use crate::model::config::{
    AdapterConfig, AdapterConfigView, LlamaConfig, LoadError, ProjKind,
};
use crate::model::weights;
use crate::model::weights::{get, load_layer, LayerWeights, Proj, ProjView, WeightsView};
use crate::qlora::LayerView;
use crate::text;
use vstd::prelude::*;
use vstd::string::*;

verus! {

/// The seed that [`LlamaModel::load`] initializes adapters with.
pub const LOAD_SEED: u64 = 0x1234_5678_9ABC_DEF0;

/// Full model weights, as binary32 bit patterns.
#[derive(Debug, Clone)]
pub struct LlamaModel {
    pub cfg: LlamaConfig,
    pub embed: Vec<u32>,
    pub layers: Vec<LayerWeights>,
    pub final_norm: Vec<u32>,
}

/// The model of a [`LlamaModel`].
#[verifier::ext_equal]
pub struct ModelView {
    pub cfg: LlamaConfig,
    pub embed: Seq<u32>,
    pub layers: Seq<WeightsView>,
    pub final_norm: Seq<u32>,
}

/// The models of layers.
pub open spec fn layer_views(layers: Seq<LayerWeights>) -> Seq<WeightsView> {
    Seq::new(layers.len(), |i: int| layers[i]@)
}

impl View for LlamaModel {
    type V = ModelView;

    open spec fn view(&self) -> ModelView {
        ModelView {
            cfg: self.cfg,
            embed: self.embed@,
            layers: layer_views(self.layers@),
            final_norm: self.final_norm@,
        }
    }
}

impl ModelView {
    /// Whether every tensor has the shape that the settings call for.
    pub open spec fn wf(self) -> bool {
        &&& self.embed.len() == self.cfg.vocab * self.cfg.hidden
        &&& self.final_norm.len() == self.cfg.hidden
        &&& forall|i: int| 0 <= i < self.layers.len() ==> (#[trigger] self.layers[i]).wf(self.cfg)
    }
}

/// The model that named tensors make up.
pub open spec fn loaded(
    ts: Seq<NamedArrayView>,
    cfg: LlamaConfig,
    ad: AdapterConfigView,
    seed: u64,
) -> Result<ModelView, Seq<char>> {
    match weights::loaded_layers(ts, cfg, ad, cfg.layers as nat, seed) {
        Err(e) => Err(e),
        Ok((layers, rng)) => match weights::fetched(
            ts,
            "model.embed_tokens.weight"@,
            seq![cfg.vocab, cfg.hidden],
        ) {
            Err(e) => Err(e),
            Ok(embed) => match weights::fetched(ts, "model.norm.weight"@, seq![cfg.hidden]) {
                Err(e) => Err(e),
                Ok(final_norm) => Ok(ModelView { cfg, embed, layers, final_norm }),
            },
        },
    }
}

/// The tensors that a model file holds, as loading reads them.
pub open spec fn loaded_file(
    b: Seq<u8>,
    cfg: LlamaConfig,
    ad: AdapterConfigView,
) -> Result<ModelView, Seq<char>> {
    match safetensors::file_tensors(b) {
        Err(e) => Err(e.text()),
        Ok(ts) => loaded(ts, cfg, ad, LOAD_SEED),
    }
}

/// The adapter of layer `layer` at `kind`, if there is one.
pub open spec fn adapter_at(m: ModelView, layer: int, kind: ProjKind) -> Option<AdapterView> {
    if layer >= m.layers.len() {
        None
    } else {
        match m.layers[layer].proj(kind) {
            ProjView::Raw(w) => None,
            ProjView::Qlora(l) => l.adapter,
        }
    }
}

/// Why an adapter cannot be written.
pub open spec fn write_fault(
    m: ModelView,
    layer: nat,
    kind: ProjKind,
    a: Seq<u32>,
    b: Seq<u32>,
) -> Option<Seq<char>> {
    if layer >= m.layers.len() {
        Some("no layer "@ + text::decimal(layer))
    } else {
        match m.layers[layer as int].proj(kind) {
            ProjView::Raw(w) => Some(
                "layer "@ + text::decimal(layer) + " "@ + kind.text() + " has no adapter"@,
            ),
            ProjView::Qlora(l) => match l.adapter {
                None => Some("adapter missing"@),
                Some(ad) => if a.len() != ad.a.len() || b.len() != ad.b.len() {
                    Some(
                        QloraErrorView::ShapeMismatch(
                            "set_weights: got ("@ + text::decimal(a.len()) + ", "@ + text::decimal(
                                b.len(),
                            ) + "), expected ("@ + text::decimal(ad.a.len()) + ", "@
                                + text::decimal(ad.b.len()) + ")"@,
                        ).text(),
                    )
                } else {
                    None
                },
            },
        }
    }
}

/// The model with other adapter matrices at one place.
pub open spec fn with_adapter(
    m: ModelView,
    layer: int,
    kind: ProjKind,
    a: Seq<u32>,
    b: Seq<u32>,
) -> ModelView {
    let w = m.layers[layer];
    let l = w.proj(kind)->Qlora_0;
    let p = ProjView::Qlora(
        LayerView { adapter: Some(AdapterView { a, b, ..l.adapter->0 }), ..l },
    );
    ModelView { layers: m.layers.update(layer, w.with_proj(kind, p)), ..m }
}

impl LlamaModel {
    /// Load from a `.safetensors` buffer, checking every shape.
    ///
    /// Projections named in `adapters.targets` are quantized to NF4 and
    /// wrapped in fused [`QloraLinear`](crate::qlora::QloraLinear) layers (A
    /// random, B zero, so the adapter branch contributes exactly zero until
    /// the first optimizer step; the base term carries the usual NF4 error).
    pub fn load(bytes: &[u8], cfg: &LlamaConfig, adapters: &AdapterConfig) -> (r: Result<
        Self,
        LoadError,
    >)
        requires
            safetensors::file_tensors(bytes@) matches Ok(ts) ==> cfg.sized()
                && weights::adapters_fit(ts, *cfg, adapters@, LOAD_SEED),
        ensures
            match loaded_file(bytes@, *cfg, adapters@) {
                Ok(m) => r matches Ok(x) && x@ == m && x@.wf(),
                Err(m) => r matches Err(e) && e@ == m,
            },
    {
        match read_safetensors(bytes) {
            Err(e) => Err(LoadError(e.message())),
            Ok(ts) => {
                proof {
                    lemma_file_sized(bytes@);
                }
                LlamaModel::from_tensors(ts.as_slice(), cfg, adapters, LOAD_SEED)
            },
        }
    }

    /// Build from parsed tensors (same layout as `.safetensors`).
    pub fn from_tensors(
        ts: &[NamedArray],
        cfg: &LlamaConfig,
        adapters: &AdapterConfig,
        seed: u64,
    ) -> (r: Result<Self, LoadError>)
        requires
            cfg.sized(),
            weights::adapters_fit(npz::views(ts@), *cfg, adapters@, seed),
        ensures
            match loaded(npz::views(ts@), *cfg, adapters@, seed) {
                Ok(m) => r matches Ok(x) && x@ == m && (weights::all_sized(npz::views(ts@))
                    ==> x@.wf()),
                Err(m) => r matches Err(e) && e@ == m,
            },
    {
        LlamaModel::load_impl(ts, cfg, adapters, seed)
    }

    fn load_impl(ts: &[NamedArray], cfg: &LlamaConfig, adapters: &AdapterConfig, seed: u64) -> (r:
        Result<Self, LoadError>)
        requires
            cfg.sized(),
            weights::adapters_fit(npz::views(ts@), *cfg, adapters@, seed),
        ensures
            match loaded(npz::views(ts@), *cfg, adapters@, seed) {
                Ok(m) => r matches Ok(x) && x@ == m && (weights::all_sized(npz::views(ts@))
                    ==> x@.wf()),
                Err(m) => r matches Err(e) && e@ == m,
            },
    {
        let ghost all = npz::views(ts@);
        let mut rng: u64 = seed;
        let mut layers: Vec<LayerWeights> = Vec::new();
        let mut l: usize = 0;
        assert(layer_views(layers@) =~= seq![]);
        while l < cfg.layers
            invariant
                l <= cfg.layers,
                cfg.sized(),
                weights::adapters_fit(all, *cfg, adapters@, seed),
                all == npz::views(ts@),
                weights::loaded_layers(all, *cfg, adapters@, l as nat, seed) == Ok::<
                    (Seq<WeightsView>, u64),
                    Seq<char>,
                >((layer_views(layers@), rng)),
            decreases cfg.layers - l,
        {
            match load_layer(ts, cfg, adapters, l, &mut rng) {
                Ok(w) => {
                    let ghost before = layer_views(layers@);
                    layers.push(w);
                    assert(layer_views(layers@) =~= before.push(w@));
                },
                Err(e) => {
                    proof {
                        lemma_layers_error(all, *cfg, adapters@, (l + 1) as nat, cfg.layers as nat, seed);
                    }
                    return Err(e);
                },
            }
            l = l + 1;
        }
        let want: [usize; 2] = [cfg.vocab, cfg.hidden];
        assert(want@ =~= seq![cfg.vocab, cfg.hidden]);
        let embed = match get(ts, "model.embed_tokens.weight", &want) {
            Ok(d) => d,
            Err(e) => {
                return Err(e);
            },
        };
        let want: [usize; 1] = [cfg.hidden];
        assert(want@ =~= seq![cfg.hidden]);
        let final_norm = match get(ts, "model.norm.weight", &want) {
            Ok(d) => d,
            Err(e) => {
                return Err(e);
            },
        };
        proof {
            if weights::all_sized(all) {
                lemma_loaded_wf(all, *cfg, adapters@, seed);
            }
        }
        Ok(LlamaModel { cfg: *cfg, embed, layers, final_norm })
    }

    /// Current `(a, b)` of the adapter at `(layer, kind)` (`None` if raw).
    /// Used by training loops to feed the optimizer.
    pub fn adapter_ab(&self, layer: usize, kind: ProjKind) -> (r: Option<(Vec<u32>, Vec<u32>)>)
        ensures
            match adapter_at(self@, layer as int, kind) {
                Some(ad) => r matches Some(ab) && ab.0@ == ad.a && ab.1@ == ad.b,
                None => r is None,
            },
    {
        if layer >= self.layers.len() {
            return None;
        }
        assert(self@.layers[layer as int] == self.layers@[layer as int]@);
        match self.layers[layer].proj(kind) {
            Proj::Qlora(l) => match l.adapter() {
                Some(ad) => Some((copied(ad.a()), copied(ad.b()))),
                None => None,
            },
            Proj::Raw(_) => None,
        }
    }

    /// Write fresh `(a, b)` into the adapter at `(layer, kind)`.
    /// Used by training loops after an optimizer step.
    pub fn set_adapter_weights(&mut self, layer: usize, kind: ProjKind, a: &[u32], b: &[u32]) -> (r:
        Result<(), LoadError>)
        ensures
            match write_fault(old(self)@, layer as nat, kind, a@, b@) {
                Some(m) => r matches Err(e) && e@ == m && final(self)@ == old(self)@,
                None => r is Ok && final(self)@ == with_adapter(
                    old(self)@,
                    layer as int,
                    kind,
                    a@,
                    b@,
                ),
            },
    {
        if layer >= self.layers.len() {
            let mut m = "no layer ".to_owned();
            text::push_decimal(&mut m, layer as u64);
            return Err(LoadError(m));
        }
        let ghost before = self@;
        assert(before.layers[layer as int] == self.layers@[layer as int]@);
        let w: &mut LayerWeights = &mut self.layers[layer];
        match w.proj_mut(kind) {
            Proj::Raw(_) => {
                let mut m = "layer ".to_owned();
                text::push_decimal(&mut m, layer as u64);
                m.append(" ");
                m.append(kind.name());
                m.append(" has no adapter");
                Err(LoadError(m))
            },
            Proj::Qlora(l) => match l.adapter_mut() {
                None => Err(LoadError("adapter missing".to_owned())),
                Some(ad) => match ad.set_weights(a, b) {
                    Ok(_) => Ok(()),
                    Err(e) => Err(LoadError(e.message())),
                },
            },
        }
    }
}

/// An error in one layer is the error of all.
proof fn lemma_layers_error(
    ts: Seq<NamedArrayView>,
    cfg: LlamaConfig,
    ad: AdapterConfigView,
    m: nat,
    n: nat,
    seed: u64,
)
    requires
        m <= n,
        weights::loaded_layers(ts, cfg, ad, m, seed) is Err,
    ensures
        weights::loaded_layers(ts, cfg, ad, n, seed) == weights::loaded_layers(
            ts,
            cfg,
            ad,
            m,
            seed,
        ),
    decreases n - m,
{
    if m < n {
        lemma_layers_error(ts, cfg, ad, m, (n - 1) as nat, seed);
    }
}

/// Tensors of a file are as large as their shapes say.
proof fn lemma_file_sized(b: Seq<u8>)
    ensures
        safetensors::file_tensors(b) matches Ok(ts) ==> weights::all_sized(ts),
{
    if b.len() >= 8 {
        let hlen = crate::bytes::le_value(b.take(8)) as int;
        let raw = b.subrange(8, 8 + hlen);
        if let Ok(entries) = safetensors::header_entries(raw) {
            safetensors::lemma_tensors_sized(b.skip(8 + hlen), entries);
        }
    }
}

/// A model loaded from tensors that are as large as their shapes say has
/// every shape that the settings call for.
pub proof fn lemma_loaded_wf(
    ts: Seq<NamedArrayView>,
    cfg: LlamaConfig,
    ad: AdapterConfigView,
    seed: u64,
)
    requires
        cfg.sized(),
        weights::all_sized(ts),
    ensures
        loaded(ts, cfg, ad, seed) matches Ok(m) ==> m.wf() && m.layers.len() == cfg.layers,
{
    weights::lemma_layers_wf(ts, cfg, ad, cfg.layers as nat, seed);
    weights::lemma_fetched_sized(
        ts,
        "model.embed_tokens.weight"@,
        seq![cfg.vocab, cfg.hidden],
    );
    weights::lemma_fetched_sized(ts, "model.norm.weight"@, seq![cfg.hidden]);
    weights::lemma_two(cfg.vocab, cfg.hidden);
    weights::lemma_single_size(cfg.hidden);
}

} // verus!
