//! Model weights and how they are read from named tensors.
use crate::io::npy;
use crate::io::npz;
use crate::io::npz::{NamedArray, NamedArrayView};
use crate::lora::{copied, AdapterView, LoraAdapter};
use crate::model::config;
use crate::model::config::{
    push_sizes, AdapterConfig, AdapterConfigView, LlamaConfig, LoadError, ProjKind,
};
use crate::model::init;
use crate::qlora::{LayerView, QloraLinear};
use crate::error::QloraErrorView;
use crate::error;
use crate::quant;
use crate::single;
use crate::text;
use vstd::prelude::*;
use vstd::string::*;

verus! {

/// The encoding of `0.02`, the size of initial adapter values.
pub const INITIAL_SIZE: u32 = 0x3CA3_D70A;

/// A projection: frozen base weight, or a fused QLoRA layer.
#[derive(Debug, Clone)]
pub enum Proj {
    Raw(Vec<u32>),
    Qlora(QloraLinear),
}

/// The model of a projection.
#[verifier::ext_equal]
pub enum ProjView {
    Raw(Seq<u32>),
    Qlora(LayerView),
}

impl View for Proj {
    type V = ProjView;

    open spec fn view(&self) -> ProjView {
        match self {
            Proj::Raw(w) => ProjView::Raw(w@),
            Proj::Qlora(l) => ProjView::Qlora(l@),
        }
    }
}

impl ProjView {
    /// Whether this is a projection from `cols` to `rows` elements.
    pub open spec fn wf(self, rows: int, cols: int) -> bool {
        match self {
            ProjView::Raw(w) => w.len() == rows * cols,
            ProjView::Qlora(l) => l.wf() && l.fits() && l.weight.rows == rows && l.weight.cols
                == cols,
        }
    }
}

/// One decoder layer's weights (row-major, `(out, in)`; norms are vectors).
#[derive(Debug, Clone)]
pub struct LayerWeights {
    pub attn_norm: Vec<u32>,
    pub q: Proj,
    pub k: Proj,
    pub v: Proj,
    pub o: Proj,
    pub mlp_norm: Vec<u32>,
    pub gate: Proj,
    pub up: Proj,
    pub down: Proj,
}

/// The model of a layer's weights.
#[verifier::ext_equal]
pub struct WeightsView {
    pub attn_norm: Seq<u32>,
    pub q: ProjView,
    pub k: ProjView,
    pub v: ProjView,
    pub o: ProjView,
    pub mlp_norm: Seq<u32>,
    pub gate: ProjView,
    pub up: ProjView,
    pub down: ProjView,
}

impl View for LayerWeights {
    type V = WeightsView;

    open spec fn view(&self) -> WeightsView {
        WeightsView {
            attn_norm: self.attn_norm@,
            q: self.q@,
            k: self.k@,
            v: self.v@,
            o: self.o@,
            mlp_norm: self.mlp_norm@,
            gate: self.gate@,
            up: self.up@,
            down: self.down@,
        }
    }
}

impl WeightsView {
    /// The projection of a kind.
    pub open spec fn proj(self, kind: ProjKind) -> ProjView {
        match kind {
            ProjKind::Q => self.q,
            ProjKind::K => self.k,
            ProjKind::V => self.v,
            ProjKind::O => self.o,
            ProjKind::Gate => self.gate,
            ProjKind::Up => self.up,
            ProjKind::Down => self.down,
        }
    }

    /// The weights with another projection of a kind.
    pub open spec fn with_proj(self, kind: ProjKind, p: ProjView) -> WeightsView {
        match kind {
            ProjKind::Q => WeightsView { q: p, ..self },
            ProjKind::K => WeightsView { k: p, ..self },
            ProjKind::V => WeightsView { v: p, ..self },
            ProjKind::O => WeightsView { o: p, ..self },
            ProjKind::Gate => WeightsView { gate: p, ..self },
            ProjKind::Up => WeightsView { up: p, ..self },
            ProjKind::Down => WeightsView { down: p, ..self },
        }
    }

    /// Whether every tensor has the shape that the settings call for.
    pub open spec fn wf(self, cfg: LlamaConfig) -> bool {
        &&& self.attn_norm.len() == cfg.hidden
        &&& self.mlp_norm.len() == cfg.hidden
        &&& forall|kind: ProjKind| #[trigger]
            self.proj(kind).wf(kind.sizes(cfg).0, kind.sizes(cfg).1)
    }
}

/// The data of the tensor called `name`, or what is wrong with it.
pub open spec fn fetched(ts: Seq<NamedArrayView>, name: Seq<char>, want: Seq<usize>) -> Result<
    Seq<u32>,
    Seq<char>,
> {
    match npz::index_of_name(ts, name) {
        None => Err("missing tensor "@ + name),
        Some(i) => if ts[i].shape != want {
            Err(
                name + ": shape "@ + config::size_list(ts[i].shape) + " != "@ + config::size_list(
                    want,
                ),
            )
        } else {
            Ok(ts[i].data)
        },
    }
}

/// The generator's state after `n` draws.
pub open spec fn state_after(x: u64, n: nat) -> u64
    decreases n,
{
    if n == 0 {
        x
    } else {
        init::next_state(state_after(x, (n - 1) as nat))
    }
}

/// `n` initial adapter values.
pub open spec fn initial_values(x: u64, n: nat) -> Seq<u32> {
    Seq::new(
        n,
        |i: int|
            single::product(init::uniform(state_after(x, (i + 1) as nat)), INITIAL_SIZE),
    )
}

/// The adapter that a targeted projection begins with: `A` random, `B` zero.
pub open spec fn initial_adapter(
    ad: AdapterConfigView,
    rows: int,
    cols: int,
    rng: u64,
) -> AdapterView {
    AdapterView {
        in_dim: cols as nat,
        out_dim: rows as nat,
        r: ad.rank as nat,
        alpha: ad.alpha,
        a: initial_values(rng, (ad.rank * cols) as nat),
        b: Seq::new((rows * ad.rank) as nat, |i: int| 0u32),
    }
}

/// A weight as a projection of a kind, wrapped in QLoRA where the kind is
/// targeted, and the generator's state afterwards.
pub open spec fn projected(
    ad: AdapterConfigView,
    kind: ProjKind,
    w: Seq<u32>,
    rows: int,
    cols: int,
    rng: u64,
) -> Result<(ProjView, u64), Seq<char>> {
    if !ad.targets.contains(kind) {
        Ok((ProjView::Raw(w), rng))
    } else if ad.rank == 0 {
        Err(
            "adapter "@ + kind.text() + ": "@ + QloraErrorView::InvalidConfig(
                "rank r must be > 0"@,
            ).text(),
        )
    } else if ad.quant.block_size == 0 {
        Err(
            "quantize "@ + kind.text() + ": "@ + QloraErrorView::InvalidConfig(
                "block_size must be > 0"@,
            ).text(),
        )
    } else if rows * cols > usize::MAX {
        Err(
            "quantize "@ + kind.text() + ": "@ + QloraErrorView::InvalidConfig(
                "rows*cols overflow"@,
            ).text(),
        )
    } else if w.len() != rows * cols {
        Err(
            "quantize "@ + kind.text() + ": "@ + QloraErrorView::ShapeMismatch(
                error::disagreement("weights.len()"@, w.len(), "rows*cols"@, (rows * cols) as nat),
            ).text(),
        )
    } else {
        Ok(
            (
                ProjView::Qlora(
                    LayerView {
                        weight: quant::quantized(w, rows as nat, cols as nat, ad.quant),
                        adapter: Some(initial_adapter(ad, rows, cols, rng)),
                    },
                ),
                state_after(rng, (ad.rank * cols) as nat),
            ),
        )
    }
}

/// Where a layer's tensors stand.
pub open spec fn layer_name(l: nat) -> Seq<char> {
    "model.layers."@ + text::decimal(l)
}

/// A projection of layer `l`.
pub open spec fn loaded_proj(
    ts: Seq<NamedArrayView>,
    cfg: LlamaConfig,
    ad: AdapterConfigView,
    l: nat,
    kind: ProjKind,
    rng: u64,
) -> Result<(ProjView, u64), Seq<char>> {
    let (rows, cols) = kind.sizes(cfg);
    match fetched(ts, layer_name(l) + kind.suffix(), seq![rows as usize, cols as usize]) {
        Err(e) => Err(e),
        Ok(w) => projected(ad, kind, w, rows, cols, rng),
    }
}

/// The attention projections of layer `l`, in loading order.
pub open spec fn loaded_attention(
    ts: Seq<NamedArrayView>,
    cfg: LlamaConfig,
    ad: AdapterConfigView,
    l: nat,
    rng: u64,
) -> Result<((ProjView, ProjView, ProjView, ProjView), u64), Seq<char>> {
    match loaded_proj(ts, cfg, ad, l, ProjKind::Q, rng) {
        Err(e) => Err(e),
        Ok((q, rng)) => match loaded_proj(ts, cfg, ad, l, ProjKind::K, rng) {
            Err(e) => Err(e),
            Ok((k, rng)) => match loaded_proj(ts, cfg, ad, l, ProjKind::V, rng) {
                Err(e) => Err(e),
                Ok((v, rng)) => match loaded_proj(ts, cfg, ad, l, ProjKind::O, rng) {
                    Err(e) => Err(e),
                    Ok((o, rng)) => Ok(((q, k, v, o), rng)),
                },
            },
        },
    }
}

/// The MLP projections of layer `l`, in loading order.
pub open spec fn loaded_mlp(
    ts: Seq<NamedArrayView>,
    cfg: LlamaConfig,
    ad: AdapterConfigView,
    l: nat,
    rng: u64,
) -> Result<((ProjView, ProjView, ProjView), u64), Seq<char>> {
    match loaded_proj(ts, cfg, ad, l, ProjKind::Gate, rng) {
        Err(e) => Err(e),
        Ok((gate, rng)) => match loaded_proj(ts, cfg, ad, l, ProjKind::Up, rng) {
            Err(e) => Err(e),
            Ok((up, rng)) => match loaded_proj(ts, cfg, ad, l, ProjKind::Down, rng) {
                Err(e) => Err(e),
                Ok((down, rng)) => Ok(((gate, up, down), rng)),
            },
        },
    }
}

/// The weights of layer `l`, and the generator's state afterwards.
pub open spec fn loaded_layer(
    ts: Seq<NamedArrayView>,
    cfg: LlamaConfig,
    ad: AdapterConfigView,
    l: nat,
    rng: u64,
) -> Result<(WeightsView, u64), Seq<char>> {
    let p = layer_name(l);
    match fetched(ts, p + ".input_layernorm.weight"@, seq![cfg.hidden]) {
        Err(e) => Err(e),
        Ok(attn_norm) => match loaded_attention(ts, cfg, ad, l, rng) {
            Err(e) => Err(e),
            Ok(((q, k, v, o), rng)) => match fetched(
                ts,
                p + ".post_attention_layernorm.weight"@,
                seq![cfg.hidden],
            ) {
                Err(e) => Err(e),
                Ok(mlp_norm) => match loaded_mlp(ts, cfg, ad, l, rng) {
                    Err(e) => Err(e),
                    Ok(((gate, up, down), rng)) => Ok(
                        (WeightsView { attn_norm, q, k, v, o, mlp_norm, gate, up, down }, rng),
                    ),
                },
            },
        },
    }
}

/// The weights of the first `n` layers.
pub open spec fn loaded_layers(
    ts: Seq<NamedArrayView>,
    cfg: LlamaConfig,
    ad: AdapterConfigView,
    n: nat,
    seed: u64,
) -> Result<(Seq<WeightsView>, u64), Seq<char>>
    decreases n,
{
    if n == 0 {
        Ok((seq![], seed))
    } else {
        match loaded_layers(ts, cfg, ad, (n - 1) as nat, seed) {
            Err(e) => Err(e),
            Ok((front, rng)) => match loaded_layer(ts, cfg, ad, (n - 1) as nat, rng) {
                Err(e) => Err(e),
                Ok((w, rng)) => Ok((front.push(w), rng)),
            },
        }
    }
}

/// Whether every array holds as many elements as its shape calls for.
pub open spec fn all_sized(ts: Seq<NamedArrayView>) -> bool {
    forall|i: int| 0 <= i < ts.len() ==> (#[trigger] ts[i]).data.len() == npy::product(ts[i].shape)
}

/// Whether the adapter matrices of a projection can be held, once its tensor
/// is found.
pub open spec fn proj_fits(
    ts: Seq<NamedArrayView>,
    cfg: LlamaConfig,
    ad: AdapterConfigView,
    l: nat,
    kind: ProjKind,
) -> bool {
    let (rows, cols) = kind.sizes(cfg);
    (fetched(ts, layer_name(l) + kind.suffix(), seq![rows as usize, cols as usize]) is Ok
        && ad.targets.contains(kind)) ==> ad.rank * cols <= usize::MAX && rows * ad.rank
        <= usize::MAX
}

/// The same for the attention projections of layer `l`, as far as loading comes.
pub open spec fn attention_fits(
    ts: Seq<NamedArrayView>,
    cfg: LlamaConfig,
    ad: AdapterConfigView,
    l: nat,
    rng: u64,
) -> bool {
    &&& proj_fits(ts, cfg, ad, l, ProjKind::Q)
    &&& loaded_proj(ts, cfg, ad, l, ProjKind::Q, rng) matches Ok((_, rng)) ==> {
        &&& proj_fits(ts, cfg, ad, l, ProjKind::K)
        &&& loaded_proj(ts, cfg, ad, l, ProjKind::K, rng) matches Ok((_, rng)) ==> {
            &&& proj_fits(ts, cfg, ad, l, ProjKind::V)
            &&& loaded_proj(ts, cfg, ad, l, ProjKind::V, rng) is Ok ==> proj_fits(
                ts,
                cfg,
                ad,
                l,
                ProjKind::O,
            )
        }
    }
}

/// The same for the MLP projections of layer `l`.
pub open spec fn mlp_fits(
    ts: Seq<NamedArrayView>,
    cfg: LlamaConfig,
    ad: AdapterConfigView,
    l: nat,
    rng: u64,
) -> bool {
    &&& proj_fits(ts, cfg, ad, l, ProjKind::Gate)
    &&& loaded_proj(ts, cfg, ad, l, ProjKind::Gate, rng) matches Ok((_, rng)) ==> {
        &&& proj_fits(ts, cfg, ad, l, ProjKind::Up)
        &&& loaded_proj(ts, cfg, ad, l, ProjKind::Up, rng) is Ok ==> proj_fits(
            ts,
            cfg,
            ad,
            l,
            ProjKind::Down,
        )
    }
}

/// Whether the adapter matrices of layer `l` can be held, as far as loading
/// comes before a tensor is missing or misshapen.
pub open spec fn layer_fits(
    ts: Seq<NamedArrayView>,
    cfg: LlamaConfig,
    ad: AdapterConfigView,
    l: nat,
    rng: u64,
) -> bool {
    let p = layer_name(l);
    fetched(ts, p + ".input_layernorm.weight"@, seq![cfg.hidden]) is Ok ==> {
        &&& attention_fits(ts, cfg, ad, l, rng)
        &&& loaded_attention(ts, cfg, ad, l, rng) matches Ok((_, rng)) ==> (fetched(
            ts,
            p + ".post_attention_layernorm.weight"@,
            seq![cfg.hidden],
        ) is Ok ==> mlp_fits(ts, cfg, ad, l, rng))
    }
}

/// The same for all layers.
pub open spec fn adapters_fit(
    ts: Seq<NamedArrayView>,
    cfg: LlamaConfig,
    ad: AdapterConfigView,
    seed: u64,
) -> bool {
    forall|l: nat|
        l < cfg.layers ==> (#[trigger] loaded_layers(ts, cfg, ad, l, seed) matches Ok((_, rng))
            ==> layer_fits(ts, cfg, ad, l, rng))
}

/// The data of the tensor called `name`, shape-checked.
pub fn get(ts: &[NamedArray], name: &str, want: &[usize]) -> (r: Result<Vec<u32>, LoadError>)
    ensures
        match fetched(npz::views(ts@), name@, want@) {
            Ok(d) => r matches Ok(v) && v@ == d,
            Err(m) => r matches Err(e) && e@ == m,
        },
{
    match NamedArray::find(ts, name) {
        None => {
            let mut m = "missing tensor ".to_owned();
            m.append(name);
            Err(LoadError(m))
        },
        Some(t) => {
            proof {
                let i = npz::index_of_name(npz::views(ts@), name@)->0;
                assert(npz::views(ts@)[i] == t@);
            }
            if !npy::same_shape(t.shape.as_slice(), want) {
                let mut m = name.to_owned();
                m.append(": shape ");
                push_sizes(&mut m, t.shape.as_slice());
                m.append(" != ");
                push_sizes(&mut m, want);
                return Err(LoadError(m));
            }
            Ok(copied(t.data.as_slice()))
        },
    }
}

/// An error about a projection.
fn about(what: &str, kind: ProjKind, e: &error::QloraError) -> (r: LoadError)
    ensures
        r@ == what@ + kind.text() + ": "@ + e@.text(),
{
    let mut m = what.to_owned();
    m.append(kind.name());
    m.append(": ");
    let t = e.message();
    m.append(t.as_str());
    LoadError(m)
}

/// Wraps a raw weight in QLoRA when targeted (A random, B zero).
fn maybe_qlora(
    ad: &AdapterConfig,
    kind: ProjKind,
    w: Vec<u32>,
    rows: usize,
    cols: usize,
    rng: &mut u64,
) -> (r: Result<Proj, LoadError>)
    requires
        ad@.targets.contains(kind) ==> ad.rank * cols <= usize::MAX && rows * ad.rank
            <= usize::MAX,
    ensures
        match projected(ad@, kind, w@, rows as int, cols as int, *old(rng)) {
            Ok(p) => r matches Ok(x) && x@ == p.0 && *final(rng) == p.1,
            Err(m) => r matches Err(e) && e@ == m,
        },
{
    if !ad.targets(kind) {
        return Ok(Proj::Raw(w));
    }
    let rank: usize = ad.rank;
    let ghost seed = *rng;
    let n: usize = rank * cols;
    let ghost want = initial_values(seed, n as nat);
    let mut a: Vec<u32> = Vec::new();
    let mut i: usize = 0;
    while i < n
        invariant
            i <= n,
            want == initial_values(seed, n as nat),
            a@.len() == i,
            *rng == state_after(seed, i as nat),
            forall|j: int| 0 <= j < i ==> #[trigger] a@[j] == want[j],
        decreases n - i,
    {
        let u: u32 = init::lcg(rng);
        assert(*rng == state_after(seed, (i + 1) as nat));
        a.push(single::times(u, INITIAL_SIZE));
        i = i + 1;
    }
    assert(a@ =~= want);
    let b = zeros(rows * rank);
    let adapter = match LoraAdapter::new(a.as_slice(), b.as_slice(), cols, rows, rank, ad.alpha) {
        Ok(x) => x,
        Err(e) => {
            return Err(about("adapter ", kind, &e));
        },
    };
    match QloraLinear::new(w.as_slice(), rows, cols, &ad.quant, Some(adapter)) {
        Ok(l) => {
            assert(adapter@ =~= initial_adapter(ad@, rows as int, cols as int, seed));
            Ok(Proj::Qlora(l))
        },
        Err(e) => Err(about("quantize ", kind, &e)),
    }
}

/// As many zeros.
pub fn zeros(n: usize) -> (r: Vec<u32>)
    ensures
        r@ == Seq::new(n as nat, |i: int| 0u32),
{
    let mut v: Vec<u32> = Vec::new();
    let mut i: usize = 0;
    while i < n
        invariant
            i <= n,
            v@ == Seq::new(i as nat, |i: int| 0u32),
        decreases n - i,
    {
        v.push(0);
        i = i + 1;
        assert(v@ =~= Seq::new(i as nat, |i: int| 0u32));
    }
    v
}

/// Loads a projection of layer `l`.
fn load_proj(
    ts: &[NamedArray],
    cfg: &LlamaConfig,
    ad: &AdapterConfig,
    l: usize,
    kind: ProjKind,
    rng: &mut u64,
) -> (r: Result<Proj, LoadError>)
    requires
        cfg.sized(),
        proj_fits(npz::views(ts@), *cfg, ad@, l as nat, kind),
    ensures
        match loaded_proj(npz::views(ts@), *cfg, ad@, l as nat, kind, *old(rng)) {
            Ok(p) => r matches Ok(x) && x@ == p.0 && *final(rng) == p.1,
            Err(m) => r matches Err(e) && e@ == m,
        },
{
    let (rows, cols) = kind.dims(cfg);
    let mut name = "model.layers.".to_owned();
    text::push_decimal(&mut name, l as u64);
    name.append(kind.tensor());
    let want: [usize; 2] = [rows, cols];
    assert(want@ =~= seq![rows, cols]);
    match get(ts, name.as_str(), &want) {
        Ok(w) => maybe_qlora(ad, kind, w, rows, cols, rng),
        Err(e) => Err(e),
    }
}

/// Loads a norm of layer `l`.
fn load_norm(ts: &[NamedArray], cfg: &LlamaConfig, l: usize, suffix: &str) -> (r: Result<
    Vec<u32>,
    LoadError,
>)
    ensures
        match fetched(npz::views(ts@), layer_name(l as nat) + suffix@, seq![cfg.hidden]) {
            Ok(d) => r matches Ok(v) && v@ == d,
            Err(m) => r matches Err(e) && e@ == m,
        },
{
    let mut name = "model.layers.".to_owned();
    text::push_decimal(&mut name, l as u64);
    name.append(suffix);
    let want: [usize; 1] = [cfg.hidden];
    assert(want@ =~= seq![cfg.hidden]);
    get(ts, name.as_str(), &want)
}

/// Loads the weights of layer `l`.
pub fn load_layer(
    ts: &[NamedArray],
    cfg: &LlamaConfig,
    ad: &AdapterConfig,
    l: usize,
    rng: &mut u64,
) -> (r: Result<LayerWeights, LoadError>)
    requires
        cfg.sized(),
        layer_fits(npz::views(ts@), *cfg, ad@, l as nat, *old(rng)),
    ensures
        match loaded_layer(npz::views(ts@), *cfg, ad@, l as nat, *old(rng)) {
            Ok(p) => r matches Ok(x) && x@ == p.0 && *final(rng) == p.1,
            Err(m) => r matches Err(e) && e@ == m,
        },
{
    let attn_norm = match load_norm(ts, cfg, l, ".input_layernorm.weight") {
        Ok(d) => d,
        Err(e) => {
            return Err(e);
        },
    };
    let q = match load_proj(ts, cfg, ad, l, ProjKind::Q, rng) {
        Ok(p) => p,
        Err(e) => {
            return Err(e);
        },
    };
    let k = match load_proj(ts, cfg, ad, l, ProjKind::K, rng) {
        Ok(p) => p,
        Err(e) => {
            return Err(e);
        },
    };
    let v = match load_proj(ts, cfg, ad, l, ProjKind::V, rng) {
        Ok(p) => p,
        Err(e) => {
            return Err(e);
        },
    };
    let o = match load_proj(ts, cfg, ad, l, ProjKind::O, rng) {
        Ok(p) => p,
        Err(e) => {
            return Err(e);
        },
    };
    let mlp_norm = match load_norm(ts, cfg, l, ".post_attention_layernorm.weight") {
        Ok(d) => d,
        Err(e) => {
            return Err(e);
        },
    };
    let gate = match load_proj(ts, cfg, ad, l, ProjKind::Gate, rng) {
        Ok(p) => p,
        Err(e) => {
            return Err(e);
        },
    };
    let up = match load_proj(ts, cfg, ad, l, ProjKind::Up, rng) {
        Ok(p) => p,
        Err(e) => {
            return Err(e);
        },
    };
    let down = match load_proj(ts, cfg, ad, l, ProjKind::Down, rng) {
        Ok(p) => p,
        Err(e) => {
            return Err(e);
        },
    };
    Ok(LayerWeights { attn_norm, q, k, v, o, mlp_norm, gate, up, down })
}

impl LayerWeights {
    /// The projection of a kind.
    pub fn proj(&self, kind: ProjKind) -> (r: &Proj)
        ensures
            r@ == self@.proj(kind),
    {
        match kind {
            ProjKind::Q => &self.q,
            ProjKind::K => &self.k,
            ProjKind::V => &self.v,
            ProjKind::O => &self.o,
            ProjKind::Gate => &self.gate,
            ProjKind::Up => &self.up,
            ProjKind::Down => &self.down,
        }
    }

    /// The projection of a kind, for writing.
    pub fn proj_mut(&mut self, kind: ProjKind) -> (r: &mut Proj)
        ensures
            r@ == old(self)@.proj(kind),
            final(self)@ == old(self)@.with_proj(kind, final(r)@),
    {
        match kind {
            ProjKind::Q => &mut self.q,
            ProjKind::K => &mut self.k,
            ProjKind::V => &mut self.v,
            ProjKind::O => &mut self.o,
            ProjKind::Gate => &mut self.gate,
            ProjKind::Up => &mut self.up,
            ProjKind::Down => &mut self.down,
        }
    }
}

/// The elements of a vector.
pub proof fn lemma_single_size(n: usize)
    ensures
        npy::product(seq![n]) == n,
{
    let s = seq![n];
    assert(s.drop_last() =~= seq![]);
    assert(npy::product(s.drop_last()) == 1);
    assert(1 * n == n);
}

/// The elements of a matrix.
pub proof fn lemma_two(m: usize, n: usize)
    ensures
        npy::product(seq![m, n]) == m * n,
{
    let s = seq![m, n];
    assert(s.drop_last() =~= seq![m]);
    lemma_single_size(m);
}

/// A tensor that was found is as large as its shape says.
pub proof fn lemma_fetched_sized(ts: Seq<NamedArrayView>, name: Seq<char>, want: Seq<usize>)
    requires
        all_sized(ts),
    ensures
        fetched(ts, name, want) matches Ok(d) ==> d.len() == npy::product(want),
{
    npz::lemma_index_of_name(ts, name);
}

/// A projection made from a weight of the right size is well formed.
proof fn lemma_loaded_proj_wf(
    ts: Seq<NamedArrayView>,
    cfg: LlamaConfig,
    ad: AdapterConfigView,
    l: nat,
    kind: ProjKind,
    rng: u64,
)
    requires
        cfg.sized(),
        all_sized(ts),
    ensures
        loaded_proj(ts, cfg, ad, l, kind, rng) matches Ok(p) ==> p.0.wf(
            kind.sizes(cfg).0,
            kind.sizes(cfg).1,
        ),
{
    let (rows, cols) = kind.sizes(cfg);
    lemma_sizes(kind, cfg);
    let want = seq![rows as usize, cols as usize];
    let name = layer_name(l) + kind.suffix();
    lemma_fetched_sized(ts, name, want);
    lemma_two(rows as usize, cols as usize);
    if let Ok(w) = fetched(ts, name, want) {
        if ad.targets.contains(kind) && rows * cols <= usize::MAX && w.len() == rows * cols
            && ad.quant.block_size > 0 && ad.rank > 0 {
            quant::lemma_quantized_wf(w, rows as nat, cols as nat, ad.quant);
        }
    }
}

/// The sizes of a projection fit the machine.
proof fn lemma_sizes(kind: ProjKind, cfg: LlamaConfig)
    requires
        cfg.sized(),
    ensures
        0 <= kind.sizes(cfg).0 <= usize::MAX,
        0 <= kind.sizes(cfg).1 <= usize::MAX,
{
    crate::ieee::lemma_div_parts(cfg.hidden as nat, cfg.heads as nat);
    let (k, d) = (cfg.kv_heads as int, cfg.head_size());
    assert(k * d >= 0) by (nonlinear_arith)
        requires
            k >= 0,
            d >= 0,
    ;
}

/// Loaded layers are well formed.
pub proof fn lemma_layers_wf(
    ts: Seq<NamedArrayView>,
    cfg: LlamaConfig,
    ad: AdapterConfigView,
    n: nat,
    seed: u64,
)
    requires
        cfg.sized(),
        all_sized(ts),
    ensures
        loaded_layers(ts, cfg, ad, n, seed) matches Ok(p) ==> p.0.len() == n && forall|i: int|
            0 <= i < n ==> (#[trigger] p.0[i]).wf(cfg),
    decreases n,
{
    if n > 0 {
        let l = (n - 1) as nat;
        lemma_layers_wf(ts, cfg, ad, l, seed);
        if let Ok((front, rng)) = loaded_layers(ts, cfg, ad, l, seed) {
            lemma_layer_wf(ts, cfg, ad, l, rng);
        }
    }
}

proof fn lemma_layer_wf(
    ts: Seq<NamedArrayView>,
    cfg: LlamaConfig,
    ad: AdapterConfigView,
    l: nat,
    rng: u64,
)
    requires
        cfg.sized(),
        all_sized(ts),
    ensures
        loaded_layer(ts, cfg, ad, l, rng) matches Ok(p) ==> p.0.wf(cfg),
{
    let h = seq![cfg.hidden];
    lemma_single_size(cfg.hidden);
    lemma_fetched_sized(ts, layer_name(l) + ".input_layernorm.weight"@, h);
    lemma_fetched_sized(ts, layer_name(l) + ".post_attention_layernorm.weight"@, h);
    assert forall|kind: ProjKind, r: u64|
        (#[trigger] loaded_proj(ts, cfg, ad, l, kind, r)) is Ok implies loaded_proj(
        ts,
        cfg,
        ad,
        l,
        kind,
        r,
    )->Ok_0.0.wf(kind.sizes(cfg).0, kind.sizes(cfg).1) by {
        lemma_loaded_proj_wf(ts, cfg, ad, l, kind, r);
    }
    if let Ok(p) = loaded_layer(ts, cfg, ad, l, rng) {
        assert forall|kind: ProjKind| #[trigger]
            p.0.proj(kind).wf(kind.sizes(cfg).0, kind.sizes(cfg).1) by {}
    }
}

} // verus!
