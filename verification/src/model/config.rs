//! Architecture and adapter settings.
use crate::quant::QuantConfig;
use crate::text;
use vstd::prelude::*;
use vstd::string::*;

verus! {

/// Architecture hyperparameters; `rms_eps` and `rope_theta` are binary32 bit
/// patterns.
#[derive(Debug, Clone, Copy)]
pub struct LlamaConfig {
    pub hidden: usize,
    pub layers: usize,
    pub heads: usize,
    pub kv_heads: usize,
    pub intermediate: usize,
    pub vocab: usize,
    pub rms_eps: u32,
    pub rope_theta: u32,
}

impl LlamaConfig {
    /// SmolLM-135M (HuggingFaceTB/SmolLM-135M `config.json`).
    pub fn smollm_135m() -> (r: Self)
        ensures
            r == (LlamaConfig {
                hidden: 576,
                layers: 30,
                heads: 9,
                kv_heads: 3,
                intermediate: 1536,
                vocab: 49152,
                rms_eps: 0x3727_C5AC,
                rope_theta: 0x461C_4000,
            }),
    {
        LlamaConfig {
            hidden: 576,
            layers: 30,
            heads: 9,
            kv_heads: 3,
            intermediate: 1536,
            vocab: 49152,
            // 1e-5
            rms_eps: 0x3727_C5AC,
            // 10000
            rope_theta: 0x461C_4000,
        }
    }

    /// Elements per head.
    pub open spec fn head_size(self) -> int {
        self.hidden as int / self.heads as int
    }

    /// Elements of a key or value row.
    pub open spec fn kv_size(self) -> int {
        self.kv_heads * self.head_size()
    }

    /// Elements per head.
    pub fn head_dim(&self) -> (r: usize)
        requires
            self.heads > 0,
        ensures
            r == self.head_size(),
    {
        self.hidden / self.heads
    }

    /// Whether the key and value rows can be as long as these settings say.
    pub open spec fn sized(self) -> bool {
        self.heads > 0 && self.kv_size() <= usize::MAX
    }

    /// Elements of a key or value row.
    pub fn kv_dim(&self) -> (r: usize)
        requires
            self.sized(),
        ensures
            r == self.kv_size(),
    {
        let d: usize = self.head_dim();
        self.kv_heads * d
    }
}

/// Which projection carries a LoRA adapter.
#[derive(Debug, Clone, Copy, PartialEq, Eq, Hash, Structural)]
pub enum ProjKind {
    Q,
    K,
    V,
    O,
    Gate,
    Up,
    Down,
}

impl ProjKind {
    /// The projection's name.
    pub open spec fn text(self) -> Seq<char> {
        match self {
            ProjKind::Q => "Q"@,
            ProjKind::K => "K"@,
            ProjKind::V => "V"@,
            ProjKind::O => "O"@,
            ProjKind::Gate => "Gate"@,
            ProjKind::Up => "Up"@,
            ProjKind::Down => "Down"@,
        }
    }

    /// The projection's name.
    pub fn name(&self) -> (r: &'static str)
        ensures
            r@ == self.text(),
    {
        match self {
            ProjKind::Q => "Q",
            ProjKind::K => "K",
            ProjKind::V => "V",
            ProjKind::O => "O",
            ProjKind::Gate => "Gate",
            ProjKind::Up => "Up",
            ProjKind::Down => "Down",
        }
    }

    /// Where the weight of this projection stands within a layer.
    pub open spec fn suffix(self) -> Seq<char> {
        match self {
            ProjKind::Q => ".self_attn.q_proj.weight"@,
            ProjKind::K => ".self_attn.k_proj.weight"@,
            ProjKind::V => ".self_attn.v_proj.weight"@,
            ProjKind::O => ".self_attn.o_proj.weight"@,
            ProjKind::Gate => ".mlp.gate_proj.weight"@,
            ProjKind::Up => ".mlp.up_proj.weight"@,
            ProjKind::Down => ".mlp.down_proj.weight"@,
        }
    }

    /// Where the weight of this projection stands within a layer.
    pub fn tensor(&self) -> (r: &'static str)
        ensures
            r@ == self.suffix(),
    {
        match self {
            ProjKind::Q => ".self_attn.q_proj.weight",
            ProjKind::K => ".self_attn.k_proj.weight",
            ProjKind::V => ".self_attn.v_proj.weight",
            ProjKind::O => ".self_attn.o_proj.weight",
            ProjKind::Gate => ".mlp.gate_proj.weight",
            ProjKind::Up => ".mlp.up_proj.weight",
            ProjKind::Down => ".mlp.down_proj.weight",
        }
    }

    /// Output and input size of this projection.
    pub open spec fn sizes(self, cfg: LlamaConfig) -> (int, int) {
        match self {
            ProjKind::Q => (cfg.hidden as int, cfg.hidden as int),
            ProjKind::K => (cfg.kv_size(), cfg.hidden as int),
            ProjKind::V => (cfg.kv_size(), cfg.hidden as int),
            ProjKind::O => (cfg.hidden as int, cfg.hidden as int),
            ProjKind::Gate => (cfg.intermediate as int, cfg.hidden as int),
            ProjKind::Up => (cfg.intermediate as int, cfg.hidden as int),
            ProjKind::Down => (cfg.hidden as int, cfg.intermediate as int),
        }
    }

    /// Output and input size of this projection.
    pub fn dims(&self, cfg: &LlamaConfig) -> (r: (usize, usize))
        requires
            cfg.sized(),
        ensures
            (r.0 as int, r.1 as int) == self.sizes(*cfg),
    {
        match self {
            ProjKind::Q => (cfg.hidden, cfg.hidden),
            ProjKind::K => (cfg.kv_dim(), cfg.hidden),
            ProjKind::V => (cfg.kv_dim(), cfg.hidden),
            ProjKind::O => (cfg.hidden, cfg.hidden),
            ProjKind::Gate => (cfg.intermediate, cfg.hidden),
            ProjKind::Up => (cfg.intermediate, cfg.hidden),
            ProjKind::Down => (cfg.hidden, cfg.intermediate),
        }
    }
}

/// Adapter attachment: standard QLoRA targets Q and V.
#[derive(Debug, Clone)]
pub struct AdapterConfig {
    pub targets: Vec<ProjKind>,
    pub rank: usize,
    /// A binary32 bit pattern.
    pub alpha: u32,
    pub quant: QuantConfig,
}

/// The model of an [`AdapterConfig`].
#[verifier::ext_equal]
pub struct AdapterConfigView {
    pub targets: Seq<ProjKind>,
    pub rank: usize,
    pub alpha: u32,
    pub quant: QuantConfig,
}

impl View for AdapterConfig {
    type V = AdapterConfigView;

    open spec fn view(&self) -> AdapterConfigView {
        AdapterConfigView {
            targets: self.targets@,
            rank: self.rank,
            alpha: self.alpha,
            quant: self.quant,
        }
    }
}

/// The quantization that adapters come with unless told otherwise.
pub open spec fn default_quant() -> QuantConfig {
    QuantConfig { block_size: 64, double_quant: true }
}

impl AdapterConfig {
    /// No adapters (pure base model).
    pub fn none() -> (r: Self)
        ensures
            r@ == (AdapterConfigView {
                targets: seq![],
                rank: 8,
                alpha: 0x4180_0000,
                quant: default_quant(),
            }),
    {
        let r = AdapterConfig {
            targets: Vec::new(),
            rank: 8,
            // 16
            alpha: 0x4180_0000,
            quant: QuantConfig::default(),
        };
        assert(r@.targets =~= seq![]);
        r
    }

    /// Classic QLoRA: adapters on Q and V projections.
    pub fn qv(rank: usize, alpha: u32) -> (r: Self)
        ensures
            r@ == (AdapterConfigView {
                targets: seq![ProjKind::Q, ProjKind::V],
                rank,
                alpha,
                quant: default_quant(),
            }),
    {
        let mut targets: Vec<ProjKind> = Vec::new();
        targets.push(ProjKind::Q);
        targets.push(ProjKind::V);
        assert(targets@ =~= seq![ProjKind::Q, ProjKind::V]);
        AdapterConfig { targets, rank, alpha, quant: QuantConfig::default() }
    }

    /// Whether projections of this kind carry an adapter.
    pub fn targets(&self, kind: ProjKind) -> (r: bool)
        ensures
            r == self@.targets.contains(kind),
    {
        let mut i: usize = 0;
        while i < self.targets.len()
            invariant
                i <= self.targets@.len(),
                forall|j: int| 0 <= j < i ==> self.targets@[j] != kind,
            decreases self.targets@.len() - i,
        {
            if self.targets[i] == kind {
                assert(self.targets@[i as int] == kind);
                return true;
            }
            i = i + 1;
        }
        false
    }
}

/// What stopped a model from loading, or an adapter from being written.
#[derive(Debug, Clone, PartialEq)]
pub struct LoadError(pub String);

impl View for LoadError {
    type V = Seq<char>;

    open spec fn view(&self) -> Seq<char> {
        self.0@
    }
}

impl LoadError {
    /// The error as one line of text.
    pub fn message(&self) -> (r: String)
        ensures
            r@ == "load: "@ + self@,
    {
        let mut s = "load: ".to_owned();
        s.append(self.0.as_str());
        s
    }
}

/// Sizes as a bracketed list.
pub open spec fn size_list(s: Seq<usize>) -> Seq<char> {
    "["@ + size_items(s) + "]"@
}

/// Sizes separated by commas.
pub open spec fn size_items(s: Seq<usize>) -> Seq<char>
    decreases s.len(),
{
    if s.len() == 0 {
        seq![]
    } else if s.len() == 1 {
        text::decimal(s[0] as nat)
    } else {
        size_items(s.drop_last()) + ", "@ + text::decimal(s.last() as nat)
    }
}

/// Appends sizes as a bracketed list.
pub fn push_sizes(out: &mut String, s: &[usize])
    ensures
        final(out)@ == old(out)@ + size_list(s@),
{
    let ghost lead = out@;
    out.append("[");
    let mut i: usize = 0;
    assert(out@ =~= lead + "["@ + size_items(s@.take(0)));
    while i < s.len()
        invariant
            i <= s@.len(),
            out@ == lead + "["@ + size_items(s@.take(i as int)),
        decreases s@.len() - i,
    {
        assert(s@.take(i + 1).drop_last() =~= s@.take(i as int));
        if i > 0 {
            out.append(", ");
        }
        text::push_decimal(out, s[i] as u64);
        i = i + 1;
        assert(out@ =~= lead + "["@ + size_items(s@.take(i as int)));
    }
    assert(s@.take(i as int) =~= s@);
    out.append("]");
    assert(out@ =~= lead + size_list(s@));
}

} // verus!
