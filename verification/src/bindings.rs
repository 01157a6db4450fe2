//! Flat-list interface for bindings to other languages.
//!
//! All weight matrices are row-major flat lists; shapes are passed explicitly.
use crate::error;
use crate::error::{QloraError, QloraErrorView};
use crate::ieee;
use crate::lora::{copied, AdapterView, LoraAdapter};
use crate::qlora::{LayerView, QloraLinear};
use crate::quant;
use crate::quant::{QuantConfig, QuantizedTensor, ScaleView, TensorView, NF4_LEVELS};
use crate::single;
use crate::text;
use vstd::prelude::*;
use vstd::string::*;

verus! {

/// An NF4-quantized weight matrix.
///
/// * `codes`: packed nibbles (two per byte, little-nibble-first).
/// * `scales`: per-block scales (double quantization is decoded on export).
#[derive(Debug, Clone)]
pub struct QuantizedWeight {
    pub rows: usize,
    pub cols: usize,
    pub block_size: usize,
    pub double_quant: bool,
    pub codes: Vec<u8>,
    pub scales: Vec<u32>,
}

/// The model of a [`QuantizedWeight`].
#[verifier::ext_equal]
pub struct WeightView {
    pub rows: usize,
    pub cols: usize,
    pub block_size: usize,
    pub double_quant: bool,
    pub codes: Seq<u8>,
    pub scales: Seq<u32>,
}

impl View for QuantizedWeight {
    type V = WeightView;

    open spec fn view(&self) -> WeightView {
        WeightView {
            rows: self.rows,
            cols: self.cols,
            block_size: self.block_size,
            double_quant: self.double_quant,
            codes: self.codes@,
            scales: self.scales@,
        }
    }
}

/// How a flag is written.
pub open spec fn flag_text(b: bool) -> Seq<char> {
    if b {
        "true"@
    } else {
        "false"@
    }
}

impl WeightView {
    /// The tensor that the parts make up.
    pub open spec fn tensor(self) -> TensorView {
        TensorView {
            rows: self.rows as nat,
            cols: self.cols as nat,
            block_size: self.block_size as nat,
            codes: self.codes,
            scales: ScaleView::F32(self.scales),
        }
    }

    /// One line that names the settings.
    pub open spec fn text(self) -> Seq<char> {
        "QuantizedWeight(rows="@ + text::decimal(self.rows as nat) + ", cols="@ + text::decimal(
            self.cols as nat,
        ) + ", block_size="@ + text::decimal(self.block_size as nat) + ", double_quant="@
            + flag_text(self.double_quant) + ")"@
    }
}

impl QuantizedWeight {
    /// Dequantize back to a flat row-major list.
    pub fn dequantize(&self) -> (r: Vec<u32>)
        requires
            self@.tensor().wf(),
        ensures
            r@ == self@.tensor().values(),
    {
        let ghost want = self@.tensor().values();
        let n: usize = self.rows * self.cols;
        let levels: [u32; 16] = NF4_LEVELS;
        let mut out: Vec<u32> = Vec::new();
        let mut i: usize = 0;
        while i < n
            invariant
                i <= n,
                n == self.rows * self.cols,
                levels@ == NF4_LEVELS@,
                self@.tensor().wf(),
                want == self@.tensor().values(),
                out@.len() == i,
                forall|j: int| 0 <= j < i ==> #[trigger] out@[j] == want[j],
            decreases n - i,
        {
            proof {
                quant::lemma_block_of(n as nat, 2, i as nat);
                quant::lemma_block_of(n as nat, self.block_size as nat, i as nat);
            }
            let byte: u8 = self.codes[i / 2];
            let code: u8 = if i % 2 == 0 {
                byte % 16
            } else {
                byte / 16
            };
            assert(code == quant::code_at(self.codes@, i as int));
            out.push(single::times(levels[code as usize], self.scales[i / self.block_size]));
            i = i + 1;
        }
        assert(out@ =~= want);
        out
    }

    /// One line that names the settings.
    pub fn repr(&self) -> (r: String)
        ensures
            r@ == self@.text(),
    {
        let mut s = "QuantizedWeight(rows=".to_owned();
        text::push_decimal(&mut s, self.rows as u64);
        s.append(", cols=");
        text::push_decimal(&mut s, self.cols as u64);
        s.append(", block_size=");
        text::push_decimal(&mut s, self.block_size as u64);
        s.append(", double_quant=");
        s.append(if self.double_quant {
            "true"
        } else {
            "false"
        });
        s.append(")");
        s
    }
}

/// The parts of a tensor, with the scales decoded.
pub open spec fn exported(q: TensorView) -> WeightView {
    WeightView {
        rows: q.rows as usize,
        cols: q.cols as usize,
        block_size: q.block_size as usize,
        double_quant: q.scales is Int8,
        codes: q.codes,
        scales: q.scales.scales(),
    }
}

/// Quantize a flat row-major `rows x cols` matrix to NF4.
pub fn quantize_nf4(
    weights: &[u32],
    rows: usize,
    cols: usize,
    block_size: usize,
    double_quant: bool,
) -> (r: Result<QuantizedWeight, QloraError>)
    ensures
        if block_size == 0 {
            r matches Err(e) && e@ == QloraErrorView::InvalidConfig("block_size must be > 0"@)
        } else if rows * cols > usize::MAX {
            r matches Err(e) && e@ == QloraErrorView::InvalidConfig("rows*cols overflow"@)
        } else if weights@.len() != rows * cols {
            r matches Err(e) && e@ == QloraErrorView::ShapeMismatch(
                error::disagreement(
                    "weights.len()"@,
                    weights@.len(),
                    "rows*cols"@,
                    (rows * cols) as nat,
                ),
            )
        } else {
            let q = quant::quantized(
                weights@,
                rows as nat,
                cols as nat,
                QuantConfig { block_size, double_quant },
            );
            r matches Ok(w) && w@ == exported(q) && w@.tensor().wf()
        },
{
    let cfg = QuantConfig { block_size, double_quant };
    match QuantizedTensor::quantize(weights, rows, cols, &cfg) {
        Err(e) => Err(e),
        Ok(q) => {
            let mut codes: Vec<u8> = Vec::new();
            codes.extend_from_slice(q.codes());
            assert(codes@ =~= q@.codes);
            Ok(
                QuantizedWeight {
                    rows: q.rows(),
                    cols: q.cols(),
                    block_size: q.block_size(),
                    double_quant: q.uses_double_quant(),
                    codes,
                    scales: q.block_scales(),
                },
            )
        },
    }
}

/// Exporting loses nothing: the parts stand for the same values.
pub proof fn lemma_exported_values(
    weights: Seq<u32>,
    rows: usize,
    cols: usize,
    config: QuantConfig,
)
    requires
        config.block_size > 0,
        rows * cols <= usize::MAX,
        weights.len() == rows * cols,
    ensures
        ({
            let q = quant::quantized(weights, rows as nat, cols as nat, config);
            exported(q).tensor().values() == q.values()
        }),
{
    let q = quant::quantized(weights, rows as nat, cols as nat, config);
    assert(exported(q).tensor().values() =~= q.values());
}

/// The rank of an adapter whose `A` holds so many elements.
pub open spec fn rank_of(a: nat, in_dim: usize) -> nat {
    if in_dim == 0 {
        a
    } else {
        a / in_dim as nat
    }
}

/// Whether `A` holds whole rows.
pub open spec fn whole_rows(a: Seq<u32>, in_dim: usize) -> bool {
    in_dim == 0 || a.len() % in_dim as nat == 0
}

/// What is wrong with the adapter matrices.
pub open spec fn lists_fault(w: WeightView, a: Option<Seq<u32>>, b: Option<Seq<u32>>) -> Option<
    Seq<char>,
> {
    if a is Some != b is Some {
        Some("lora_a and lora_b must be given together"@)
    } else if a is Some && !whole_rows(a->0, w.cols) {
        Some("lora_a length must be a multiple of in_dim"@)
    } else if a is Some && b->0.len() != w.rows * rank_of(a->0.len(), w.cols) {
        Some("lora_b length must equal out_dim * rank"@)
    } else {
        None
    }
}

/// The layer that a weight and adapter matrices make up, or what is wrong with
/// them. `alpha` defaults to the rank (scale 1).
pub open spec fn rebuilt(
    w: WeightView,
    a: Option<Seq<u32>>,
    b: Option<Seq<u32>>,
    alpha: Option<u32>,
) -> Result<LayerView, Seq<char>> {
    let n = (w.rows * w.cols) as nat;
    if let Some(m) = lists_fault(w, a, b) {
        Err(m)
    } else if w.codes.len() != quant::ceil_div(n, 2) {
        Err("QuantizedWeight codes length does not match rows*cols"@)
    } else if w.block_size == 0 {
        Err(QloraErrorView::InvalidConfig("block_size must be > 0"@).text())
    } else if w.scales.len() != quant::ceil_div(n, w.block_size as nat) {
        Err(
            QloraErrorView::ShapeMismatch(
                error::disagreement(
                    "scales.len()"@,
                    w.scales.len(),
                    "ceil(rows*cols/block_size)"@,
                    quant::ceil_div(n, w.block_size as nat),
                ),
            ).text(),
        )
    } else if a is None || rank_of(a->0.len(), w.cols) == 0 {
        Ok(LayerView { weight: w.tensor(), adapter: None })
    } else if w.cols == 0 {
        Err(
            QloraErrorView::ShapeMismatch(
                error::disagreement("a.len()"@, a->0.len(), "r*in_dim"@, 0),
            ).text(),
        )
    } else {
        let r = rank_of(a->0.len(), w.cols);
        Ok(
            LayerView {
                weight: w.tensor(),
                adapter: Some(
                    AdapterView {
                        in_dim: w.cols as nat,
                        out_dim: w.rows as nat,
                        r,
                        alpha: match alpha {
                            Some(x) => x,
                            None => single::of_integer(r as int),
                        },
                        a: a->0,
                        b: b->0,
                    },
                ),
            },
        )
    }
}

/// The contents of an optional list.
pub open spec fn list_view(v: Option<&[u32]>) -> Option<Seq<u32>> {
    match v {
        Some(s) => Some(s@),
        None => None,
    }
}

/// Shared validation + layer rebuild for forward/backward.
pub fn rebuild_layer(
    weight: &QuantizedWeight,
    lora_a: Option<&[u32]>,
    lora_b: Option<&[u32]>,
    lora_alpha: Option<u32>,
) -> (r: Result<QloraLinear, String>)
    requires
        lists_fault(weight@, list_view(lora_a), list_view(lora_b)) is None ==> weight.rows
            * weight.cols <= usize::MAX,
        lora_b is Some ==> (lora_a matches Some(a) ==> (whole_rows(a@, weight.cols) ==> weight.rows
            * rank_of(a@.len(), weight.cols) <= usize::MAX)),
    ensures
        match rebuilt(weight@, list_view(lora_a), list_view(lora_b), lora_alpha) {
            Ok(l) => r matches Ok(x) && x@ == l && x@.wf() && x@.fits(),
            Err(m) => r matches Err(e) && e@ == m,
        },
{
    let in_dim: usize = weight.cols;
    let out_dim: usize = weight.rows;
    let mut rank: usize = 0;
    match (lora_a, lora_b) {
        (None, None) => {},
        (Some(a), Some(b)) => {
            let width: usize = if in_dim == 0 {
                1
            } else {
                in_dim
            };
            if a.len() % width != 0 {
                return Err("lora_a length must be a multiple of in_dim".to_owned());
            }
            rank = a.len() / width;
            if b.len() != out_dim * rank {
                return Err("lora_b length must equal out_dim * rank".to_owned());
            }
        },
        _ => {
            return Err("lora_a and lora_b must be given together".to_owned());
        },
    }
    // Rebuild the tensor from the exported parts.
    if weight.codes.len() != quant::div_up(out_dim * in_dim, 2) {
        return Err("QuantizedWeight codes length does not match rows*cols".to_owned());
    }
    let mut codes: Vec<u8> = Vec::new();
    codes.extend_from_slice(weight.codes.as_slice());
    assert(codes@ =~= weight.codes@);
    let tensor = match QuantizedTensor::from_raw_parts(
        weight.rows,
        weight.cols,
        weight.block_size,
        codes,
        copied(weight.scales.as_slice()),
    ) {
        Ok(t) => t,
        Err(e) => {
            return Err(e.message());
        },
    };
    let adapter: Option<LoraAdapter> = match (lora_a, lora_b) {
        (Some(a), Some(b)) => {
            if rank == 0 {
                None
            } else {
                let alpha: u32 = match lora_alpha {
                    Some(x) => x,
                    None => single::from_u64(rank as u64),
                };
                proof {
                    if in_dim > 0 {
                        ieee::lemma_div_parts(a@.len(), in_dim as nat);
                        assert(in_dim * rank == rank * in_dim) by (nonlinear_arith);
                    } else {
                        assert(rank * in_dim == 0) by (nonlinear_arith)
                            requires
                                in_dim == 0,
                        ;
                    }
                }
                match LoraAdapter::new(a, b, in_dim, out_dim, rank, alpha) {
                    Ok(ad) => Some(ad),
                    Err(e) => {
                        return Err(e.message());
                    },
                }
            }
        },
        _ => None,
    };
    match QloraLinear::from_quantized(tensor, adapter) {
        Ok(l) => Ok(l),
        Err(e) => Err(e.message()),
    }
}

} // verus!
