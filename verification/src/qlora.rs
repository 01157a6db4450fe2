//! Fused QLoRA linear layer: quantized base weight + LoRA adapter.
use crate::error;
use crate::error::{sizes_differ, QloraError, QloraErrorView};
use crate::ieee;
use crate::lora;
use crate::lora::{
    add_all, matmul, matmul_trans_a, matmul_trans_b, scale_all, AdapterView, LoraAdapter,
};
use crate::quant;
use crate::quant::{QuantConfig, QuantizedTensor, TensorView};
use crate::single;
use crate::text;
use vstd::prelude::*;
use vstd::string::*;

verus! {

/// Gradients produced by [`QloraLinear::backward`].
///
/// The base weight is frozen (that is the point of QLoRA), so only the
/// adapter gradients are produced, plus `grad_x`, needed to backpropagate
/// into earlier layers.
#[derive(Debug, Clone)]
pub struct QloraGrads {
    /// `dL/dA`, shape `(r, in_dim)`; `None` without an adapter.
    pub grad_a: Option<Vec<u32>>,
    /// `dL/dB`, shape `(out_dim, r)`; `None` without an adapter.
    pub grad_b: Option<Vec<u32>>,
    /// `dL/dX`, shape `(batch, in_dim)`.
    pub grad_x: Vec<u32>,
}

#[verifier::ext_equal]
pub struct GradsView {
    pub grad_a: Option<Seq<u32>>,
    pub grad_b: Option<Seq<u32>>,
    pub grad_x: Seq<u32>,
}

impl View for QloraGrads {
    type V = GradsView;

    open spec fn view(&self) -> GradsView {
        GradsView {
            grad_a: match self.grad_a {
                Some(v) => Some(v@),
                None => None,
            },
            grad_b: match self.grad_b {
                Some(v) => Some(v@),
                None => None,
            },
            grad_x: self.grad_x@,
        }
    }
}

/// Both absent, or equal numbers.
pub open spec fn same_optional(a: Option<Seq<u32>>, b: Option<Seq<u32>>) -> bool {
    match (a, b) {
        (None, None) => true,
        (Some(x), Some(y)) => single::same_numbers(x, y),
        _ => false,
    }
}

impl GradsView {
    /// Equal numbers, absent in the same places.
    pub open spec fn same(self, other: GradsView) -> bool {
        &&& same_optional(self.grad_a, other.grad_a)
        &&& same_optional(self.grad_b, other.grad_b)
        &&& single::same_numbers(self.grad_x, other.grad_x)
    }
}

fn equal_optional(a: &Option<Vec<u32>>, b: &Option<Vec<u32>>) -> (r: bool)
    ensures
        r == same_optional(
            match *a {
                Some(v) => Some(v@),
                None => None,
            },
            match *b {
                Some(v) => Some(v@),
                None => None,
            },
        ),
{
    match (a, b) {
        (None, None) => true,
        (Some(x), Some(y)) => single::equal_lists(x.as_slice(), y.as_slice()),
        _ => false,
    }
}

impl PartialEq for QloraGrads {
    /// Equal numbers, absent in the same places.
    fn eq(&self, other: &Self) -> (r: bool) {
        equal_optional(&self.grad_a, &other.grad_a) && equal_optional(&self.grad_b, &other.grad_b)
            && single::equal_lists(self.grad_x.as_slice(), other.grad_x.as_slice())
    }
}

impl vstd::std_specs::cmp::PartialEqSpecImpl for QloraGrads {
    open spec fn obeys_eq_spec() -> bool {
        true
    }

    open spec fn eq_spec(&self, other: &Self) -> bool {
        self@.same(other@)
    }
}

/// The model of a layer.
#[verifier::ext_equal]
pub struct LayerView {
    pub weight: TensorView,
    pub adapter: Option<AdapterView>,
}

impl LayerView {
    pub open spec fn wf(self) -> bool {
        &&& self.weight.wf()
        &&& self.weight.rows <= usize::MAX
        &&& self.weight.cols <= usize::MAX
        &&& self.adapter matches Some(ad) ==> ad.wf()
    }

    /// Whether the adapter has the dimensions of the weight.
    pub open spec fn fits(self) -> bool {
        self.adapter matches Some(ad) ==> ad.in_dim == self.weight.cols && ad.out_dim
            == self.weight.rows
    }

    /// `X · dequant(W_q)^T`.
    pub open spec fn base(self, x: Seq<u32>, batch: nat) -> Seq<u32> {
        lora::product_of_right(
            x,
            self.weight.values(),
            batch as int,
            self.weight.cols as int,
            self.weight.rows as int,
        )
    }

    /// `X · dequant(W_q)^T + adapter_term(X)`.
    pub open spec fn output(self, x: Seq<u32>, batch: nat) -> Seq<u32> {
        match self.adapter {
            None => self.base(x, batch),
            Some(ad) => lora::added(self.base(x, batch), ad.term(x, batch)),
        }
    }

    /// Gradients for the upstream gradient `dY`: with `s = alpha/r`,
    /// `T1 = X·A^T` and `D = (s·dY)·B` these are `dB = (s·dY)^T·T1`,
    /// `dA = D^T·X` and `dX = dY·W + D·A`.
    pub open spec fn gradients(self, x: Seq<u32>, dy: Seq<u32>, batch: nat) -> GradsView {
        let m = batch as int;
        let (n, k) = (self.weight.rows as int, self.weight.cols as int);
        let base = lora::product_of(dy, self.weight.values(), m, n, k);
        match self.adapter {
            None => GradsView { grad_a: None, grad_b: None, grad_x: base },
            Some(ad) => {
                let r = ad.r as int;
                let dys = lora::scaled(dy, ad.scale());
                let t1 = lora::product_of_right(x, ad.a, m, k, r);
                let d = lora::product_of(dys, ad.b, m, n, r);
                GradsView {
                    grad_a: Some(lora::product_of_left(d, x, m, r, k)),
                    grad_b: Some(lora::product_of_left(dys, t1, m, n, r)),
                    grad_x: lora::added(base, lora::product_of(d, ad.a, m, r, k)),
                }
            },
        }
    }
}

/// A fused QLoRA linear layer.
///
/// Holds the frozen NF4-quantized base weight `W: (out_dim, in_dim)` and an
/// optional trainable [`LoraAdapter`]. Forward computes
///
/// ```text
/// Y = X · dequant(W_q)^T + adapter_term(X)
/// ```
///
/// for `X: (batch, in_dim)`, `Y: (batch, out_dim)`.
#[derive(Debug, Clone)]
pub struct QloraLinear {
    weight: QuantizedTensor,
    adapter: Option<LoraAdapter>,
}

impl View for QloraLinear {
    type V = LayerView;

    closed spec fn view(&self) -> LayerView {
        LayerView {
            weight: self.weight@,
            adapter: adapter_view(self.adapter),
        }
    }
}

pub open spec fn adapter_view(ad: Option<LoraAdapter>) -> Option<AdapterView> {
    match ad {
        Some(a) => Some(a@),
        None => None,
    }
}

/// The error for an adapter `(out, in)` beside a weight `(rows, cols)`.
pub open spec fn adapter_mismatch(out_dim: nat, in_dim: nat, rows: nat, cols: nat) -> Seq<char> {
    "adapter ("@ + text::decimal(out_dim) + ", "@ + text::decimal(in_dim) + ") vs weight ("@
        + text::decimal(rows) + ", "@ + text::decimal(cols) + ")"@
}

impl QloraLinear {
    /// Builds a layer from a base weight (quantized immediately) and an
    /// optional adapter.
    pub fn new(
        weight: &[u32],
        out_dim: usize,
        in_dim: usize,
        quant: &QuantConfig,
        adapter: Option<LoraAdapter>,
    ) -> (r: Result<QloraLinear, QloraError>)
        requires
            adapter matches Some(ad) ==> ad@.wf(),
        ensures
            if quant.block_size == 0 {
                r matches Err(e) && e@ == QloraErrorView::InvalidConfig("block_size must be > 0"@)
            } else if out_dim * in_dim > usize::MAX {
                r matches Err(e) && e@ == QloraErrorView::InvalidConfig("rows*cols overflow"@)
            } else if weight@.len() != out_dim * in_dim {
                r matches Err(e) && e@ == QloraErrorView::ShapeMismatch(
                    error::disagreement(
                        "weights.len()"@,
                        weight@.len(),
                        "rows*cols"@,
                        (out_dim * in_dim) as nat,
                    ),
                )
            } else if adapter is Some && adapter->0@.in_dim != in_dim {
                r matches Err(e) && e@ == QloraErrorView::ShapeMismatch(
                    error::disagreement(
                        "adapter in_dim"@,
                        adapter->0@.in_dim,
                        "layer in_dim"@,
                        in_dim as nat,
                    ),
                )
            } else if adapter is Some && adapter->0@.out_dim != out_dim {
                r matches Err(e) && e@ == QloraErrorView::ShapeMismatch(
                    error::disagreement(
                        "adapter out_dim"@,
                        adapter->0@.out_dim,
                        "layer out_dim"@,
                        out_dim as nat,
                    ),
                )
            } else {
                r matches Ok(l) && l@.wf() && l@.fits() && l@ == (LayerView {
                    weight: quant::quantized(weight@, out_dim as nat, in_dim as nat, *quant),
                    adapter: adapter_view(adapter),
                })
            },
    {
        let weight = match QuantizedTensor::quantize(weight, out_dim, in_dim, quant) {
            Ok(w) => w,
            Err(e) => {
                return Err(e);
            },
        };
        match &adapter {
            Some(ad) => {
                if ad.in_dim() != in_dim {
                    return Err(
                        sizes_differ("adapter in_dim", ad.in_dim(), "layer in_dim", in_dim),
                    );
                }
                if ad.out_dim() != out_dim {
                    return Err(
                        sizes_differ("adapter out_dim", ad.out_dim(), "layer out_dim", out_dim),
                    );
                }
            },
            None => {},
        }
        Ok(QloraLinear { weight, adapter })
    }

    /// Rebuilds a layer from an already-quantized weight.
    pub fn from_quantized(weight: QuantizedTensor, adapter: Option<LoraAdapter>) -> (r: Result<
        QloraLinear,
        QloraError,
    >)
        requires
            weight@.wf(),
            adapter matches Some(ad) ==> ad@.wf(),
        ensures
            if adapter is Some && (adapter->0@.in_dim != weight@.cols || adapter->0@.out_dim
                != weight@.rows) {
                r matches Err(e) && e@ == QloraErrorView::ShapeMismatch(
                    adapter_mismatch(
                        adapter->0@.out_dim,
                        adapter->0@.in_dim,
                        weight@.rows,
                        weight@.cols,
                    ),
                )
            } else {
                r matches Ok(l) && l@.wf() && l@.fits() && l@ == (LayerView {
                    weight: weight@,
                    adapter: adapter_view(adapter),
                })
            },
    {
        let (rows, cols): (usize, usize) = (weight.rows(), weight.cols());
        match &adapter {
            Some(ad) => {
                if ad.in_dim() != cols || ad.out_dim() != rows {
                    let mut m = "adapter (".to_owned();
                    text::push_decimal(&mut m, ad.out_dim() as u64);
                    m.append(", ");
                    text::push_decimal(&mut m, ad.in_dim() as u64);
                    m.append(") vs weight (");
                    text::push_decimal(&mut m, rows as u64);
                    m.append(", ");
                    text::push_decimal(&mut m, cols as u64);
                    m.append(")");
                    return Err(QloraError::ShapeMismatch(m));
                }
            },
            None => {},
        }
        Ok(QloraLinear { weight, adapter })
    }

    /// Fused forward for `X: (batch, in_dim)` row-major.
    pub fn forward(&self, x: &[u32], batch: usize) -> (r: Result<Vec<u32>, QloraError>)
        requires
            self@.wf(),
            batch * self@.weight.cols <= usize::MAX,
            x@.len() == batch * self@.weight.cols ==> {
                &&& batch * self@.weight.rows <= usize::MAX
                &&& self@.adapter matches Some(ad) ==> {
                    &&& batch * ad.in_dim <= usize::MAX
                    &&& x@.len() == batch * ad.in_dim ==> batch * ad.r <= usize::MAX && batch
                        * ad.out_dim <= usize::MAX
                }
            },
        ensures
            if x@.len() != batch * self@.weight.cols {
                r matches Err(e) && e@ == QloraErrorView::ShapeMismatch(
                    error::disagreement(
                        "x.len()"@,
                        x@.len(),
                        "batch*in_dim"@,
                        batch as nat * self@.weight.cols,
                    ),
                )
            } else if self@.adapter is Some && x@.len() != batch * self@.adapter->0.in_dim {
                r matches Err(e) && e@ == QloraErrorView::ShapeMismatch(
                    error::disagreement(
                        "x.len()"@,
                        x@.len(),
                        "batch*in_dim"@,
                        batch as nat * self@.adapter->0.in_dim,
                    ),
                )
            } else {
                r matches Ok(y) && y@ == self@.output(x@, batch as nat)
            },
    {
        let in_dim: usize = self.weight.cols();
        let out_dim: usize = self.weight.rows();
        if x.len() != batch * in_dim {
            return Err(sizes_differ("x.len()", x.len(), "batch*in_dim", batch * in_dim));
        }
        // Base term with the dequantized weight.
        let w = self.weight.dequantize();
        let y = matmul_trans_b(x, w.as_slice(), batch, in_dim, out_dim);
        // Adapter term.
        match &self.adapter {
            None => Ok(y),
            Some(ad) => match ad.forward(x, batch) {
                Ok(d) => Ok(add_all(y.as_slice(), d.as_slice())),
                Err(e) => Err(e),
            },
        }
    }

    /// Backward pass for training the adapter.
    ///
    /// Given the layer input `X: (batch, in_dim)` and the upstream gradient
    /// `dY = dL/dY: (batch, out_dim)`, computes gradients w.r.t. the LoRA
    /// matrices and w.r.t. the input. The quantized base weight gets no
    /// gradient.
    pub fn backward(&self, x: &[u32], dy: &[u32], batch: usize) -> (r: Result<
        QloraGrads,
        QloraError,
    >)
        requires
            self@.wf(),
            self@.fits(),
            batch * self@.weight.cols <= usize::MAX,
            x@.len() == batch * self@.weight.cols ==> {
                &&& batch * self@.weight.rows <= usize::MAX
                &&& dy@.len() == batch * self@.weight.rows ==> (self@.adapter matches Some(ad)
                    ==> batch * ad.r <= usize::MAX)
            },
        ensures
            if x@.len() != batch * self@.weight.cols {
                r matches Err(e) && e@ == QloraErrorView::ShapeMismatch(
                    error::disagreement(
                        "x.len()"@,
                        x@.len(),
                        "batch*in_dim"@,
                        batch as nat * self@.weight.cols,
                    ),
                )
            } else if dy@.len() != batch * self@.weight.rows {
                r matches Err(e) && e@ == QloraErrorView::ShapeMismatch(
                    error::disagreement(
                        "dy.len()"@,
                        dy@.len(),
                        "batch*out_dim"@,
                        batch as nat * self@.weight.rows,
                    ),
                )
            } else {
                r matches Ok(g) && g@ == self@.gradients(x@, dy@, batch as nat)
            },
    {
        let in_dim: usize = self.weight.cols();
        let out_dim: usize = self.weight.rows();
        if x.len() != batch * in_dim {
            return Err(sizes_differ("x.len()", x.len(), "batch*in_dim", batch * in_dim));
        }
        if dy.len() != batch * out_dim {
            return Err(sizes_differ("dy.len()", dy.len(), "batch*out_dim", batch * out_dim));
        }
        let w = self.weight.dequantize();
        // Base term of dX (LoRA term added below when present).
        let base = matmul(dy, w.as_slice(), batch, out_dim, in_dim);
        match &self.adapter {
            None => Ok(QloraGrads { grad_a: None, grad_b: None, grad_x: base }),
            Some(ad) => {
                let r: usize = ad.rank();
                let (la, lb): (usize, usize) = (ad.a().len(), ad.b().len());
                // Pre-scale dY once; every adapter term carries the factor s.
                let dys = scale_all(dy, ad.scale());
                // T1 = X · A^T : (batch, r)
                let t1 = matmul_trans_b(x, ad.a(), batch, in_dim, r);
                // dB = dYs^T · T1 : (out_dim, r)
                let grad_b = matmul_trans_a(dys.as_slice(), t1.as_slice(), batch, out_dim, r);
                // Ds = dYs · B : (batch, r)
                let ds = matmul(dys.as_slice(), ad.b(), batch, out_dim, r);
                // dA = Ds^T · X : (r, in_dim)
                let grad_a = matmul_trans_a(ds.as_slice(), x, batch, r, in_dim);
                // dX += Ds · A : (batch, in_dim)
                let dx_lora = matmul(ds.as_slice(), ad.a(), batch, r, in_dim);
                let grad_x = add_all(base.as_slice(), dx_lora.as_slice());
                Ok(QloraGrads { grad_a: Some(grad_a), grad_b: Some(grad_b), grad_x })
            },
        }
    }

    pub fn weight(&self) -> (r: &QuantizedTensor)
        ensures
            r@ == self@.weight,
    {
        &self.weight
    }

    pub fn adapter(&self) -> (r: Option<&LoraAdapter>)
        ensures
            match r {
                Some(ad) => self@.adapter == Some(ad@),
                None => self@.adapter is None,
            },
    {
        match &self.adapter {
            Some(ad) => Some(ad),
            None => None,
        }
    }

    /// Mutable access to the adapter for optimizer updates.
    pub fn adapter_mut(&mut self) -> (r: Option<&mut LoraAdapter>)
        ensures
            match r {
                Some(ad) => {
                    &&& old(self)@.adapter == Some(ad@)
                    &&& final(self)@ == (LayerView {
                        adapter: Some(final(ad)@),
                        ..old(self)@
                    })
                },
                None => old(self)@.adapter is None && final(self)@ == old(self)@,
            },
    {
        match &mut self.adapter {
            Some(ad) => Some(ad),
            None => None,
        }
    }

    pub fn in_dim(&self) -> (r: usize)
        ensures
            r == self@.weight.cols,
    {
        self.weight.cols()
    }

    pub fn out_dim(&self) -> (r: usize)
        ensures
            r == self@.weight.rows,
    {
        self.weight.rows()
    }
}


/// Whether every element is a zero.
pub open spec fn all_zero(s: Seq<u32>) -> bool {
    forall|i: int| 0 <= i < s.len() ==> single::mag(#[trigger] s[i]) == 0
}

pub open spec fn all_finite(s: Seq<u32>) -> bool {
    forall|i: int| 0 <= i < s.len() ==> single::is_finite(#[trigger] s[i])
}

/// A finite number times a zero is a zero.
proof fn lemma_times_zero(x: u32, z: u32)
    requires
        single::is_finite(x),
        single::mag(z) == 0,
    ensures
        single::mag(single::product(x, z)) == 0,
        single::mag(single::product(z, x)) == 0,
{
    let h = single::HALF as nat;
    let p = vstd::arithmetic::power2::pow2(149);
    vstd::arithmetic::power2::lemma_pow2_pos(149);
    assert(single::magnitude(z) == 0);
    assert(single::magnitude(x) * 0 == 0);
    assert(0 * single::magnitude(x) == 0);
    ieee::lemma_div_unique(0, p, 0, 0);
    assert(2 * h * p > 0) by (nonlinear_arith)
        requires
            h > 0,
            p > 0,
    ;
    assert(ieee::encode(0, p, h) == 0);
}

/// Positive zero plus a zero is positive zero.
proof fn lemma_zero_plus(z: u32)
    requires
        single::mag(z) == 0,
    ensures
        single::sum(0, z) == 0,
{
    assert(single::magnitude(z) == 0);
    assert(single::magnitude(0) == 0);
}

/// Finite numbers against zeros.
proof fn lemma_dot_zero(x: Seq<u32>, y: Seq<u32>)
    requires
        x.len() == y.len(),
        all_finite(x),
        all_zero(y),
    ensures
        lora::dot(x, y) == 0,
    decreases x.len(),
{
    if x.len() > 0 {
        let (a, b) = (x.drop_last(), y.drop_last());
        assert forall|i: int| 0 <= i < a.len() implies single::is_finite(#[trigger] a[i]) by {
            assert(a[i] == x[i]);
        }
        assert forall|i: int| 0 <= i < b.len() implies single::mag(#[trigger] b[i]) == 0 by {
            assert(b[i] == y[i]);
        }
        lemma_dot_zero(a, b);
        assert(single::is_finite(x[x.len() - 1]));
        assert(single::mag(y[y.len() - 1]) == 0);
        lemma_times_zero(x.last(), y.last());
        lemma_zero_plus(single::product(x.last(), y.last()));
    }
}

/// Adding a zero to a number leaves it the same number.
proof fn lemma_plus_zero(y: u32, z: u32)
    requires
        single::mag(z) == 0,
        !single::is_nan(y),
    ensures
        single::same_number(single::sum(y, z), y),
{
    let h = single::HALF as nat;
    assert(single::magnitude(z) == 0);
    if single::is_finite(y) {
        let u = single::magnitude(y);
        if single::value(y) != 0 {
            ieee::lemma_encode_units(single::mag(y), h);
            assert(single::sum(y, z) == single::with_sign(
                single::is_negative(y),
                single::mag(y),
            ));
        } else if single::mag(y) > 0 {
            if single::mag(y) >= h {
                ieee::lemma_units_lower(single::mag(y), h);
            }
        }
    }
}

/// An adapter whose `B` is zero contributes nothing: each output that is a
/// number is the number that the base weight alone gives, where `X · A^T` and
/// the scaling factor are finite.
pub proof fn lemma_zero_adapter(l: LayerView, x: Seq<u32>, batch: nat, i: int)
    requires
        l.wf(),
        l.adapter is Some,
        all_zero(l.adapter->0.b),
        single::is_finite(l.adapter->0.scale()),
        all_finite(
            lora::product_of_right(
                x,
                l.adapter->0.a,
                batch as int,
                l.adapter->0.in_dim as int,
                l.adapter->0.r as int,
            ),
        ),
        0 <= i < l.base(x, batch).len(),
        !single::is_nan(l.base(x, batch)[i]),
    ensures
        single::same_number(l.output(x, batch)[i], l.base(x, batch)[i]),
{
    let ad = l.adapter->0;
    let t1 = lora::product_of_right(x, ad.a, batch as int, ad.in_dim as int, ad.r as int);
    let t2 = lora::product_of_right(t1, ad.b, batch as int, ad.r as int, ad.out_dim as int);
    let term = ad.term(x, batch);
    let y = l.base(x, batch)[i];
    if i < term.len() {
        let (m, r, n) = (batch as int, ad.r as int, ad.out_dim as int);
        lora::lemma_cell(i, m, n);
        let (p, q) = (i / n, i % n);
        let (a, b) = (lora::row(t1, p, r), lora::row(ad.b, q, r));
        assert forall|j: int| 0 <= j < r implies single::is_finite(#[trigger] a[j]) by {
            lora::lemma_position(p, j, m, r);
            assert(single::is_finite(t1[p * r + j]));
        }
        assert forall|j: int| 0 <= j < r implies single::mag(#[trigger] b[j]) == 0 by {
            lora::lemma_position(q, j, n, r);
            assert(single::mag(ad.b[q * r + j]) == 0);
        }
        lemma_dot_zero(a, b);
        assert(t2[i] == 0);
        lemma_times_zero(ad.scale(), 0);
        lemma_plus_zero(y, term[i]);
    }
}

} // verus!
