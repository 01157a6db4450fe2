//! Planning and composing of GPU kernels.
//!
//! The kernels themselves run wherever the functions of a [`GpuContext`] take
//! them; every function here takes `Option<&GpuContext>`: `None` computes on
//! the CPU, so one code path serves both GPU machines and headless ones. What
//! a kernel answers is handed on as it comes: nothing is claimed of its
//! arithmetic.
use crate::error;
use crate::error::{sizes_differ, QloraError, QloraErrorView};
use crate::lora;
use crate::lora::{add_all, matmul, matmul_trans_a, matmul_trans_b, scale_all};
use crate::qlora::{GradsView, LayerView, QloraGrads, QloraLinear};
use crate::quant;
use crate::quant::{QuantizedTensor, TensorView, NF4_LEVELS};
use crate::text;
use vstd::prelude::*;
use vstd::string::*;

verus! {

/// Elements per workgroup of the dequantization kernel.
pub const DEQUANT_WORKGROUP: usize = 256;

/// Rows and columns of a GEMM tile.
pub const TILE: usize = 16;

/// A dequantization for the GPU.
#[derive(Debug, Clone)]
pub struct DequantJob {
    /// Packed codes, filled up with zeros to whole words.
    pub codes: Vec<u8>,
    pub scales: Vec<u32>,
    /// The NF4 codebook.
    pub levels: Vec<u32>,
    pub n: u32,
    pub block_size: u32,
    /// Workgroups to dispatch.
    pub groups: u32,
    /// Elements to read back.
    pub len: usize,
}

#[verifier::ext_equal]
pub struct DequantJobView {
    pub codes: Seq<u8>,
    pub scales: Seq<u32>,
    pub levels: Seq<u32>,
    pub n: u32,
    pub block_size: u32,
    pub groups: u32,
    pub len: usize,
}

impl View for DequantJob {
    type V = DequantJobView;

    open spec fn view(&self) -> DequantJobView {
        DequantJobView {
            codes: self.codes@,
            scales: self.scales@,
            levels: self.levels@,
            n: self.n,
            block_size: self.block_size,
            groups: self.groups,
            len: self.len,
        }
    }
}

/// Which product a GEMM computes.
#[derive(Debug, Clone, Copy, PartialEq, Eq, Structural)]
pub enum Gemm {
    /// `C = A · B`.
    Nn,
    /// `C = A · B^T`.
    Nt,
    /// `C = A^T · B`.
    Tn,
}

/// A product for the GPU: `m x n` outputs with inner dimension `k`.
#[derive(Debug, Clone, Copy)]
pub struct GemmJob<'a> {
    pub kind: Gemm,
    pub a: &'a [u32],
    pub b: &'a [u32],
    pub m: u32,
    pub n: u32,
    pub k: u32,
    /// Workgroups to dispatch across and down.
    pub groups_x: u32,
    pub groups_y: u32,
    /// Elements to read back.
    pub len: usize,
}

#[verifier::ext_equal]
pub struct GemmJobView {
    pub kind: Gemm,
    pub a: Seq<u32>,
    pub b: Seq<u32>,
    pub m: u32,
    pub n: u32,
    pub k: u32,
    pub groups_x: u32,
    pub groups_y: u32,
    pub len: usize,
}

impl<'a> View for GemmJob<'a> {
    type V = GemmJobView;

    open spec fn view(&self) -> GemmJobView {
        GemmJobView {
            kind: self.kind,
            a: self.a@,
            b: self.b@,
            m: self.m,
            n: self.n,
            k: self.k,
            groups_x: self.groups_x,
            groups_y: self.groups_y,
            len: self.len,
        }
    }
}

/// A ready-to-dispatch GPU: the functions that run its kernels.
///
/// Where there is no usable adapter there is no context, and callers compute
/// on the CPU.
pub struct GpuContext<D, G> {
    pub dequantize: D,
    pub gemm: G,
}

/// A result with its contents as models.
pub open spec fn answer_view(r: Result<Vec<u32>, QloraError>) -> Result<Seq<u32>, QloraErrorView> {
    match r {
        Ok(v) => Ok(v@),
        Err(e) => Err(e@),
    }
}

/// Workgroups that cover `n` elements, `size` at a time, at least one.
pub open spec fn groups_for(n: usize, size: nat) -> u32 {
    let g = quant::ceil_div(n as nat, size) as usize as u32;
    if g == 0 {
        1
    } else {
        g
    }
}

/// Workgroups that cover `n` elements, `size` at a time, at least one.
fn groups(n: usize, size: usize) -> (r: u32)
    requires
        size > 0,
    ensures
        r == groups_for(n, size as nat),
{
    let g: u32 = quant::div_up(n, size) as u32;
    if g == 0 {
        1
    } else {
        g
    }
}

/// Codes filled up with zeros to a whole number of words.
pub open spec fn padded(codes: Seq<u8>) -> Seq<u8> {
    codes + Seq::new(((4 - codes.len() % 4) % 4) as nat, |i: int| 0u8)
}

/// The job for a tensor.
pub open spec fn dequant_job(q: TensorView) -> DequantJobView {
    let n = q.len() as usize;
    DequantJobView {
        codes: padded(q.codes),
        scales: q.scales.scales(),
        levels: NF4_LEVELS@,
        n: n as u32,
        block_size: q.block_size as usize as u32,
        groups: groups_for(n, DEQUANT_WORKGROUP as nat),
        len: n,
    }
}

/// The job for a product of `a` and `b` with `m x n` outputs.
pub open spec fn gemm_job(
    kind: Gemm,
    a: Seq<u32>,
    b: Seq<u32>,
    m: usize,
    n: usize,
    k: usize,
) -> GemmJobView {
    GemmJobView {
        kind,
        a,
        b,
        m: m as u32,
        n: n as u32,
        k: k as u32,
        groups_x: groups_for(n, TILE as nat),
        groups_y: groups_for(m, TILE as nat),
        len: (m * n) as usize,
    }
}

/// Whether `r` is what the context's dequantization gives for a tensor.
pub open spec fn is_dequantized<D: Fn(&DequantJob) -> Result<Vec<u32>, QloraError>, G>(
    ctx: GpuContext<D, G>,
    q: TensorView,
    r: Result<Seq<u32>, QloraErrorView>,
) -> bool {
    if q.len() == 0 {
        r == Ok::<Seq<u32>, QloraErrorView>(seq![])
    } else {
        exists|job: DequantJob, answer: Result<Vec<u32>, QloraError>|
            {
                &&& job@ == dequant_job(q)
                &&& #[trigger] call_ensures(ctx.dequantize, (&job,), answer)
                &&& answer_view(answer) == r
            }
    }
}

/// The message for operands of the wrong size.
pub open spec fn operand_mismatch(
    name: Seq<char>,
    a: nat,
    b: nat,
    a_dims: (nat, nat),
    b_dims: (nat, nat),
) -> Seq<char> {
    name + ": a.len() = "@ + text::decimal(a) + ", b.len() = "@ + text::decimal(b) + ", expected "@
        + text::decimal(a_dims.0) + "*"@ + text::decimal(a_dims.1) + " and "@ + text::decimal(
        b_dims.0,
    ) + "*"@ + text::decimal(b_dims.1)
}

/// Whether `r` is what the context's GEMM gives for a product, unless there is
/// nothing to compute or the operands have the wrong size.
pub open spec fn is_gemm<D, G: Fn(&GemmJob) -> Result<Vec<u32>, QloraError>>(
    ctx: GpuContext<D, G>,
    kind: Gemm,
    a: Seq<u32>,
    b: Seq<u32>,
    m: usize,
    k: usize,
    n: usize,
    r: Result<Seq<u32>, QloraErrorView>,
) -> bool {
    let (rows, a_dims, b_dims, inner, name) = match kind {
        Gemm::Nn => (m, (m, k), (k, n), k, "gpu_matmul"@),
        Gemm::Nt => (m, (m, k), (n, k), k, "gpu_matmul_trans_b"@),
        Gemm::Tn => (k, (m, k), (m, n), m, "gpu_matmul_trans_a"@),
    };
    if rows == 0 || n == 0 {
        r == Ok::<Seq<u32>, QloraErrorView>(seq![])
    } else if a.len() != a_dims.0 * a_dims.1 || b.len() != b_dims.0 * b_dims.1 {
        r == Err::<Seq<u32>, QloraErrorView>(
            QloraErrorView::ShapeMismatch(
                operand_mismatch(
                    name,
                    a.len(),
                    b.len(),
                    (a_dims.0 as nat, a_dims.1 as nat),
                    (b_dims.0 as nat, b_dims.1 as nat),
                ),
            ),
        )
    } else {
        exists|job: GemmJob, answer: Result<Vec<u32>, QloraError>|
            {
                &&& job@ == gemm_job(kind, a, b, rows, n, inner)
                &&& #[trigger] call_ensures(ctx.gemm, (&job,), answer)
                &&& answer_view(answer) == r
            }
    }
}

/// Codes filled up with zeros to a whole number of words.
fn pad(codes: &[u8]) -> (r: Vec<u8>)
    ensures
        r@ == padded(codes@),
{
    let mut out: Vec<u8> = Vec::new();
    out.extend_from_slice(codes);
    let more: usize = (4 - codes.len() % 4) % 4;
    let mut i: usize = 0;
    assert(out@ =~= codes@ + Seq::new(0, |i: int| 0u8));
    while i < more
        invariant
            i <= more,
            out@ == codes@ + Seq::new(i as nat, |i: int| 0u8),
        decreases more - i,
    {
        out.push(0);
        i = i + 1;
        assert(out@ =~= codes@ + Seq::new(i as nat, |i: int| 0u8));
    }
    out
}

/// GPU dequantize of `q` (`None` context -> CPU).
pub fn gpu_dequantize<D: Fn(&DequantJob) -> Result<Vec<u32>, QloraError>, G>(
    ctx: Option<&GpuContext<D, G>>,
    q: &QuantizedTensor,
) -> (r: Result<Vec<u32>, QloraError>)
    requires
        q@.wf(),
        ctx matches Some(c) ==> forall|job: &DequantJob| #[trigger] c.dequantize.requires((job,)),
    ensures
        match ctx {
            None => r matches Ok(v) && v@ == q@.values(),
            Some(c) => is_dequantized(*c, q@, answer_view(r)),
        },
{
    let c = match ctx {
        None => {
            return Ok(q.dequantize());
        },
        Some(c) => c,
    };
    let n: usize = q.num_elements();
    if n == 0 {
        let v: Vec<u32> = Vec::new();
        assert(v@ =~= seq![]);
        return Ok(v);
    }
    let mut levels: Vec<u32> = Vec::new();
    let lut: [u32; 16] = NF4_LEVELS;
    levels.extend_from_slice(&lut);
    assert(levels@ =~= NF4_LEVELS@);
    let job = DequantJob {
        codes: pad(q.codes()),
        scales: q.block_scales(),
        levels,
        n: n as u32,
        block_size: q.block_size() as u32,
        groups: groups(n, DEQUANT_WORKGROUP),
        len: n,
    };
    assert(job@ =~= dequant_job(q@));
    (c.dequantize)(&job)
}

/// An error for operands of the wrong size.
fn operands_differ(
    name: &str,
    a: usize,
    b: usize,
    a_dims: (usize, usize),
    b_dims: (usize, usize),
) -> (r: QloraError)
    ensures
        r@ == QloraErrorView::ShapeMismatch(
            operand_mismatch(
                name@,
                a as nat,
                b as nat,
                (a_dims.0 as nat, a_dims.1 as nat),
                (b_dims.0 as nat, b_dims.1 as nat),
            ),
        ),
{
    let mut t = name.to_owned();
    t.append(": a.len() = ");
    text::push_decimal(&mut t, a as u64);
    t.append(", b.len() = ");
    text::push_decimal(&mut t, b as u64);
    t.append(", expected ");
    text::push_decimal(&mut t, a_dims.0 as u64);
    t.append("*");
    text::push_decimal(&mut t, a_dims.1 as u64);
    t.append(" and ");
    text::push_decimal(&mut t, b_dims.0 as u64);
    t.append("*");
    text::push_decimal(&mut t, b_dims.1 as u64);
    QloraError::ShapeMismatch(t)
}

/// Plans a product with `m x n` outputs and inner dimension `k`.
pub fn plan_gemm<'a>(kind: Gemm, a: &'a [u32], b: &'a [u32], m: usize, n: usize, k: usize) -> (r:
    GemmJob<'a>)
    requires
        m * n <= usize::MAX,
    ensures
        r@ == gemm_job(kind, a@, b@, m, n, k),
{
    GemmJob {
        kind,
        a,
        b,
        m: m as u32,
        n: n as u32,
        k: k as u32,
        groups_x: groups(n, TILE),
        groups_y: groups(m, TILE),
        len: m * n,
    }
}

/// Whether the sizes of operands can be computed, each as far as those before
/// it are right, and then the `outputs`.
pub open spec fn operands_fit(
    a: nat,
    a_dims: (usize, usize),
    b: nat,
    b_dims: (usize, usize),
    outputs: int,
) -> bool {
    &&& a_dims.0 * a_dims.1 <= usize::MAX
    &&& a == a_dims.0 * a_dims.1 ==> {
        &&& b_dims.0 * b_dims.1 <= usize::MAX
        &&& b == b_dims.0 * b_dims.1 ==> outputs <= usize::MAX
    }
}

/// Tiled GPU `C = A · B` with `A: (m, k)`, `B: (k, n)` row-major
/// (`None` context -> CPU).
pub fn gpu_matmul<D, G: Fn(&GemmJob) -> Result<Vec<u32>, QloraError>>(
    ctx: Option<&GpuContext<D, G>>,
    a: &[u32],
    b: &[u32],
    m: usize,
    k: usize,
    n: usize,
) -> (r: Result<Vec<u32>, QloraError>)
    requires
        match ctx {
            None => a@.len() == m * k && b@.len() == k * n && m * n <= usize::MAX,
            Some(c) => {
                &&& forall|job: &GemmJob| #[trigger] c.gemm.requires((job,))
                &&& m > 0 && n > 0 ==> operands_fit(a@.len(), (m, k), b@.len(), (k, n), m * n)
            },
        },
    ensures
        match ctx {
            None => r matches Ok(v) && v@ == lora::product_of(a@, b@, m as int, k as int, n as int),
            Some(c) => is_gemm(*c, Gemm::Nn, a@, b@, m, k, n, answer_view(r)),
        },
{
    let c = match ctx {
        None => {
            return Ok(matmul(a, b, m, k, n));
        },
        Some(c) => c,
    };
    if m == 0 || n == 0 {
        let v: Vec<u32> = Vec::new();
        assert(v@ =~= seq![]);
        return Ok(v);
    }
    if a.len() != m * k || b.len() != k * n {
        return Err(
            operands_differ("gpu_matmul", a.len(), b.len(), (m, k), (k, n)),
        );
    }
    let job = plan_gemm(Gemm::Nn, a, b, m, n, k);
    (c.gemm)(&job)
}

/// Tiled GPU `C = A · B^T` with `A: (m, k)`, `B: (n, k)` row-major
/// (`None` context -> CPU).
pub fn gpu_matmul_trans_b<D, G: Fn(&GemmJob) -> Result<Vec<u32>, QloraError>>(
    ctx: Option<&GpuContext<D, G>>,
    a: &[u32],
    b: &[u32],
    m: usize,
    k: usize,
    n: usize,
) -> (r: Result<Vec<u32>, QloraError>)
    requires
        match ctx {
            None => a@.len() == m * k && b@.len() == n * k && m * n <= usize::MAX,
            Some(c) => {
                &&& forall|job: &GemmJob| #[trigger] c.gemm.requires((job,))
                &&& m > 0 && n > 0 ==> operands_fit(a@.len(), (m, k), b@.len(), (n, k), m * n)
            },
        },
    ensures
        match ctx {
            None => r matches Ok(v) && v@ == lora::product_of_right(a@, b@, m as int, k as int, n as int),
            Some(c) => is_gemm(*c, Gemm::Nt, a@, b@, m, k, n, answer_view(r)),
        },
{
    let c = match ctx {
        None => {
            return Ok(matmul_trans_b(a, b, m, k, n));
        },
        Some(c) => c,
    };
    if m == 0 || n == 0 {
        let v: Vec<u32> = Vec::new();
        assert(v@ =~= seq![]);
        return Ok(v);
    }
    if a.len() != m * k || b.len() != n * k {
        return Err(
            operands_differ("gpu_matmul_trans_b", a.len(), b.len(), (m, k), (n, k)),
        );
    }
    let job = plan_gemm(Gemm::Nt, a, b, m, n, k);
    (c.gemm)(&job)
}

/// Tiled GPU `C = A^T · B` with `A: (m, k)`, `B: (m, n)`, `C: (k, n)`
/// (`None` context -> CPU).
pub fn gpu_matmul_trans_a<D, G: Fn(&GemmJob) -> Result<Vec<u32>, QloraError>>(
    ctx: Option<&GpuContext<D, G>>,
    a: &[u32],
    b: &[u32],
    m: usize,
    k: usize,
    n: usize,
) -> (r: Result<Vec<u32>, QloraError>)
    requires
        match ctx {
            None => a@.len() == m * k && b@.len() == m * n && k * n <= usize::MAX,
            Some(c) => {
                &&& forall|job: &GemmJob| #[trigger] c.gemm.requires((job,))
                &&& k > 0 && n > 0 ==> operands_fit(a@.len(), (m, k), b@.len(), (m, n), k * n)
            },
        },
    ensures
        match ctx {
            None => r matches Ok(v) && v@ == lora::product_of_left(a@, b@, m as int, k as int, n as int),
            Some(c) => is_gemm(*c, Gemm::Tn, a@, b@, m, k, n, answer_view(r)),
        },
{
    let c = match ctx {
        None => {
            return Ok(matmul_trans_a(a, b, m, k, n));
        },
        Some(c) => c,
    };
    if k == 0 || n == 0 {
        let v: Vec<u32> = Vec::new();
        assert(v@ =~= seq![]);
        return Ok(v);
    }
    if a.len() != m * k || b.len() != m * n {
        return Err(
            operands_differ("gpu_matmul_trans_a", a.len(), b.len(), (m, k), (m, n)),
        );
    }
    let job = plan_gemm(Gemm::Tn, a, b, k, n, m);
    (c.gemm)(&job)
}

/// What the kernels of a forward pass answered, as far as it came.
#[verifier::ext_equal]
pub struct ForwardTrace {
    pub weight: Result<Seq<u32>, QloraErrorView>,
    pub base: Result<Seq<u32>, QloraErrorView>,
    pub t1: Result<Seq<u32>, QloraErrorView>,
    pub t2: Result<Seq<u32>, QloraErrorView>,
}

impl ForwardTrace {
    /// Whether each kernel was handed what the pass calls for.
    pub open spec fn answered<
        D: Fn(&DequantJob) -> Result<Vec<u32>, QloraError>,
        G: Fn(&GemmJob) -> Result<Vec<u32>, QloraError>,
    >(self, ctx: GpuContext<D, G>, l: LayerView, x: Seq<u32>, batch: usize) -> bool {
        let (n, k) = (l.weight.rows as usize, l.weight.cols as usize);
        &&& is_dequantized(ctx, l.weight, self.weight)
        &&& self.weight matches Ok(w) ==> is_gemm(ctx, Gemm::Nt, x, w, batch, k, n, self.base)
        &&& (self.weight is Ok && self.base is Ok && l.adapter is Some) ==> {
            let ad = l.adapter->0;
            let r = ad.r as usize;
            &&& is_gemm(
                ctx,
                Gemm::Nt,
                x,
                lora::scaled(ad.a, ad.scale()),
                batch,
                k,
                r,
                self.t1,
            )
            &&& self.t1 matches Ok(t1) ==> is_gemm(ctx, Gemm::Nt, t1, ad.b, batch, r, n, self.t2)
        }
    }

    /// The outcome: the base plus the adapter's branch, or the first failure.
    pub open spec fn outcome(self, l: LayerView) -> Result<Seq<u32>, QloraErrorView> {
        match (self.weight, self.base) {
            (Err(e), _) => Err(e),
            (_, Err(e)) => Err(e),
            (_, Ok(y)) => if l.adapter is None {
                Ok(y)
            } else {
                match (self.t1, self.t2) {
                    (Err(e), _) => Err(e),
                    (_, Err(e)) => Err(e),
                    (_, Ok(t)) => Ok(lora::added(y, t)),
                }
            },
        }
    }
}

/// Whether the products of a forward pass over `batch` rows can be held, where
/// the input has the right size.
pub open spec fn forward_fits(l: LayerView, x: nat, batch: usize) -> bool {
    &&& batch * l.weight.cols <= usize::MAX
    &&& x == batch * l.weight.cols ==> {
        &&& batch * l.weight.rows <= usize::MAX
        &&& l.adapter matches Some(ad) ==> batch * ad.r <= usize::MAX
    }
}

/// Whether the products of a backward pass over `batch` rows can be held, where
/// the input and the upstream gradients have the right sizes.
pub open spec fn backward_fits(l: LayerView, x: nat, dy: nat, batch: usize) -> bool {
    &&& batch * l.weight.cols <= usize::MAX
    &&& x == batch * l.weight.cols ==> {
        &&& batch * l.weight.rows <= usize::MAX
        &&& dy == batch * l.weight.rows ==> (l.adapter matches Some(ad) ==> batch * ad.r
            <= usize::MAX)
    }
}

/// The failure for an input of the wrong size.
pub open spec fn input_mismatch(x: nat, batch: nat, cols: nat) -> QloraErrorView {
    QloraErrorView::ShapeMismatch(
        error::disagreement("x.len()"@, x, "batch*in_dim"@, batch * cols),
    )
}

/// The failure for upstream gradients of the wrong size.
pub open spec fn upstream_mismatch(dy: nat, batch: nat, rows: nat) -> QloraErrorView {
    QloraErrorView::ShapeMismatch(
        error::disagreement("dy.len()"@, dy, "batch*out_dim"@, batch * rows),
    )
}

/// Fused QLoRA forward on GPU: dequant + base GEMM + optional LoRA branch.
///
/// `None` context -> identical CPU result via [`QloraLinear::forward`].
pub fn gpu_qlora_forward<
    D: Fn(&DequantJob) -> Result<Vec<u32>, QloraError>,
    G: Fn(&GemmJob) -> Result<Vec<u32>, QloraError>,
>(
    ctx: Option<&GpuContext<D, G>>,
    layer: &QloraLinear,
    x: &[u32],
    batch: usize,
) -> (r: Result<Vec<u32>, QloraError>)
    requires
        layer@.wf(),
        layer@.fits(),
        forward_fits(layer@, x@.len(), batch),
        ctx matches Some(c) ==> forall|job: &DequantJob| #[trigger] c.dequantize.requires((job,)),
        ctx matches Some(c) ==> forall|job: &GemmJob| #[trigger] c.gemm.requires((job,)),
    ensures
        if x@.len() != batch * layer@.weight.cols {
            r matches Err(e) && e@ == input_mismatch(x@.len(), batch as nat, layer@.weight.cols)
        } else {
            match ctx {
                None => r matches Ok(y) && y@ == layer@.output(x@, batch as nat),
                Some(c) => exists|t: ForwardTrace| #[trigger]
                    t.answered(*c, layer@, x@, batch) && answer_view(r) == t.outcome(layer@),
            }
        },
{
    if ctx.is_none() {
        return layer.forward(x, batch);
    }
    let in_dim: usize = layer.in_dim();
    let out_dim: usize = layer.out_dim();
    if x.len() != batch * in_dim {
        return Err(sizes_differ("x.len()", x.len(), "batch*in_dim", batch * in_dim));
    }
    let ghost c = *ctx->0;
    let ghost mut t = ForwardTrace { weight: Ok(x@), base: Ok(x@), t1: Ok(x@), t2: Ok(x@) };
    let n: usize = layer.weight().num_elements();
    let weight = gpu_dequantize(ctx, layer.weight());
    proof {
        t.weight = answer_view(weight);
    }
    let w = match weight {
        Ok(w) => w,
        Err(e) => {
            assert(t.answered(c, layer@, x@, batch));
            return Err(e);
        },
    };
    let base = gpu_matmul_trans_b(ctx, x, w.as_slice(), batch, in_dim, out_dim);
    proof {
        t.base = answer_view(base);
    }
    let y = match base {
        Ok(y) => y,
        Err(e) => {
            assert(t.answered(c, layer@, x@, batch));
            return Err(e);
        },
    };
    match layer.adapter() {
        None => {
            assert(t.answered(c, layer@, x@, batch));
            Ok(y)
        },
        Some(ad) => {
            // Fold alpha/r into A on the CPU; the GPU then does plain GEMMs.
            let a_scaled = scale_all(ad.a(), ad.scale());
            let r: usize = ad.rank();
            let (la, lb): (usize, usize) = (ad.a().len(), ad.b().len());
            let first = gpu_matmul_trans_b(ctx, x, a_scaled.as_slice(), batch, in_dim, r);
            proof {
                t.t1 = answer_view(first);
            }
            let t1 = match first {
                Ok(t1) => t1,
                Err(e) => {
                    assert(t.answered(c, layer@, x@, batch));
                    return Err(e);
                },
            };
            let second = gpu_matmul_trans_b(ctx, t1.as_slice(), ad.b(), batch, r, out_dim);
            proof {
                t.t2 = answer_view(second);
                assert(t.answered(c, layer@, x@, batch));
            }
            match second {
                Ok(t2) => Ok(add_all(y.as_slice(), t2.as_slice())),
                Err(e) => Err(e),
            }
        },
    }
}

/// What the kernels of a backward pass answered, as far as it came.
#[verifier::ext_equal]
pub struct BackwardTrace {
    pub weight: Result<Seq<u32>, QloraErrorView>,
    pub base: Result<Seq<u32>, QloraErrorView>,
    pub t1: Result<Seq<u32>, QloraErrorView>,
    pub grad_b: Result<Seq<u32>, QloraErrorView>,
    pub ds: Result<Seq<u32>, QloraErrorView>,
    pub grad_a: Result<Seq<u32>, QloraErrorView>,
    pub dx: Result<Seq<u32>, QloraErrorView>,
}

impl BackwardTrace {
    /// Whether each kernel was handed what the pass calls for.
    pub open spec fn answered<
        D: Fn(&DequantJob) -> Result<Vec<u32>, QloraError>,
        G: Fn(&GemmJob) -> Result<Vec<u32>, QloraError>,
    >(self, ctx: GpuContext<D, G>, l: LayerView, x: Seq<u32>, dy: Seq<u32>, batch: usize) -> bool {
        let (n, k) = (l.weight.rows as usize, l.weight.cols as usize);
        &&& is_dequantized(ctx, l.weight, self.weight)
        &&& self.weight matches Ok(w) ==> is_gemm(ctx, Gemm::Nn, dy, w, batch, n, k, self.base)
        &&& (self.weight is Ok && self.base is Ok && l.adapter is Some) ==> self.branch_answered(
            ctx,
            l,
            x,
            dy,
            batch,
        )
    }

    /// The same for the kernels of the adapter's branch.
    pub open spec fn branch_answered<D, G: Fn(&GemmJob) -> Result<Vec<u32>, QloraError>>(
        self,
        ctx: GpuContext<D, G>,
        l: LayerView,
        x: Seq<u32>,
        dy: Seq<u32>,
        batch: usize,
    ) -> bool {
        let (n, k) = (l.weight.rows as usize, l.weight.cols as usize);
        let ad = l.adapter->0;
        let r = ad.r as usize;
        let dys = lora::scaled(dy, ad.scale());
        &&& is_gemm(ctx, Gemm::Nt, x, ad.a, batch, k, r, self.t1)
        &&& self.t1 matches Ok(t1) ==> is_gemm(ctx, Gemm::Tn, dys, t1, batch, n, r, self.grad_b)
        &&& (self.t1 is Ok && self.grad_b is Ok) ==> is_gemm(
            ctx,
            Gemm::Nn,
            dys,
            ad.b,
            batch,
            n,
            r,
            self.ds,
        )
        &&& (self.t1 is Ok && self.grad_b is Ok) ==> (self.ds matches Ok(ds) ==> {
            &&& is_gemm(ctx, Gemm::Tn, ds, x, batch, r, k, self.grad_a)
            &&& self.grad_a is Ok ==> is_gemm(ctx, Gemm::Nn, ds, ad.a, batch, r, k, self.dx)
        })
    }

    /// The outcome: the gradients, or the first failure.
    pub open spec fn outcome(self, l: LayerView) -> Result<GradsView, QloraErrorView> {
        match (self.weight, self.base) {
            (Err(e), _) => Err(e),
            (_, Err(e)) => Err(e),
            (_, Ok(base)) => if l.adapter is None {
                Ok(GradsView { grad_a: None, grad_b: None, grad_x: base })
            } else {
                match (self.t1, self.grad_b, self.ds, self.grad_a, self.dx) {
                    (Err(e), _, _, _, _) => Err(e),
                    (_, Err(e), _, _, _) => Err(e),
                    (_, _, Err(e), _, _) => Err(e),
                    (_, _, _, Err(e), _) => Err(e),
                    (_, _, _, _, Err(e)) => Err(e),
                    (_, Ok(b), _, Ok(a), Ok(dx)) => Ok(
                        GradsView {
                            grad_a: Some(a),
                            grad_b: Some(b),
                            grad_x: lora::added(base, dx),
                        },
                    ),
                }
            },
        }
    }
}

/// A result with its contents as models.
pub open spec fn grads_view(r: Result<QloraGrads, QloraError>) -> Result<
    GradsView,
    QloraErrorView,
> {
    match r {
        Ok(g) => Ok(g@),
        Err(e) => Err(e@),
    }
}

/// QLoRA backward pass on GPU, mirroring [`QloraLinear::backward`].
///
/// `None` context -> identical CPU result.
#[verifier::rlimit(40)]
pub fn gpu_qlora_backward<
    D: Fn(&DequantJob) -> Result<Vec<u32>, QloraError>,
    G: Fn(&GemmJob) -> Result<Vec<u32>, QloraError>,
>(
    ctx: Option<&GpuContext<D, G>>,
    layer: &QloraLinear,
    x: &[u32],
    dy: &[u32],
    batch: usize,
) -> (r: Result<QloraGrads, QloraError>)
    requires
        layer@.wf(),
        layer@.fits(),
        backward_fits(layer@, x@.len(), dy@.len(), batch),
        ctx matches Some(c) ==> forall|job: &DequantJob| #[trigger] c.dequantize.requires((job,)),
        ctx matches Some(c) ==> forall|job: &GemmJob| #[trigger] c.gemm.requires((job,)),
    ensures
        if x@.len() != batch * layer@.weight.cols {
            r matches Err(e) && e@ == input_mismatch(x@.len(), batch as nat, layer@.weight.cols)
        } else if dy@.len() != batch * layer@.weight.rows {
            r matches Err(e) && e@ == upstream_mismatch(
                dy@.len(),
                batch as nat,
                layer@.weight.rows,
            )
        } else {
            match ctx {
                None => r matches Ok(g) && g@ == layer@.gradients(x@, dy@, batch as nat),
                Some(c) => exists|t: BackwardTrace| #[trigger]
                    t.answered(*c, layer@, x@, dy@, batch) && grads_view(r) == t.outcome(layer@),
            }
        },
{
    if ctx.is_none() {
        return layer.backward(x, dy, batch);
    }
    let in_dim: usize = layer.in_dim();
    let out_dim: usize = layer.out_dim();
    if x.len() != batch * in_dim {
        return Err(sizes_differ("x.len()", x.len(), "batch*in_dim", batch * in_dim));
    }
    if dy.len() != batch * out_dim {
        return Err(sizes_differ("dy.len()", dy.len(), "batch*out_dim", batch * out_dim));
    }
    let ghost c = *ctx->0;
    let ghost any = Ok::<Seq<u32>, QloraErrorView>(x@);
    let ghost mut t = BackwardTrace {
        weight: any,
        base: any,
        t1: any,
        grad_b: any,
        ds: any,
        grad_a: any,
        dx: any,
    };
    let n: usize = layer.weight().num_elements();
    let weight = gpu_dequantize(ctx, layer.weight());
    proof {
        t.weight = answer_view(weight);
    }
    let w = match weight {
        Ok(w) => w,
        Err(e) => {
            assert(t.answered(c, layer@, x@, dy@, batch));
            return Err(e);
        },
    };
    let base = gpu_matmul(ctx, dy, w.as_slice(), batch, out_dim, in_dim);
    proof {
        t.base = answer_view(base);
    }
    let grad_x = match base {
        Ok(y) => y,
        Err(e) => {
            assert(t.answered(c, layer@, x@, dy@, batch));
            return Err(e);
        },
    };
    let ad = match layer.adapter() {
        None => {
            assert(t.answered(c, layer@, x@, dy@, batch));
            return Ok(QloraGrads { grad_a: None, grad_b: None, grad_x });
        },
        Some(ad) => ad,
    };
    let r: usize = ad.rank();
    let (la, lb): (usize, usize) = (ad.a().len(), ad.b().len());
    let dys = scale_all(dy, ad.scale());
    let first = gpu_matmul_trans_b(ctx, x, ad.a(), batch, in_dim, r);
    proof {
        t.t1 = answer_view(first);
    }
    let t1 = match first {
        Ok(t1) => t1,
        Err(e) => {
            assert(t.answered(c, layer@, x@, dy@, batch));
            return Err(e);
        },
    };
    let db = gpu_matmul_trans_a(ctx, dys.as_slice(), t1.as_slice(), batch, out_dim, r);
    proof {
        t.grad_b = answer_view(db);
    }
    let grad_b = match db {
        Ok(g) => g,
        Err(e) => {
            assert(t.answered(c, layer@, x@, dy@, batch));
            return Err(e);
        },
    };
    let scaled = gpu_matmul(ctx, dys.as_slice(), ad.b(), batch, out_dim, r);
    proof {
        t.ds = answer_view(scaled);
    }
    let ds = match scaled {
        Ok(d) => d,
        Err(e) => {
            assert(t.answered(c, layer@, x@, dy@, batch));
            return Err(e);
        },
    };
    let da = gpu_matmul_trans_a(ctx, ds.as_slice(), x, batch, r, in_dim);
    proof {
        t.grad_a = answer_view(da);
    }
    let grad_a = match da {
        Ok(g) => g,
        Err(e) => {
            assert(t.answered(c, layer@, x@, dy@, batch));
            return Err(e);
        },
    };
    let dx = gpu_matmul(ctx, ds.as_slice(), ad.a(), batch, r, in_dim);
    proof {
        t.dx = answer_view(dx);
        assert(t.answered(c, layer@, x@, dy@, batch));
    }
    match dx {
        Ok(d) => Ok(
            QloraGrads {
                grad_a: Some(grad_a),
                grad_b: Some(grad_b),
                grad_x: add_all(grad_x.as_slice(), d.as_slice()),
            },
        ),
        Err(e) => Err(e),
    }
}

/// The tiles of a product cover every output, and no tile is idle, as long as
/// the outputs can be counted in 32 bits.
pub proof fn lemma_tiles_cover(n: usize, i: int)
    requires
        0 <= i < n,
        n <= u32::MAX,
    ensures
        i / (TILE as int) < groups_for(n, TILE as nat),
        (groups_for(n, TILE as nat) - 1) * TILE < n,
{
    quant::lemma_block_of(n as nat, TILE as nat, i as nat);
    let g = quant::ceil_div(n as nat, TILE as nat);
    quant::lemma_block_start(n as nat, TILE as nat, (g - 1) as nat);
}

/// Padded codes are whole words and begin with the codes.
pub proof fn lemma_padded(codes: Seq<u8>)
    ensures
        padded(codes).len() % 4 == 0,
        codes.len() <= padded(codes).len() < codes.len() + 4,
        padded(codes).take(codes.len() as int) == codes,
{
    assert(padded(codes).take(codes.len() as int) =~= codes);
}

} // verus!
