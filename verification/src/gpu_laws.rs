//! A device whose kernels are exact computes what the CPU does.
use crate::error::{QloraError, QloraErrorView};
use crate::gpu;
use crate::gpu::{
    BackwardTrace, DequantJob, DequantJobView, ForwardTrace, Gemm, GemmJob, GemmJobView, GpuContext,
};
use crate::ieee;
use crate::lora;
use crate::lora::AdapterView;
use crate::qlora::LayerView;
use crate::quant;
use crate::quant::{TensorView, NF4_LEVELS};
use crate::single;
use vstd::arithmetic::power2::*;
use vstd::prelude::*;

verus! {

/// The values that a dequantization job asks for.
pub open spec fn exact_values(job: DequantJobView) -> Seq<u32> {
    Seq::new(
        job.n as nat,
        |i: int|
            single::product(
                job.levels[quant::code_at(job.codes, i) as int],
                job.scales[i / job.block_size as int],
            ),
    )
}

/// The product that a job asks for.
pub open spec fn exact_product(job: GemmJobView) -> Seq<u32> {
    let (m, n, k) = (job.m as int, job.n as int, job.k as int);
    match job.kind {
        Gemm::Nn => lora::product_of(job.a, job.b, m, k, n),
        Gemm::Nt => lora::product_of_right(job.a, job.b, m, k, n),
        Gemm::Tn => lora::product_of_left(job.a, job.b, k, m, n),
    }
}

/// Whether the kernels answer every job, whose sizes agree, with exactly the
/// values or the product that it asks for.
pub open spec fn is_exact<
    D: Fn(&DequantJob) -> Result<Vec<u32>, QloraError>,
    G: Fn(&GemmJob) -> Result<Vec<u32>, QloraError>,
>(ctx: GpuContext<D, G>) -> bool {
    &&& forall|job: DequantJob, answer: Result<Vec<u32>, QloraError>|
        #![trigger call_ensures(ctx.dequantize, (&job,), answer)]
        call_ensures(ctx.dequantize, (&job,), answer) && job.len == job.n ==> gpu::answer_view(
            answer,
        ) == Ok::<Seq<u32>, QloraErrorView>(exact_values(job@))
    &&& forall|job: GemmJob, answer: Result<Vec<u32>, QloraError>|
        #![trigger call_ensures(ctx.gemm, (&job,), answer)]
        call_ensures(ctx.gemm, (&job,), answer) && job.len == job.m * job.n ==> gpu::answer_view(
            answer,
        ) == Ok::<Seq<u32>, QloraErrorView>(exact_product(job@))
}

/// Whether the sizes of a layer and a batch can be handed to kernels, which
/// count in 32 bits, and the products of a pass can be held.
pub open spec fn counts_fit(l: LayerView, batch: usize) -> bool {
    &&& batch <= u32::MAX
    &&& l.weight.rows <= u32::MAX
    &&& l.weight.cols <= u32::MAX
    &&& l.weight.len() <= u32::MAX
    &&& l.weight.block_size <= u32::MAX
    &&& batch * l.weight.cols <= usize::MAX
    &&& batch * l.weight.rows <= usize::MAX
    &&& l.adapter matches Some(ad) ==> {
        &&& ad.r <= u32::MAX
        &&& batch * ad.r <= usize::MAX
        &&& ad.r * l.weight.cols <= usize::MAX
        &&& l.weight.rows * ad.r <= usize::MAX
    }
}

/// An exact device gives the values of a tensor.
proof fn lemma_exact_dequantized<
    D: Fn(&DequantJob) -> Result<Vec<u32>, QloraError>,
    G: Fn(&GemmJob) -> Result<Vec<u32>, QloraError>,
>(ctx: GpuContext<D, G>, q: TensorView, r: Result<Seq<u32>, QloraErrorView>)
    requires
        is_exact(ctx),
        q.wf(),
        q.len() <= u32::MAX,
        q.block_size <= u32::MAX,
        gpu::is_dequantized(ctx, q, r),
    ensures
        r == Ok::<Seq<u32>, QloraErrorView>(q.values()),
{
    if q.len() == 0 {
        assert(q.values() =~= seq![]);
    } else {
        let (job, answer) = choose|job: DequantJob, answer: Result<Vec<u32>, QloraError>|
            {
                &&& job@ == gpu::dequant_job(q)
                &&& #[trigger] call_ensures(ctx.dequantize, (&job,), answer)
                &&& gpu::answer_view(answer) == r
            };
        assert(job.n == job@.n && job.len == job@.len);
        let v = exact_values(job@);
        assert forall|i: int| 0 <= i < q.len() implies #[trigger] v[i] == q.values()[i] by {
            assert(gpu::padded(q.codes)[i / 2] == q.codes[i / 2]);
        }
        assert(v =~= q.values());
    }
}

/// An exact device gives the product of operands of the right sizes.
proof fn lemma_exact_gemm<
    D: Fn(&DequantJob) -> Result<Vec<u32>, QloraError>,
    G: Fn(&GemmJob) -> Result<Vec<u32>, QloraError>,
>(
    ctx: GpuContext<D, G>,
    kind: Gemm,
    a: Seq<u32>,
    b: Seq<u32>,
    m: usize,
    k: usize,
    n: usize,
    r: Result<Seq<u32>, QloraErrorView>,
)
    requires
        is_exact(ctx),
        m <= u32::MAX,
        k <= u32::MAX,
        n <= u32::MAX,
        match kind {
            Gemm::Nn => a.len() == m * k && b.len() == k * n && m * n <= usize::MAX,
            Gemm::Nt => a.len() == m * k && b.len() == n * k && m * n <= usize::MAX,
            Gemm::Tn => a.len() == m * k && b.len() == m * n && k * n <= usize::MAX,
        },
        gpu::is_gemm(ctx, kind, a, b, m, k, n, r),
    ensures
        r == Ok::<Seq<u32>, QloraErrorView>(
            match kind {
                Gemm::Nn => lora::product_of(a, b, m as int, k as int, n as int),
                Gemm::Nt => lora::product_of_right(a, b, m as int, k as int, n as int),
                Gemm::Tn => lora::product_of_left(a, b, m as int, k as int, n as int),
            },
        ),
{
    let (rows, inner) = match kind {
        Gemm::Nn => (m, k),
        Gemm::Nt => (m, k),
        Gemm::Tn => (k, m),
    };
    let want = match kind {
        Gemm::Nn => lora::product_of(a, b, m as int, k as int, n as int),
        Gemm::Nt => lora::product_of_right(a, b, m as int, k as int, n as int),
        Gemm::Tn => lora::product_of_left(a, b, m as int, k as int, n as int),
    };
    if rows == 0 || n == 0 {
        assert(rows * n == 0) by (nonlinear_arith)
            requires
                rows == 0 || n == 0,
        ;
        assert(want =~= seq![]);
    } else {
        let (job, answer) = choose|job: GemmJob, answer: Result<Vec<u32>, QloraError>|
            {
                &&& job@ == gpu::gemm_job(kind, a, b, rows, n, inner)
                &&& #[trigger] call_ensures(ctx.gemm, (&job,), answer)
                &&& gpu::answer_view(answer) == r
            };
        assert(job.m == job@.m && job.n == job@.n && job.len == job@.len);
    }
}

/// `(X · (s·A)^T) · B^T`: the adapter's branch with the scale taken into `A`.
pub open spec fn folded_term(ad: AdapterView, x: Seq<u32>, batch: nat) -> Seq<u32> {
    let t1 = lora::product_of_right(
        x,
        lora::scaled(ad.a, ad.scale()),
        batch as int,
        ad.in_dim as int,
        ad.r as int,
    );
    lora::product_of_right(t1, ad.b, batch as int, ad.r as int, ad.out_dim as int)
}

/// On an exact device the fused forward pass gives the base and the adapter's
/// branch with its scale taken into `A`. Where folding the scale makes no
/// difference to that branch, and without an adapter, this is the layer's
/// output, bit for bit.
pub proof fn lemma_forward_semantics<
    D: Fn(&DequantJob) -> Result<Vec<u32>, QloraError>,
    G: Fn(&GemmJob) -> Result<Vec<u32>, QloraError>,
>(ctx: GpuContext<D, G>, l: LayerView, x: Seq<u32>, batch: usize, t: ForwardTrace)
    requires
        is_exact(ctx),
        l.wf(),
        l.fits(),
        counts_fit(l, batch),
        x.len() == batch * l.weight.cols,
        t.answered(ctx, l, x, batch),
    ensures
        t.outcome(l) == Ok::<Seq<u32>, QloraErrorView>(
            match l.adapter {
                None => l.base(x, batch as nat),
                Some(ad) => lora::added(l.base(x, batch as nat), folded_term(ad, x, batch as nat)),
            },
        ),
        (l.adapter matches Some(ad) ==> folded_term(ad, x, batch as nat) == ad.term(
            x,
            batch as nat,
        )) ==> t.outcome(l) == Ok::<Seq<u32>, QloraErrorView>(l.output(x, batch as nat)),
{
    let (n, k) = (l.weight.rows as usize, l.weight.cols as usize);
    lemma_exact_dequantized(ctx, l.weight, t.weight);
    let w = l.weight.values();
    lemma_exact_gemm(ctx, Gemm::Nt, x, w, batch, k, n, t.base);
    if let Some(ad) = l.adapter {
        let r = ad.r as usize;
        let a = lora::scaled(ad.a, ad.scale());
        lemma_exact_gemm(ctx, Gemm::Nt, x, a, batch, k, r, t.t1);
        let t1 = lora::product_of_right(x, a, batch as int, k as int, r as int);
        assert(batch * r >= 0) by (nonlinear_arith);
        lemma_exact_gemm(ctx, Gemm::Nt, t1, ad.b, batch, r, n, t.t2);
    }
}

/// On an exact device the backward pass gives the layer's gradients, bit for
/// bit.
pub proof fn lemma_backward_semantics<
    D: Fn(&DequantJob) -> Result<Vec<u32>, QloraError>,
    G: Fn(&GemmJob) -> Result<Vec<u32>, QloraError>,
>(
    ctx: GpuContext<D, G>,
    l: LayerView,
    x: Seq<u32>,
    dy: Seq<u32>,
    batch: usize,
    t: BackwardTrace,
)
    requires
        is_exact(ctx),
        l.wf(),
        l.fits(),
        counts_fit(l, batch),
        x.len() == batch * l.weight.cols,
        dy.len() == batch * l.weight.rows,
        t.answered(ctx, l, x, dy, batch),
    ensures
        t.outcome(l) == Ok::<crate::qlora::GradsView, QloraErrorView>(
            l.gradients(x, dy, batch as nat),
        ),
{
    let (n, k) = (l.weight.rows as usize, l.weight.cols as usize);
    lemma_exact_dequantized(ctx, l.weight, t.weight);
    let w = l.weight.values();
    lemma_exact_gemm(ctx, Gemm::Nn, dy, w, batch, n, k, t.base);
    if let Some(ad) = l.adapter {
        let r = ad.r as usize;
        let dys = lora::scaled(dy, ad.scale());
        lemma_exact_gemm(ctx, Gemm::Nt, x, ad.a, batch, k, r, t.t1);
        let t1 = lora::product_of_right(x, ad.a, batch as int, k as int, r as int);
        assert(batch * r >= 0) by (nonlinear_arith);
        lemma_exact_gemm(ctx, Gemm::Tn, dys, t1, batch, n, r, t.grad_b);
        lemma_exact_gemm(ctx, Gemm::Nn, dys, ad.b, batch, n, r, t.ds);
        let ds = lora::product_of(dys, ad.b, batch as int, n as int, r as int);
        lemma_exact_gemm(ctx, Gemm::Tn, ds, x, batch, r, k, t.grad_a);
        lemma_exact_gemm(ctx, Gemm::Nn, ds, ad.a, batch, r, k, t.dx);
    }
}

/// A number times one.
proof fn lemma_times_one(x: u32)
    requires
        !single::is_nan(x) || x == single::QUIET_NAN,
    ensures
        single::product(x, single::ONE) == x,
{
    if !single::is_nan(x) && !single::is_infinite(x) {
        let h = single::HALF as nat;
        let u = pow2(149);
        lemma2_to64();
        lemma_pow2_pos(149);
        ieee::lemma_units_at(0x80_0000, 126, h);
        lemma_pow2_adds(23, 126);
        assert(single::magnitude(single::ONE) == u);
        let y = single::magnitude(x);
        ieee::lemma_encode_scale(y, 1, u, h);
        assert(1 * u == u);
        ieee::lemma_encode_units(single::mag(x), h);
        assert(ieee::encode(y * u, u, h) == single::mag(x));
        let negative = single::is_negative(x);
        assert(single::product(x, single::ONE) == single::rounded(negative, y * u, u));
        assert(single::with_sign(negative, single::mag(x)) == x);
    }
}

/// A sum of products is a number or the NaN that arithmetic returns.
proof fn lemma_dot_kind(x: Seq<u32>, y: Seq<u32>)
    ensures
        !single::is_nan(lora::dot(x, y)) || lora::dot(x, y) == single::QUIET_NAN,
    decreases x.len(),
{
    if x.len() > 0 {
        lemma_dot_kind(x.drop_last(), y.drop_last());
        let (a, b) = (
            lora::dot(x.drop_last(), y.drop_last()),
            single::product(x.last(), y.last()),
        );
        let v = single::value(a) + single::value(b);
        single::lemma_with_sign(true, 0);
        single::lemma_with_sign(false, 0);
        let h = single::HALF as nat;
        if v < 0 {
            single::lemma_with_sign(true, single::clamped(ieee::encode((-v) as nat, 1, h)));
        } else {
            single::lemma_with_sign(false, single::clamped(ieee::encode(v as nat, 1, h)));
        }
    }
}

/// Folding the scale makes no difference where `alpha` is the rank (scale 1)
/// and `A` holds numbers.
pub proof fn lemma_folded_unit_scale(ad: AdapterView, x: Seq<u32>, batch: nat)
    requires
        ad.scale() == single::ONE,
        forall|i: int| 0 <= i < ad.a.len() ==> !single::is_nan(#[trigger] ad.a[i]),
    ensures
        folded_term(ad, x, batch) == ad.term(x, batch),
{
    let a = lora::scaled(ad.a, ad.scale());
    assert(a =~= ad.a) by {
        assert forall|i: int| 0 <= i < ad.a.len() implies #[trigger] a[i] == ad.a[i] by {
            lemma_times_one(ad.a[i]);
        }
    }
    let (m, r, n, k) = (batch as int, ad.r as int, ad.out_dim as int, ad.in_dim as int);
    let t1 = lora::product_of_right(x, ad.a, m, k, r);
    let t2 = lora::product_of_right(t1, ad.b, m, r, n);
    let s = lora::scaled(t2, single::ONE);
    assert(s =~= t2) by {
        assert forall|i: int| 0 <= i < t2.len() implies #[trigger] s[i] == t2[i] by {
            lemma_dot_kind(lora::row(t1, i / n, r), lora::row(ad.b, i % n, r));
            lemma_times_one(t2[i]);
        }
    }
}

/// The workgroups of a dequantization reach every element, and it is told the
/// sizes and the contents of the tensor.
pub proof fn lemma_dequant_covers(q: TensorView, i: int)
    requires
        q.wf(),
        q.len() <= u32::MAX,
        q.block_size <= u32::MAX,
        0 <= i < q.len(),
    ensures
        ({
            let job = gpu::dequant_job(q);
            &&& i / 256 < job.groups
            &&& job.n == q.len()
            &&& job.len == q.len()
            &&& job.block_size == q.block_size
            &&& job.scales == q.scales.scales()
            &&& job.levels == NF4_LEVELS@
            &&& job.codes.len() % 4 == 0
            &&& job.codes[i / 2] == q.codes[i / 2]
        }),
{
    quant::lemma_block_of(q.len(), 256, i as nat);
    quant::lemma_block_of(q.len(), 2, i as nat);
    gpu::lemma_padded(q.codes);
}

/// The tiles of a product reach every output, and it is told the sizes of the
/// operands.
pub proof fn lemma_gemm_covers(
    kind: Gemm,
    a: Seq<u32>,
    b: Seq<u32>,
    m: usize,
    n: usize,
    k: usize,
    i: int,
    j: int,
)
    requires
        m <= u32::MAX,
        n <= u32::MAX,
        k <= u32::MAX,
        m * n <= usize::MAX,
        0 <= i < m,
        0 <= j < n,
    ensures
        ({
            let job = gpu::gemm_job(kind, a, b, m, n, k);
            &&& i / 16 < job.groups_y
            &&& j / 16 < job.groups_x
            &&& job.m == m
            &&& job.n == n
            &&& job.k == k
            &&& job.len == m * n
            &&& job.kind == kind
            &&& job.a == a
            &&& job.b == b
        }),
{
    gpu::lemma_tiles_cover(m, i);
    gpu::lemma_tiles_cover(n, j);
}

} // verus!
