//! Paged 8-bit Adam optimizer for training LoRA adapters.
//!
//! The frozen NF4 base weight needs no optimizer state; this optimizer
//! trains the small adapter matrices (`A`, `B`).
//!
//! * First and second moments (`m`, `v`) are stored in **8 bit**, block-wise
//!   symmetric INT8 per block (`x = code / 127 * absmax`). The second moment
//!   spans orders of magnitude, where symmetric quantization collapses small
//!   values, so `v` is stored in the `sqrt` domain (`s = sqrt(v)` quantized,
//!   `v_hat = s^2 / bias_correction`), halving the logarithmic dynamic range.
//! * **Paged**: state blocks stream through a resident window of at most
//!   `max_resident_pages` blocks, so peak state memory stays bounded no
//!   matter the model size. Blocks are updated independently, so paging is
//!   numerically identical to the fully-resident run.
//!
//! Math per element (dequantized `m`, `v`, step `t` starting at 1):
//!
//! ```text
//! m = beta1 * m + (1 - beta1) * g
//! v = beta2 * v + (1 - beta2) * g^2
//! m_hat = m / (1 - beta1^t);  v_hat = v / (1 - beta2^t)
//! p -= lr * m_hat / (sqrt(v_hat) + eps)
//! ```
//!
//! How exactly `beta1^t` and `beta2^t` come out depends on the platform's
//! `powf`: [`Adam8bit::step_with`] is given that function, [`Adam8bit::step`]
//! the powers themselves, for the `t` of [`Adam8bit::next_steps`].
use crate::error::{invalid_config, sizes_differ, QloraError, QloraErrorView};
use crate::error;
use crate::lora;
use crate::quant;
use crate::quant::{dequantize_int8, quantize_int8};
use crate::single;
use crate::text;
use vstd::arithmetic::power2::*;
use vstd::prelude::*;
use vstd::string::*;

verus! {

/// Hyperparameters (binary32 bit patterns) and paging budget.
#[derive(Debug, Clone, Copy)]
pub struct AdamConfig {
    /// Learning rate.
    pub lr: u32,
    /// First-moment decay.
    pub beta1: u32,
    /// Second-moment decay.
    pub beta2: u32,
    /// Numerical stability term.
    pub eps: u32,
    /// Elements per quantization block (states are quantized per block).
    pub block_size: usize,
    /// Max state blocks resident at once; the rest "page" through this
    /// window during `step`. `usize::MAX` (default) keeps everything resident.
    pub max_resident_pages: usize,
}

impl Default for AdamConfig {
    /// Learning rate `1e-3`, decays `0.9` and `0.999`, stability term `1e-8`.
    fn default() -> (r: Self)
        ensures
            r == (AdamConfig {
                lr: 0x3A83_126F,
                beta1: 0x3F66_6666,
                beta2: 0x3F7F_BE77,
                eps: 0x322B_CC77,
                block_size: 256,
                max_resident_pages: usize::MAX,
            }),
    {
        AdamConfig {
            lr: 0x3A83_126F,
            beta1: 0x3F66_6666,
            beta2: 0x3F7F_BE77,
            eps: 0x322B_CC77,
            block_size: 256,
            max_resident_pages: usize::MAX,
        }
    }
}

/// Whether a decay lies in `[0, 1)`.
pub open spec fn is_decay(x: u32) -> bool {
    !single::is_nan(x) && !single::below(x, 0) && single::below(x, single::ONE)
}

impl AdamConfig {
    /// What is wrong with the settings.
    pub open spec fn fault(self) -> Option<Seq<char>> {
        if !single::below(0, self.lr) || !single::is_finite(self.lr) {
            Some("lr must be positive and finite"@)
        } else if !is_decay(self.beta1) || !is_decay(self.beta2) {
            Some("betas must be in (0, 1)"@)
        } else if self.block_size == 0 || self.max_resident_pages == 0 {
            Some("block_size and max_resident_pages must be > 0"@)
        } else {
            None
        }
    }

    /// Validates the settings.
    pub fn validate(&self) -> (r: Result<(), QloraError>)
        ensures
            match self.fault() {
                Some(m) => r matches Err(e) && e@ == QloraErrorView::InvalidConfig(m),
                None => r is Ok,
            },
    {
        if !single::less(0, self.lr) || self.lr % single::SIGN >= single::INFINITY {
            return Err(invalid_config("lr must be positive and finite"));
        }
        let ok1 = self.beta1 % single::SIGN <= single::INFINITY && !single::less(self.beta1, 0)
            && single::less(self.beta1, single::ONE);
        let ok2 = self.beta2 % single::SIGN <= single::INFINITY && !single::less(self.beta2, 0)
            && single::less(self.beta2, single::ONE);
        if !ok1 || !ok2 {
            return Err(invalid_config("betas must be in (0, 1)"));
        }
        if self.block_size == 0 || self.max_resident_pages == 0 {
            return Err(invalid_config("block_size and max_resident_pages must be > 0"));
        }
        Ok(())
    }
}

/// The 8-bit codes of values, block by block.
pub open spec fn block_codes(x: Seq<u32>, d: int) -> Seq<u8> {
    Seq::new(x.len(), |i: int| quant::int8_code(x[i], quant::block_maxima(x, d)[i / d]))
}

/// Quantizes one block symmetrically to INT8 (`code/127*absmax`).
pub fn quantize_block_i8(x: &[u32]) -> (r: (Vec<u8>, u32))
    ensures
        r.1 == quant::absmax(x@),
        r.0@ == Seq::new(x@.len(), |i: int| quant::int8_code(x@[i], quant::absmax(x@))),
{
    let mut m: u32 = 0;
    let mut i: usize = 0;
    assert(x@.take(0) =~= seq![]);
    while i < x.len()
        invariant
            i <= x@.len(),
            m == quant::absmax(x@.take(i as int)),
        decreases x@.len() - i,
    {
        assert(x@.take(i + 1).drop_last() =~= x@.take(i as int));
        m = single::max(m, single::abs(x[i]));
        i = i + 1;
    }
    assert(x@.take(i as int) =~= x@);
    let mut codes: Vec<u8> = Vec::new();
    let mut j: usize = 0;
    while j < x.len()
        invariant
            j <= x@.len(),
            m == quant::absmax(x@),
            codes@.len() == j,
            forall|k: int| 0 <= k < j ==> #[trigger] codes@[k] == quant::int8_code(x@[k], m),
        decreases x@.len() - j,
    {
        codes.push(quantize_int8(x[j], m));
        j = j + 1;
    }
    assert(codes@ =~= Seq::new(x@.len(), |i: int| quant::int8_code(x@[i], quant::absmax(x@))));
    (codes, m)
}

/// The values of one block of INT8 codes.
pub fn dequant_block_i8(codes: &[u8], m: u32) -> (r: Vec<u32>)
    ensures
        r@ == Seq::new(codes@.len(), |i: int| quant::decoded_scale(codes@[i], m)),
{
    let mut out: Vec<u32> = Vec::new();
    let mut i: usize = 0;
    while i < codes.len()
        invariant
            i <= codes@.len(),
            out@.len() == i,
            forall|j: int| 0 <= j < i ==> #[trigger] out@[j] == quant::decoded_scale(codes@[j], m),
        decreases codes@.len() - i,
    {
        out.push(dequantize_int8(codes[i], m));
        i = i + 1;
    }
    assert(out@ =~= Seq::new(codes@.len(), |i: int| quant::decoded_scale(codes@[i], m)));
    out
}

/// The model of the optimizer state of one parameter tensor.
#[verifier::ext_equal]
pub struct StateView {
    pub numel: nat,
    pub m_codes: Seq<u8>,
    pub m_scales: Seq<u32>,
    pub v_codes: Seq<u8>,
    pub v_scales: Seq<u32>,
    pub step: nat,
}

impl StateView {
    /// The state of a parameter before its first step.
    pub open spec fn fresh(numel: nat, d: nat) -> StateView {
        let blocks = quant::ceil_div(numel, d);
        StateView {
            numel,
            m_codes: Seq::new(numel, |i: int| 0u8),
            m_scales: Seq::new(blocks, |i: int| 0u32),
            v_codes: Seq::new(numel, |i: int| 0u8),
            v_scales: Seq::new(blocks, |i: int| 0u32),
            step: 0,
        }
    }

    pub open spec fn wf(self, d: nat) -> bool {
        &&& self.m_codes.len() == self.numel
        &&& self.v_codes.len() == self.numel
        &&& self.m_scales.len() == quant::ceil_div(self.numel, d)
        &&& self.v_scales.len() == quant::ceil_div(self.numel, d)
    }

    /// Bytes held by the state.
    pub open spec fn bytes(self) -> nat {
        self.m_codes.len() + self.v_codes.len() + (self.m_scales.len() + self.v_scales.len()) * 4
    }

    /// The first moment of element `i`.
    pub open spec fn m(self, i: int, d: int) -> u32 {
        quant::decoded_scale(self.m_codes[i], self.m_scales[i / d])
    }

    /// The square root of the second moment of element `i`.
    pub open spec fn s(self, i: int, d: int) -> u32 {
        quant::decoded_scale(self.v_codes[i], self.v_scales[i / d])
    }

    /// The first moment after the gradient `g`.
    pub open spec fn next_m(self, c: AdamConfig, i: int, g: u32) -> u32 {
        moment(c, self.m(i, c.block_size as int), g)
    }

    /// The second moment after the gradient `g`.
    pub open spec fn next_v(self, c: AdamConfig, i: int, g: u32) -> u32 {
        second_moment(c, self.s(i, c.block_size as int), g)
    }

    pub open spec fn next_ms(self, c: AdamConfig, g: Seq<u32>) -> Seq<u32> {
        Seq::new(self.numel, |i: int| self.next_m(c, i, g[i]))
    }

    pub open spec fn next_roots(self, c: AdamConfig, g: Seq<u32>) -> Seq<u32> {
        Seq::new(self.numel, |i: int| single::root(self.next_v(c, i, g[i])))
    }

    /// The state after the gradients `g`.
    pub open spec fn next(self, c: AdamConfig, g: Seq<u32>) -> StateView {
        let d = c.block_size as int;
        StateView {
            numel: self.numel,
            m_codes: block_codes(self.next_ms(c, g), d),
            m_scales: quant::block_maxima(self.next_ms(c, g), d),
            v_codes: block_codes(self.next_roots(c, g), d),
            v_scales: quant::block_maxima(self.next_roots(c, g), d),
            step: self.step + 1,
        }
    }

    /// The parameters after the gradients `g`; `powers` holds `beta1^t` and
    /// `beta2^t`.
    pub open spec fn next_params(
        self,
        c: AdamConfig,
        p: Seq<u32>,
        g: Seq<u32>,
        powers: (u32, u32),
    ) -> Seq<u32> {
        Seq::new(
            p.len(),
            |i: int|
                moved(c, p[i], self.next_m(c, i, g[i]), self.next_v(c, i, g[i]), powers),
        )
    }
}

/// `beta1 * m + (1 - beta1) * g`.
#[verifier::opaque]
pub open spec fn moment(c: AdamConfig, m: u32, g: u32) -> u32 {
    single::sum(
        single::product(c.beta1, m),
        single::product(single::difference(single::ONE, c.beta1), g),
    )
}

/// `beta2 * s * s + (1 - beta2) * g * g`.
#[verifier::opaque]
pub open spec fn second_moment(c: AdamConfig, s: u32, g: u32) -> u32 {
    single::sum(
        single::product(single::product(c.beta2, s), s),
        single::product(single::product(single::difference(single::ONE, c.beta2), g), g),
    )
}

/// `p - lr * m_hat / (sqrt(v_hat) + eps)`.
#[verifier::opaque]
pub open spec fn moved(c: AdamConfig, p: u32, m: u32, v: u32, powers: (u32, u32)) -> u32 {
    let mh = single::quotient(m, single::difference(single::ONE, powers.0));
    let vh = single::quotient(v, single::difference(single::ONE, powers.1));
    single::difference(
        p,
        single::quotient(single::product(c.lr, mh), single::sum(single::root(vh), c.eps)),
    )
}

/// Optimizer state of one parameter tensor, stored as 8-bit pages.
#[derive(Debug, Clone)]
pub struct ParamState {
    numel: usize,
    num_blocks: usize,
    m_codes: Vec<u8>,
    m_scales: Vec<u32>,
    v_codes: Vec<u8>,
    v_scales: Vec<u32>,
    step: u64,
}

impl View for ParamState {
    type V = StateView;

    closed spec fn view(&self) -> StateView {
        StateView {
            numel: self.numel as nat,
            m_codes: self.m_codes@,
            m_scales: self.m_scales@,
            v_codes: self.v_codes@,
            v_scales: self.v_scales@,
            step: self.step as nat,
        }
    }
}

fn zero_bytes(n: usize) -> (r: Vec<u8>)
    ensures
        r@ == Seq::new(n as nat, |i: int| 0u8),
{
    let mut v: Vec<u8> = Vec::new();
    let mut i: usize = 0;
    while i < n
        invariant
            i <= n,
            v@ == Seq::new(i as nat, |i: int| 0u8),
        decreases n - i,
    {
        v.push(0);
        i = i + 1;
        assert(v@ =~= Seq::new(i as nat, |i: int| 0u8));
    }
    v
}

fn zero_words(n: usize) -> (r: Vec<u32>)
    ensures
        r@ == Seq::new(n as nat, |i: int| 0u32),
{
    let mut v: Vec<u32> = Vec::new();
    let mut i: usize = 0;
    while i < n
        invariant
            i <= n,
            v@ == Seq::new(i as nat, |i: int| 0u32),
        decreases n - i,
    {
        v.push(0);
        i = i + 1;
        assert(v@ =~= Seq::new(i as nat, |i: int| 0u32));
    }
    v
}

impl ParamState {
    pub closed spec fn wf(&self, d: nat) -> bool {
        self@.wf(d) && self.num_blocks == quant::ceil_div(self@.numel, d)
    }

    /// The state of a parameter before its first step.
    pub fn new(numel: usize, block_size: usize) -> (r: ParamState)
        requires
            block_size > 0,
        ensures
            r@ == StateView::fresh(numel as nat, block_size as nat),
            r.wf(block_size as nat),
    {
        let num_blocks: usize = quant::div_up(numel, block_size);
        ParamState {
            numel,
            num_blocks,
            m_codes: zero_bytes(numel),
            m_scales: zero_words(num_blocks),
            v_codes: zero_bytes(numel),
            v_scales: zero_words(num_blocks),
            step: 0,
        }
    }

    /// Bytes held by this state (vs `8 * numel` for plain moments).
    pub fn state_bytes(&self) -> (r: usize)
        requires
            self@.bytes() <= usize::MAX,
        ensures
            r == self@.bytes(),
    {
        self.m_codes.len() + self.v_codes.len() + (self.m_scales.len() + self.v_scales.len()) * 4
    }
}

/// Statistics returned by [`Adam8bit::step`].
#[derive(Debug, Clone, Copy, PartialEq, Eq, Structural)]
pub struct AdamStats {
    /// State blocks streamed through the resident window this step.
    pub pages_streamed: usize,
    /// Total 8-bit state bytes across all parameters.
    pub state_bytes: usize,
}

/// Where the update of a parameter has come: blocks below `b` are done.
spec fn partly(
    c: AdamConfig,
    before: StateView,
    now: StateView,
    p0: Seq<u32>,
    p: Seq<u32>,
    g: Seq<u32>,
    powers: (u32, u32),
    b: int,
) -> bool {
    let d = c.block_size as int;
    let after = before.next(c, g);
    &&& now.numel == before.numel
    &&& now.step == before.step + 1
    &&& now.wf(d as nat)
    &&& p.len() == p0.len()
    &&& forall|i: int|
        0 <= i < p.len() ==> #[trigger] p[i] == (if i / d < b {
            before.next_params(c, p0, g, powers)[i]
        } else {
            p0[i]
        })
    &&& forall|i: int|
        0 <= i < now.m_codes.len() ==> #[trigger] now.m_codes[i] == (if i / d < b {
            after.m_codes[i]
        } else {
            before.m_codes[i]
        })
    &&& forall|i: int|
        0 <= i < now.v_codes.len() ==> #[trigger] now.v_codes[i] == (if i / d < b {
            after.v_codes[i]
        } else {
            before.v_codes[i]
        })
    &&& forall|k: int|
        0 <= k < now.m_scales.len() ==> #[trigger] now.m_scales[k] == (if k < b {
            after.m_scales[k]
        } else {
            before.m_scales[k]
        })
    &&& forall|k: int|
        0 <= k < now.v_scales.len() ==> #[trigger] now.v_scales[k] == (if k < b {
            after.v_scales[k]
        } else {
            before.v_scales[k]
        })
}

/// Positions `b * d` to `b * d + d` are those of block `b`.
proof fn lemma_in_block(i: int, b: int, d: int)
    requires
        0 <= b,
        d > 0,
        0 <= i,
    ensures
        b * d <= i < b * d + d <==> i / d == b,
        i < b * d <==> i / d < b,
{
    crate::ieee::lemma_div_parts(i as nat, d as nat);
    let (q, r) = (i / d, i % d);
    assert((b * d <= i && i < b * d + d) <==> q == b) by (nonlinear_arith)
        requires
            i == d * q + r,
            0 <= r < d,
    ;
    assert(i < b * d <==> q < b) by (nonlinear_arith)
        requires
            i == d * q + r,
            0 <= r < d,
    ;
}

/// The moments and the value of one element after its gradient.
fn step_element(
    c: &AdamConfig,
    m: u32,
    s: u32,
    g: u32,
    p: u32,
    powers: (u32, u32),
) -> (r: (u32, u32, u32))
    ensures
        r.0 == moment(*c, m, g),
        r.1 == second_moment(*c, s, g),
        r.2 == moved(*c, p, r.0, r.1, powers),
{
    proof {
        reveal(moment);
        reveal(second_moment);
        reveal(moved);
    }
    let keep1: u32 = single::minus(single::ONE, c.beta1);
    let keep2: u32 = single::minus(single::ONE, c.beta2);
    let b1t: u32 = single::minus(single::ONE, powers.0);
    let b2t: u32 = single::minus(single::ONE, powers.1);
    let m_new: u32 = single::plus(single::times(c.beta1, m), single::times(keep1, g));
    let var: u32 = single::plus(
        single::times(single::times(c.beta2, s), s),
        single::times(single::times(keep2, g), g),
    );
    let mh: u32 = single::over(m_new, b1t);
    let vh: u32 = single::over(var, b2t);
    let x: u32 = single::minus(
        p,
        single::over(single::times(c.lr, mh), single::plus(single::sqrt(vh), c.eps)),
    );
    (m_new, var, x)
}

/// Updates the elements of one block and its state.
#[verifier::spinoff_prover]
#[verifier::rlimit(40)]
fn step_block(
    c: &AdamConfig,
    st: &mut ParamState,
    p: &mut Vec<u32>,
    g: &Vec<u32>,
    powers: (u32, u32),
    b: usize,
    Ghost(before): Ghost<StateView>,
    Ghost(p0): Ghost<Seq<u32>>,
)
    requires
        c.block_size > 0,
        before.wf(c.block_size as nat),
        before.numel == p0.len() == g@.len(),
        old(st).wf(c.block_size as nat),
        b < quant::ceil_div(before.numel, c.block_size as nat),
        partly(*c, before, old(st)@, p0, old(p)@, g@, powers, b as int),
    ensures
        final(st).wf(c.block_size as nat),
        partly(*c, before, final(st)@, p0, final(p)@, g@, powers, b + 1),
{
    let d: usize = c.block_size;
    let n: usize = g.len();
    proof {
        quant::lemma_block_start(n as nat, d as nat, b as nat);
    }
    let start: usize = b * d;
    let end: usize = if n - start >= d {
        start + d
    } else {
        n
    };
    let ghost ms = before.next_ms(*c, g@);
    let ghost vs = before.next_roots(*c, g@);
    let ghost want = before.next_params(*c, p0, g@, powers);
    let m_old = dequant_block_i8(
        vstd::slice::slice_subrange(st.m_codes.as_slice(), start, end),
        st.m_scales[b],
    );
    // `s_old` holds sqrt-domain values: sqrt(E[g^2]).
    let s_old = dequant_block_i8(
        vstd::slice::slice_subrange(st.v_codes.as_slice(), start, end),
        st.v_scales[b],
    );
    let mut m: Vec<u32> = Vec::new();
    let mut v: Vec<u32> = Vec::new();
    let mut i: usize = start;
    proof {
        assert forall|k: int| 0 <= k implies (k < start <==> #[trigger] (k / d as int) < b) by {
            lemma_in_block(k, b as int, d as int);
        }
        assert forall|j: int| 0 <= j < end - start implies #[trigger] m_old@[j]
            == quant::decoded_scale(before.m_codes[start + j], before.m_scales[b as int]) by {
            assert(!(((start + j) / (d as int)) < b));
        }
        assert forall|j: int| 0 <= j < end - start implies #[trigger] s_old@[j]
            == quant::decoded_scale(before.v_codes[start + j], before.v_scales[b as int]) by {
            assert(!(((start + j) / (d as int)) < b));
        }
    }
    while i < end
        invariant
            d == c.block_size,
            d > 0,
            n == g@.len() == p0.len() == p@.len() == before.numel,
            before.wf(d as nat),
            start == b * d,
            start <= i <= end <= n,
            end <= start + d,
            m_old@.len() == end - start,
            s_old@.len() == end - start,
            forall|j: int|
                0 <= j < end - start ==> #[trigger] m_old@[j] == quant::decoded_scale(
                    before.m_codes[start + j],
                    before.m_scales[b as int],
                ),
            forall|j: int|
                0 <= j < end - start ==> #[trigger] s_old@[j] == quant::decoded_scale(
                    before.v_codes[start + j],
                    before.v_scales[b as int],
                ),
            ms == before.next_ms(*c, g@),
            vs == before.next_roots(*c, g@),
            want == before.next_params(*c, p0, g@, powers),
            m@ == ms.subrange(start as int, i as int),
            v@ == vs.subrange(start as int, i as int),
            forall|k: int|
                0 <= k < n ==> #[trigger] p@[k] == (if k < i {
                    want[k]
                } else {
                    p0[k]
                }),
        decreases end - i,
    {
        proof {
            lemma_in_block(i as int, b as int, d as int);
        }
        let j: usize = i - start;
        let (m_new, var, x) = step_element(c, m_old[j], s_old[j], g[i], p[i], powers);
        m.push(m_new);
        v.push(single::sqrt(var));
        p.set(i, x);
        proof {
            assert(m_new == ms[i as int]);
            assert(m@ =~= ms.subrange(start as int, i + 1));
            assert(v@ =~= vs.subrange(start as int, i + 1));
            assert(x == want[i as int]);
        }
        i = i + 1;
    }
    let (m_codes, m_max) = quantize_block_i8(m.as_slice());
    let (v_codes, v_max) = quantize_block_i8(v.as_slice());
    proof {
        assert(m@ =~= quant::block(ms, b as int, d as int));
        assert(v@ =~= quant::block(vs, b as int, d as int));
    }
    let ghost now = st@;
    let mut k: usize = start;
    while k < end
        invariant
            start <= k <= end <= n,
            m_codes@.len() == end - start,
            v_codes@.len() == end - start,
            n == now.m_codes.len() == now.v_codes.len(),
            st@ == (StateView { m_codes: st.m_codes@, v_codes: st.v_codes@, ..now }),
            st.num_blocks == old(st).num_blocks,
            st.m_codes@.len() == n,
            st.v_codes@.len() == n,
            forall|j: int|
                0 <= j < n ==> #[trigger] st.m_codes@[j] == (if start <= j < k {
                    m_codes@[j - start]
                } else {
                    now.m_codes[j]
                }),
            forall|j: int|
                0 <= j < n ==> #[trigger] st.v_codes@[j] == (if start <= j < k {
                    v_codes@[j - start]
                } else {
                    now.v_codes[j]
                }),
        decreases end - k,
    {
        st.m_codes.set(k, m_codes[k - start]);
        st.v_codes.set(k, v_codes[k - start]);
        k = k + 1;
    }
    st.m_scales.set(b, m_max);
    st.v_scales.set(b, v_max);
    proof {
        let after = before.next(*c, g@);
        assert forall|j: int| 0 <= j < n implies #[trigger] st.m_codes@[j] == (if j / d as int <= b {
            after.m_codes[j]
        } else {
            before.m_codes[j]
        }) by {
            lemma_in_block(j, b as int, d as int);
        }
        assert forall|j: int| 0 <= j < n implies #[trigger] st.v_codes@[j] == (if j / d as int <= b {
            after.v_codes[j]
        } else {
            before.v_codes[j]
        }) by {
            lemma_in_block(j, b as int, d as int);
        }
        assert forall|j: int| 0 <= j < n implies #[trigger] p@[j] == (if j / d as int <= b {
            want[j]
        } else {
            p0[j]
        }) by {
            lemma_in_block(j, b as int, d as int);
        }
    }
}

/// The state that a step of parameter `i` with `numel` elements starts from:
/// the one kept for it, or a new one where there is none of that length.
pub open spec fn state_for(states: Seq<StateView>, i: int, numel: nat, d: nat) -> StateView {
    if i < states.len() && states[i].numel == numel {
        states[i]
    } else {
        StateView::fresh(numel, d)
    }
}

/// The parameters after the first `n` of them made their step.
pub open spec fn stepped_params(
    c: AdamConfig,
    states: Seq<StateView>,
    params: Seq<Seq<u32>>,
    grads: Seq<Seq<u32>>,
    powers: Seq<(u32, u32)>,
    n: int,
) -> Seq<Seq<u32>> {
    Seq::new(
        params.len(),
        |i: int|
            if i < n {
                state_for(states, i, params[i].len(), c.block_size as nat).next_params(
                    c,
                    params[i],
                    grads[i],
                    powers[i],
                )
            } else {
                params[i]
            },
    )
}

/// The states after the first `n` parameters made their step.
pub open spec fn stepped_states(
    c: AdamConfig,
    states: Seq<StateView>,
    params: Seq<Seq<u32>>,
    grads: Seq<Seq<u32>>,
    n: int,
) -> Seq<StateView> {
    Seq::new(
        if states.len() < n {
            n as nat
        } else {
            states.len()
        },
        |i: int|
            if i < n {
                state_for(states, i, params[i].len(), c.block_size as nat).next(c, grads[i])
            } else {
                states[i]
            },
    )
}

/// How many parameters, from `i` on, have gradients of their own length.
pub open spec fn agreeing(params: Seq<Seq<u32>>, grads: Seq<Seq<u32>>, i: int) -> int
    decreases params.len() - i,
{
    if i < params.len() && params[i].len() == grads[i].len() {
        agreeing(params, grads, i + 1)
    } else {
        i
    }
}

/// How many parameters make their step: those before the first whose gradients
/// have another length, and none where the counts differ.
pub open spec fn steppable(params: Seq<Seq<u32>>, grads: Seq<Seq<u32>>) -> int {
    if params.len() == grads.len() {
        agreeing(params, grads, 0)
    } else {
        0
    }
}

/// Bytes of all states together.
pub open spec fn total_bytes(states: Seq<StateView>) -> nat
    decreases states.len(),
{
    if states.len() == 0 {
        0
    } else {
        total_bytes(states.drop_last()) + states.last().bytes()
    }
}

/// Blocks of the first parameters together.
pub open spec fn total_blocks(params: Seq<Seq<u32>>, d: nat) -> nat
    decreases params.len(),
{
    if params.len() == 0 {
        0
    } else {
        total_blocks(params.drop_last(), d) + quant::ceil_div(params.last().len(), d)
    }
}

/// The model of an optimizer.
#[verifier::ext_equal]
pub struct AdamView {
    pub config: AdamConfig,
    pub states: Seq<StateView>,
}

impl AdamView {
    /// What a step does to the parameters and the optimizer.
    pub open spec fn after(
        self,
        params: Seq<Seq<u32>>,
        grads: Seq<Seq<u32>>,
        powers: Seq<(u32, u32)>,
        n: int,
    ) -> (Seq<Seq<u32>>, AdamView) {
        (
            stepped_params(self.config, self.states, params, grads, powers, n),
            AdamView {
                states: stepped_states(self.config, self.states, params, grads, n),
                ..self
            },
        )
    }

    /// What a step reports: how many blocks were streamed and how many bytes
    /// the states take, or which lengths disagree.
    pub open spec fn report(self, params: Seq<Seq<u32>>, grads: Seq<Seq<u32>>) -> Result<
        (nat, nat),
        QloraErrorView,
    > {
        let n = steppable(params, grads);
        if params.len() != grads.len() {
            Err(
                QloraErrorView::ShapeMismatch(
                    error::disagreement("params.len()"@, params.len(), "grads.len()"@, grads.len()),
                ),
            )
        } else if n < params.len() {
            Err(
                QloraErrorView::ShapeMismatch(
                    grad_disagreement(n as nat, params[n].len(), grads[n].len()),
                ),
            )
        } else {
            Ok(
                (
                    total_blocks(params, self.config.block_size as nat),
                    total_bytes(stepped_states(self.config, self.states, params, grads, n)),
                ),
            )
        }
    }

    /// Whether a step with these powers turned the parameters into `next`,
    /// the optimizer into `later` and returned `r`.
    pub open spec fn makes_step(
        self,
        params: Seq<Seq<u32>>,
        grads: Seq<Seq<u32>>,
        powers: Seq<(u32, u32)>,
        next: Seq<Seq<u32>>,
        later: AdamView,
        r: Result<AdamStats, QloraError>,
    ) -> bool {
        &&& (next, later) == self.after(params, grads, powers, steppable(params, grads))
        &&& match self.report(params, grads) {
            Err(m) => r matches Err(e) && e@ == m,
            Ok((pages, bytes)) => r matches Ok(s) && s.pages_streamed == pages && s.state_bytes
                == bytes,
        }
    }

    /// The step `t` that parameter `i` makes next.
    pub open spec fn next_step(self, params: Seq<Seq<u32>>, i: int) -> nat {
        state_for(self.states, i, params[i].len(), self.config.block_size as nat).step + 1
    }

    /// Whether `powers` holds what `powf` gives for `beta1^t` and `beta2^t`,
    /// for the step `t` that each parameter makes next.
    pub open spec fn are_powers<P: Fn(u32, u32) -> u32>(
        self,
        params: Seq<Seq<u32>>,
        powf: P,
        powers: Seq<(u32, u32)>,
    ) -> bool {
        &&& powers.len() == params.len()
        &&& forall|i: int|
            0 <= i < powers.len() ==> {
                let t = single::of_integer(self.next_step(params, i) as int);
                &&& call_ensures(powf, (self.config.beta1, t), (#[trigger] powers[i]).0)
                &&& call_ensures(powf, (self.config.beta2, t), powers[i].1)
            }
    }

    /// Whether the machine can count the next step of each parameter.
    pub open spec fn steps_fit(self, params: Seq<Seq<u32>>) -> bool {
        forall|i: int| 0 <= i < params.len() ==> #[trigger] self.next_step(params, i) <= u64::MAX
    }

    /// Whether the counts of a step fit the machine, as far as it comes.
    pub open spec fn fits(self, params: Seq<Seq<u32>>, grads: Seq<Seq<u32>>) -> bool {
        let n = steppable(params, grads);
        &&& total_blocks(params.take(n), self.config.block_size as nat) <= usize::MAX
        &&& forall|i: int| 0 <= i < n ==> #[trigger] self.next_step(params, i) <= u64::MAX
        &&& self.report(params, grads) matches Ok((_, bytes)) ==> bytes <= usize::MAX
    }
}

/// Paged 8-bit Adam optimizer.
///
/// Parameters are registered by position: the `i`-th entry of `params` in
/// every `step` call addresses the `i`-th state (created lazily).
#[derive(Debug, Clone)]
pub struct Adam8bit {
    config: AdamConfig,
    states: Vec<ParamState>,
}

/// The models of states.
pub open spec fn state_views(v: Seq<ParamState>) -> Seq<StateView> {
    Seq::new(v.len(), |i: int| v[i]@)
}

impl View for Adam8bit {
    type V = AdamView;

    closed spec fn view(&self) -> AdamView {
        AdamView { config: self.config, states: state_views(self.states@) }
    }
}

/// The message for a parameter whose gradients have another length.
pub open spec fn grad_disagreement(i: nat, p: nat, g: nat) -> Seq<char> {
    error::disagreement("param "@ + text::decimal(i) + ": len"@, p, "grad len"@, g)
}

/// A step of one parameter, streaming its state blocks through a window of
/// at most `max_resident_pages`. The count of streamed blocks is returned.
fn step_param(
    c: &AdamConfig,
    st: &mut ParamState,
    p: &mut Vec<u32>,
    g: &Vec<u32>,
    powers: (u32, u32),
) -> (r: usize)
    requires
        c.block_size > 0,
        c.max_resident_pages > 0,
        old(st).wf(c.block_size as nat),
        old(st)@.numel == old(p)@.len() == g@.len(),
        old(st)@.step < u64::MAX,
    ensures
        final(st).wf(c.block_size as nat),
        final(st)@ == old(st)@.next(*c, g@),
        final(p)@ == old(st)@.next_params(*c, old(p)@, g@, powers),
        r == quant::ceil_div(g@.len(), c.block_size as nat),
{
    let ghost before = st@;
    let ghost p0 = p@;
    let ghost d = c.block_size as nat;
    st.step = st.step + 1;
    let blocks: usize = st.num_blocks;
    let mut window: usize = if c.max_resident_pages < blocks {
        c.max_resident_pages
    } else {
        blocks
    };
    if window == 0 {
        window = 1;
    }
    let mut start: usize = 0;
    let mut streamed: usize = 0;
    assert(partly(*c, before, st@, p0, p@, g@, powers, 0)) by {
        assert forall|i: int| 0 <= i implies #[trigger] (i / (c.block_size as int)) >= 0 by {
            lemma_in_block(i, 0, c.block_size as int);
        }
    }
    while start < blocks
        invariant
            c.block_size > 0,
            d == c.block_size as nat,
            window > 0,
            start <= blocks,
            streamed == start,
            st.wf(d),
            before.wf(d),
            before.numel == p0.len() == g@.len(),
            blocks == quant::ceil_div(before.numel, d),
            partly(*c, before, st@, p0, p@, g@, powers, start as int),
        decreases blocks - start,
    {
        let end: usize = if blocks - start < window {
            blocks
        } else {
            start + window
        };
        let mut b: usize = start;
        while b < end
            invariant
                c.block_size > 0,
                d == c.block_size as nat,
                start <= b <= end <= blocks,
                streamed == b,
                st.wf(d),
                before.wf(d),
                before.numel == p0.len() == g@.len(),
                blocks == quant::ceil_div(before.numel, d),
                partly(*c, before, st@, p0, p@, g@, powers, b as int),
            decreases end - b,
        {
            step_block(c, st, p, g, powers, b, Ghost(before), Ghost(p0));
            streamed = streamed + 1;
            b = b + 1;
        }
        start = end;
    }
    proof {
        assert forall|i: int| 0 <= i < before.numel implies #[trigger] (i / (c.block_size as int))
            < blocks by {
            quant::lemma_block_of(before.numel, d, i as nat);
        }
        assert(st@ =~= before.next(*c, g@));
        assert(p@ =~= before.next_params(*c, p0, g@, powers));
    }
    streamed
}

/// One more state.
proof fn lemma_total_take(states: Seq<StateView>, i: int)
    requires
        0 <= i < states.len(),
    ensures
        total_bytes(states.take(i + 1)) == total_bytes(states.take(i)) + states[i].bytes(),
        total_bytes(states.take(i + 1)) <= total_bytes(states),
    decreases states.len() - i,
{
    assert(states.take(i + 1).drop_last() =~= states.take(i));
    if i + 1 < states.len() {
        lemma_total_take(states, i + 1);
    } else {
        assert(states.take(i + 1) =~= states);
    }
}

/// One more parameter.
proof fn lemma_blocks_take(params: Seq<Seq<u32>>, d: nat, i: int)
    requires
        0 <= i < params.len(),
    ensures
        total_blocks(params.take(i + 1), d) == total_blocks(params.take(i), d) + quant::ceil_div(
            params[i].len(),
            d,
        ),
        total_blocks(params.take(i + 1), d) <= total_blocks(params, d),
    decreases params.len() - i,
{
    assert(params.take(i + 1).drop_last() =~= params.take(i));
    if i + 1 < params.len() {
        lemma_blocks_take(params, d, i + 1);
    } else {
        assert(params.take(i + 1) =~= params);
    }
}

impl Adam8bit {
    pub closed spec fn wf(&self) -> bool {
        &&& self.config.fault() is None
        &&& forall|i: int|
            0 <= i < self.states@.len() ==> (#[trigger] self.states@[i]).wf(
                self.config.block_size as nat,
            )
    }

    /// Create an optimizer, validating the config.
    pub fn new(config: AdamConfig) -> (r: Result<Self, QloraError>)
        ensures
            match config.fault() {
                Some(m) => r matches Err(e) && e@ == QloraErrorView::InvalidConfig(m),
                None => r matches Ok(o) && o.wf() && o@ == (AdamView { config, states: seq![] }),
            },
    {
        match config.validate() {
            Err(e) => Err(e),
            Ok(_) => {
                let o = Adam8bit { config, states: Vec::new() };
                assert(o@.states =~= seq![]);
                Ok(o)
            },
        }
    }

    /// The step `t` that each parameter makes next.
    pub fn next_steps(&self, params: &[Vec<u32>]) -> (r: Vec<u64>)
        requires
            self.wf(),
            self@.steps_fit(lora::lists(params@)),
        ensures
            r@.len() == params@.len(),
            forall|i: int|
                0 <= i < r@.len() ==> #[trigger] r@[i] == self@.next_step(
                    lora::lists(params@),
                    i,
                ),
    {
        let mut out: Vec<u64> = Vec::new();
        let mut i: usize = 0;
        while i < params.len()
            invariant
                i <= params@.len(),
                out@.len() == i,
                self@.steps_fit(lora::lists(params@)),
                forall|j: int|
                    0 <= j < i ==> #[trigger] out@[j] == self@.next_step(
                        lora::lists(params@),
                        j,
                    ),
            decreases params@.len() - i,
        {
            assert(self@.next_step(lora::lists(params@), i as int) <= u64::MAX);
            if i < self.states.len() && self.states[i].numel == params[i].len() {
                out.push(self.states[i].step + 1);
            } else {
                out.push(1);
            }
            i = i + 1;
        }
        out
    }

    /// Total 8-bit state bytes (vs 8 bytes/element for plain moments).
    pub fn state_bytes(&self) -> (r: usize)
        requires
            total_bytes(self@.states) <= usize::MAX,
        ensures
            r == total_bytes(self@.states),
    {
        let mut n: usize = 0;
        let mut i: usize = 0;
        let ghost views = self@.states;
        while i < self.states.len()
            invariant
                i <= self.states@.len(),
                views == state_views(self.states@),
                total_bytes(views) <= usize::MAX,
                n == total_bytes(views.take(i as int)),
            decreases self.states@.len() - i,
        {
            proof {
                lemma_total_take(views, i as int);
            }
            n = n + self.states[i].state_bytes();
            i = i + 1;
        }
        assert(views.take(i as int) =~= views);
        n
    }

    /// One optimizer step over `(param, grad)` pairs, updating params in
    /// place. `powers[i]` holds `beta1^t` and `beta2^t` for the step `t` that
    /// parameter `i` makes.
    ///
    /// Where a gradient has the wrong length, the parameters before it have
    /// already made their step.
    pub fn step(
        &mut self,
        params: &mut Vec<Vec<u32>>,
        grads: &[Vec<u32>],
        powers: &[(u32, u32)],
    ) -> (r: Result<AdamStats, QloraError>)
        requires
            old(self).wf(),
            old(self)@.fits(lora::lists(old(params)@), lora::lists(grads@)),
            powers@.len() >= steppable(lora::lists(old(params)@), lora::lists(grads@)),
        ensures
            final(self).wf(),
            old(self)@.makes_step(
                lora::lists(old(params)@),
                lora::lists(grads@),
                powers@,
                lora::lists(final(params)@),
                final(self)@,
                r,
            ),
    {
        let ghost p0 = lora::lists(params@);
        let ghost g0 = lora::lists(grads@);
        let ghost me = self@;
        let n: usize = params.len();
        let ghost d = me.config.block_size as nat;
        proof {
            assert(stepped_params(me.config, me.states, p0, g0, powers@, 0) =~= p0);
            assert(stepped_states(me.config, me.states, p0, g0, 0) =~= me.states);
        }
        if n != grads.len() {
            return Err(sizes_differ("params.len()", n, "grads.len()", grads.len()));
        }
        let c: AdamConfig = self.config;
        let mut pages: usize = 0;
        let mut i: usize = 0;
        assert(total_blocks(p0.take(0), d) == 0);
        while i < n
            invariant
                i <= n,
                n == params@.len() == p0.len() == g0.len() == grads@.len(),
                g0 == lora::lists(grads@),
                p0 == lora::lists(old(params)@),
                me == old(self)@,
                powers@.len() >= steppable(p0, g0),
                self.wf(),
                c == me.config,
                c == self.config,
                d == c.block_size as nat,
                me.fits(p0, g0),
                self@.config == c,
                self@.states == stepped_states(c, me.states, p0, g0, i as int),
                lora::lists(params@) == stepped_params(c, me.states, p0, g0, powers@, i as int),
                pages == total_blocks(p0.take(i as int), d),
                agreeing(p0, g0, 0) == agreeing(p0, g0, i as int),
            decreases n - i,
        {
            assert(lora::lists(params@)[i as int] == p0[i as int]);
            let numel: usize = params[i].len();
            if numel != grads[i].len() {
                let mut left = "param ".to_owned();
                text::push_decimal(&mut left, i as u64);
                left.append(": len");
                return Err(sizes_differ(left.as_str(), numel, "grad len", grads[i].len()));
            }
            let ghost reach = steppable(p0, g0);
            proof {
                lemma_agreeing(p0, g0, i + 1);
                assert(reach == agreeing(p0, g0, i + 1));
                let done = p0.take(reach);
                lemma_blocks_take(done, d, i as int);
                assert(done.take(i + 1) =~= p0.take(i + 1));
                assert(done.take(i as int) =~= p0.take(i as int));
                assert(me.next_step(p0, i as int) <= u64::MAX);
            }
            let ghost kept = self@.states;
            let ghost held = lora::lists(params@);
            assert(kept.len() == self.states@.len());
            let mut st: ParamState = ParamState::new(numel, c.block_size);
            if i < self.states.len() {
                assert(kept[i as int] == me.states[i as int]);
                if self.states[i].numel == numel {
                    self.states.set_and_swap(i, &mut st);
                }
            } else {
                self.states.push(ParamState::new(numel, c.block_size));
            }
            let ghost mine = state_for(me.states, i as int, numel as nat, d);
            assert(st@ == mine);
            let mut p: Vec<u32> = Vec::new();
            params.set_and_swap(i, &mut p);
            let more: usize = step_param(&c, &mut st, &mut p, &grads[i], powers[i]);
            params.set(i, p);
            self.states.set(i, st);
            pages = pages + more;
            i = i + 1;
            proof {
                let was = stepped_states(c, me.states, p0, g0, i - 1);
                let next = stepped_states(c, me.states, p0, g0, i as int);
                assert(next[i - 1] == mine.next(c, g0[i - 1]));
                assert forall|k: int| 0 <= k < next.len() implies self@.states[k] == #[trigger] next[k] by {
                    if k != i - 1 {
                        assert(self@.states[k] == kept[k]);
                        assert(kept[k] == was[k]);
                    }
                }
                let before = stepped_params(c, me.states, p0, g0, powers@, i - 1);
                let now = stepped_params(c, me.states, p0, g0, powers@, i as int);
                assert(now[i - 1] == mine.next_params(c, p0[i - 1], g0[i - 1], powers@[i - 1]));
                assert forall|k: int| 0 <= k < now.len() implies lora::lists(params@)[k] == #[trigger] now[k] by {
                    if k != i - 1 {
                        assert(now[k] == before[k]);
                        assert(lora::lists(params@)[k] == held[k]);
                    }
                }
                assert(self@.states =~= stepped_states(c, me.states, p0, g0, i as int));
                assert(lora::lists(params@) =~= stepped_params(c, me.states, p0, g0, powers@, i as int));
            }
        }
        assert(p0.take(n as int) =~= p0);
        Ok(AdamStats { pages_streamed: pages, state_bytes: self.state_bytes() })
    }

    /// One optimizer step over `(param, grad)` pairs, updating params in
    /// place. `powf` works on binary32 bit patterns.
    pub fn step_with<P: Fn(u32, u32) -> u32>(
        &mut self,
        params: &mut Vec<Vec<u32>>,
        grads: &[Vec<u32>],
        powf: &P,
    ) -> (r: Result<AdamStats, QloraError>)
        requires
            old(self).wf(),
            old(self)@.fits(lora::lists(old(params)@), lora::lists(grads@)),
            old(self)@.steps_fit(lora::lists(old(params)@)),
            forall|x: u32, y: u32| #[trigger] powf.requires((x, y)),
        ensures
            final(self).wf(),
            exists|powers: Seq<(u32, u32)>|
                {
                    &&& #[trigger] old(self)@.are_powers(lora::lists(old(params)@), *powf, powers)
                    &&& old(self)@.makes_step(
                        lora::lists(old(params)@),
                        lora::lists(grads@),
                        powers,
                        lora::lists(final(params)@),
                        final(self)@,
                        r,
                    )
                },
    {
        let ghost me = self@;
        let ghost p0 = lora::lists(params@);
        let steps = self.next_steps(params.as_slice());
        let c: AdamConfig = self.config;
        let mut powers: Vec<(u32, u32)> = Vec::new();
        let mut i: usize = 0;
        while i < steps.len()
            invariant
                i <= steps@.len(),
                powers@.len() == i,
                steps@.len() == p0.len(),
                c == me.config,
                forall|x: u32, y: u32| #[trigger] powf.requires((x, y)),
                forall|j: int| 0 <= j < steps@.len() ==> #[trigger] steps@[j] == me.next_step(p0, j),
                forall|j: int|
                    0 <= j < i ==> {
                        let t = single::of_integer(me.next_step(p0, j) as int);
                        &&& call_ensures(*powf, (c.beta1, t), (#[trigger] powers@[j]).0)
                        &&& call_ensures(*powf, (c.beta2, t), powers@[j].1)
                    },
            decreases steps@.len() - i,
        {
            let t: u32 = single::from_u64(steps[i]);
            assert(steps@[i as int] == me.next_step(p0, i as int));
            powers.push((powf(c.beta1, t), powf(c.beta2, t)));
            i = i + 1;
        }
        assert(me.are_powers(p0, *powf, powers@));
        proof {
            lemma_agreeing(p0, lora::lists(grads@), 0);
        }
        self.step(params, grads, powers.as_slice())
    }
}

/// Eight-bit states take two bytes per element and eight per block, which is
/// less than the eight bytes per element that plain moments take.
pub proof fn lemma_state_size(st: StateView, c: AdamConfig, g: Seq<u32>)
    requires
        c.block_size > 0,
        st.wf(c.block_size as nat),
    ensures
        st.bytes() == 2 * st.numel + 8 * quant::ceil_div(st.numel, c.block_size as nat),
        c.block_size >= 2 && st.numel >= 3 ==> st.bytes() < 8 * st.numel,
        st.next(c, g).wf(c.block_size as nat),
        st.next(c, g).bytes() == st.bytes(),
{
    let (n, d) = (st.numel, c.block_size as nat);
    crate::ieee::lemma_div_parts(n, d);
    let (q, r) = (n / d, n % d);
    assert(d >= 2 ==> 2 * q <= n) by (nonlinear_arith)
        requires
            n == d * q + r,
            r >= 0,
    ;
    assert(d >= 2 && r > 0 ==> 2 * q < n) by (nonlinear_arith)
        requires
            n == d * q + r,
            r >= 0,
    ;
}

/// The window plays no part in a parameter's step.
proof fn lemma_window(
    st: StateView,
    a: AdamConfig,
    b: AdamConfig,
    p: Seq<u32>,
    g: Seq<u32>,
    powers: (u32, u32),
)
    requires
        b == (AdamConfig { max_resident_pages: b.max_resident_pages, ..a }),
    ensures
        st.next(a, g) == st.next(b, g),
        st.next_params(a, p, g, powers) == st.next_params(b, p, g, powers),
{
    reveal(moment);
    reveal(second_moment);
    reveal(moved);
    assert(st.next_ms(a, g) =~= st.next_ms(b, g));
    assert(st.next_roots(a, g) =~= st.next_roots(b, g));
    assert(st.next_params(a, p, g, powers) =~= st.next_params(b, p, g, powers));
}

/// Paging changes nothing but the memory that is used: with the same other
/// settings, any two windows give the same parameters, states and counts.
pub proof fn lemma_paging(
    a: AdamView,
    b: AdamView,
    params: Seq<Seq<u32>>,
    grads: Seq<Seq<u32>>,
    powers: Seq<(u32, u32)>,
    n: int,
)
    requires
        a.states == b.states,
        b.config == (AdamConfig { max_resident_pages: b.config.max_resident_pages, ..a.config }),
        0 <= n <= params.len(),
    ensures
        a.after(params, grads, powers, n).0 == b.after(params, grads, powers, n).0,
        a.after(params, grads, powers, n).1.states == b.after(params, grads, powers, n).1.states,
{
    assert forall|i: int| 0 <= i < n implies #[trigger] state_for(
        a.states,
        i,
        params[i].len(),
        a.config.block_size as nat,
    ).next(a.config, grads[i]) == state_for(
        b.states,
        i,
        params[i].len(),
        b.config.block_size as nat,
    ).next(b.config, grads[i]) by {
        let st = state_for(a.states, i, params[i].len(), a.config.block_size as nat);
        lemma_window(st, a.config, b.config, params[i], grads[i], powers[i]);
    }
    assert forall|i: int| 0 <= i < n implies #[trigger] state_for(
        a.states,
        i,
        params[i].len(),
        a.config.block_size as nat,
    ).next_params(a.config, params[i], grads[i], powers[i]) == state_for(
        b.states,
        i,
        params[i].len(),
        b.config.block_size as nat,
    ).next_params(b.config, params[i], grads[i], powers[i]) by {
        let st = state_for(a.states, i, params[i].len(), a.config.block_size as nat);
        lemma_window(st, a.config, b.config, params[i], grads[i], powers[i]);
    }
    assert(a.after(params, grads, powers, n).0 =~= b.after(params, grads, powers, n).0);
    assert(a.after(params, grads, powers, n).1.states =~= b.after(
        params,
        grads,
        powers,
        n,
    ).1.states);
}

/// What one call of `step` is given.
pub struct StepCall {
    pub params: Seq<Seq<u32>>,
    pub grads: Seq<Seq<u32>>,
    pub powers: Seq<(u32, u32)>,
}

impl AdamView {
    /// The parameters and the report of one call.
    pub open spec fn outcome(self, call: StepCall) -> (
        Seq<Seq<u32>>,
        Result<(nat, nat), QloraErrorView>,
    ) {
        (
            self.after(
                call.params,
                call.grads,
                call.powers,
                steppable(call.params, call.grads),
            ).0,
            self.report(call.params, call.grads),
        )
    }

    /// The optimizer after consecutive calls.
    pub open spec fn driven(self, calls: Seq<StepCall>) -> AdamView
        decreases calls.len(),
    {
        if calls.len() == 0 {
            self
        } else {
            let call = calls.last();
            self.driven(calls.drop_last()).after(
                call.params,
                call.grads,
                call.powers,
                steppable(call.params, call.grads),
            ).1
        }
    }
}

proof fn lemma_agreeing(params: Seq<Seq<u32>>, grads: Seq<Seq<u32>>, i: int)
    requires
        0 <= i <= params.len(),
    ensures
        i <= agreeing(params, grads, i) <= params.len(),
    decreases params.len() - i,
{
    if i < params.len() && params[i].len() == grads[i].len() {
        lemma_agreeing(params, grads, i + 1);
    }
}

/// Two optimizers that differ in their window alone stay equal under the same
/// calls, and each call gives the same parameters and the same report.
pub proof fn lemma_paging_of_calls(a: AdamView, b: AdamView, calls: Seq<StepCall>)
    requires
        a.states == b.states,
        b.config == (AdamConfig { max_resident_pages: b.config.max_resident_pages, ..a.config }),
    ensures
        a.driven(calls).states == b.driven(calls).states,
        a.driven(calls).config == a.config,
        b.driven(calls).config == b.config,
        forall|k: int|
            0 <= k < calls.len() ==> a.driven(calls.take(k)).outcome(#[trigger] calls[k])
                == b.driven(calls.take(k)).outcome(calls[k]),
    decreases calls.len(),
{
    if calls.len() > 0 {
        let front = calls.drop_last();
        let call = calls.last();
        lemma_paging_of_calls(a, b, front);
        lemma_agreeing(call.params, call.grads, 0);
        lemma_paging(
            a.driven(front),
            b.driven(front),
            call.params,
            call.grads,
            call.powers,
            steppable(call.params, call.grads),
        );
        assert forall|k: int| 0 <= k < calls.len() implies a.driven(calls.take(k)).outcome(
            #[trigger] calls[k],
        ) == b.driven(calls.take(k)).outcome(calls[k]) by {
            if k < front.len() {
                assert(calls.take(k) =~= front.take(k));
                assert(front[k] == calls[k]);
            } else {
                assert(calls.take(k) =~= front);
            }
        }
    }
}

/// Reading back a block of 8-bit states: each value is within `0.5 / 127` of
/// the scale of the original, up to three parts in `2^24` of the scale and half
/// the smallest positive number. For a scale of at most two thirds that is
/// `0.5 / 127` of the scale and `1e-7`.
pub proof fn lemma_int8_round_trip(x: Seq<u32>, i: int)
    requires
        forall|j: int| 0 <= j < x.len() ==> single::is_finite(#[trigger] x[j]),
        0 <= i < x.len(),
    ensures
        ({
            let scale = quant::absmax(x);
            let back = quant::decoded_scale(quant::int8_code(x[i], scale), scale);
            let error = crate::ieee::apart(single::value(back), single::value(x[i]));
            &&& single::is_finite(back)
            &&& 254 * 0x100_0000 * error <= (0x100_0000 + 636) * single::value(scale) + 127
                * 0x100_0000
            &&& 3 * single::value(scale) <= 2 * pow2(149) ==> 2_540_000_000 * error <= 10_000_000
                * single::value(scale) + 254 * pow2(149)
        }),
{
    quant::lemma_absmax(x, i);
    quant::lemma_int8_error(x[i], quant::absmax(x));
    quant::lemma_unit_powers();
    let scale = quant::absmax(x);
    let back = quant::decoded_scale(quant::int8_code(x[i], scale), scale);
    let (e, y, u) = (
        crate::ieee::apart(single::value(back), single::value(x[i])),
        single::value(scale),
        pow2(149) as int,
    );
    assert(3 * y <= 2 * u ==> 2_540_000_000 * e <= 10_000_000 * y + 254 * u) by (nonlinear_arith)
        requires
            254 * 0x100_0000 * e <= (0x100_0000 + 636) * y + 127 * 0x100_0000,
            u >= 0x1_0000_0000_0000,
    ;
}

} // verus!
