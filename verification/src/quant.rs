//! NF4 block-wise quantization with optional double quantization.
//!
//! * 4-bit NormalFloat (NF4) codebook: 16 levels, quantile-quantized for a
//!   standard normal distribution in `[-1, 1]`.
//! * Block-wise quantization with block size 64: every block stores its own
//!   binary32 `absmax` scale.
//! * Optional double quantization: the block scales are themselves quantized
//!   to 8 bit in super-blocks of 256 scales.
//!
//! # Storage layout
//!
//! * `codes`: nibbles packed two per byte, little-nibble-first, i.e. element
//!   `2*i` is the low nibble of byte `i`, element `2*i+1` the high nibble.
//! * Scales cover `ceil(n / block_size)` blocks; the last block may be short.
//!
//! Weights and scales are binary32 bit patterns.
use crate::bytes;
use crate::error::{invalid_config, sizes_differ, QloraError, QloraErrorView};
use crate::error;
use crate::ieee;
use crate::single;
use vstd::arithmetic::power2::*;
use vstd::prelude::*;

verus! {

/// NF4 codebook from the QLoRA paper (ascending order), as bit patterns.
pub const NF4_LEVELS: [u32; 16] = [
    0xBF80_0000,
    0xBF32_39B1,
    0xBF06_6B30,
    0xBECA_32A0,
    0xBE91_A24D,
    0xBE3D_353F,
    0xBDBA_7871,
    0x0000_0000,
    0x3DA2_FAFF,
    0x3E24_CAE3,
    0x3E7C_04DD,
    0x3EAD_033A,
    0x3EE1_A4B8,
    0x3F10_07AB,
    0x3F39_13B3,
    0x3F80_0000,
];

/// Code used for all-zero blocks (decodes to exactly `0.0`).
pub const NF4_ZERO_CODE: u8 = 7;

/// Number of block scales covered by one second-level absmax.
pub const DOUBLE_QUANT_BLOCK: usize = 256;

/// The encoding of `127.0`.
pub const F127: u32 = 0x42FE_0000;

/// Quantization settings.
#[derive(Debug, Clone, Copy, PartialEq, Eq, Structural)]
pub struct QuantConfig {
    /// Elements per quantization block. QLoRA uses 64.
    pub block_size: usize,
    /// Whether to double-quantize the block scales to 8 bit.
    pub double_quant: bool,
}

impl Default for QuantConfig {
    fn default() -> (r: Self)
        ensures
            r.block_size == 64,
            r.double_quant,
    {
        QuantConfig { block_size: 64, double_quant: true }
    }
}

impl QuantConfig {
    /// Validates the config.
    pub fn validate(&self) -> (r: Result<(), QloraError>)
        ensures
            if self.block_size == 0 {
                r matches Err(e) && e@ == QloraErrorView::InvalidConfig("block_size must be > 0"@)
            } else {
                r is Ok
            },
    {
        if self.block_size == 0 {
            return Err(invalid_config("block_size must be > 0"));
        }
        Ok(())
    }
}

/// `ceil(n / d)`.
pub open spec fn ceil_div(n: nat, d: nat) -> nat {
    if n % d == 0 {
        n / d
    } else {
        n / d + 1
    }
}

pub fn div_up(n: usize, d: usize) -> (r: usize)
    requires
        d > 0,
    ensures
        r == ceil_div(n as nat, d as nat),
        r <= n,
{
    proof {
        ieee::lemma_div_parts(n as nat, d as nat);
        let (q, m) = (n as nat / d as nat, n as nat % d as nat);
        assert(q + (if m > 0 {
            1nat
        } else {
            0
        }) <= n) by (nonlinear_arith)
            requires
                n == d * q + m,
                d >= 1,
                m >= 0,
        ;
    }
    if n % d == 0 {
        n / d
    } else {
        n / d + 1
    }
}

/// Every element lies in one of the blocks.
pub proof fn lemma_block_of(n: nat, d: nat, i: nat)
    requires
        d > 0,
        i < n,
    ensures
        i / d < ceil_div(n, d),
        (i / d) * d <= i < (i / d) * d + d,
{
    ieee::lemma_div_parts(n, d);
    ieee::lemma_div_parts(i, d);
    let (q, m, b, r) = (n / d, n % d, i / d, i % d);
    assert(b * d == d * b) by (nonlinear_arith);
    assert(b < q || (b == q && r < m)) by (nonlinear_arith)
        requires
            d * b + r < d * q + m,
            m < d,
            r >= 0,
            d > 0,
    ;
}

/// The last block begins inside the data.
pub proof fn lemma_block_start(n: nat, d: nat, b: nat)
    requires
        d > 0,
        b < ceil_div(n, d),
    ensures
        b * d < n,
{
    ieee::lemma_div_parts(n, d);
    let (q, m) = (n / d, n % d);
    assert(b * d < n) by (nonlinear_arith)
        requires
            n == d * q + m,
            b < q || (b == q && m > 0),
            d > 0,
            m >= 0,
    ;
}

/// Elements `b * d` to `(b + 1) * d`, or to the end.
pub open spec fn block(s: Seq<u32>, b: int, d: int) -> Seq<u32> {
    s.subrange(b * d, if b * d + d <= s.len() {
        b * d + d
    } else {
        s.len() as int
    })
}

/// The largest magnitude among the numbers in `s`.
pub open spec fn absmax(s: Seq<u32>) -> u32
    decreases s.len(),
{
    if s.len() == 0 {
        0
    } else {
        single::larger(absmax(s.drop_last()), single::absolute(s.last()))
    }
}

/// Largest magnitude of each block.
pub open spec fn block_maxima(s: Seq<u32>, d: int) -> Seq<u32> {
    Seq::new(ceil_div(s.len(), d as nat), |b: int| absmax(block(s, b, d)))
}

fn find_absmax(s: &[u32], from: usize, to: usize) -> (r: u32)
    requires
        from <= to <= s@.len(),
    ensures
        r == absmax(s@.subrange(from as int, to as int)),
{
    let mut m: u32 = 0;
    let mut i: usize = from;
    assert(s@.subrange(from as int, from as int).len() == 0);
    while i < to
        invariant
            from <= i <= to <= s@.len(),
            m == absmax(s@.subrange(from as int, i as int)),
        decreases to - i,
    {
        assert(s@.subrange(from as int, i + 1).drop_last() =~= s@.subrange(from as int, i as int));
        m = single::max(m, single::abs(s[i]));
        i = i + 1;
    }
    m
}

fn find_block_maxima(s: &[u32], d: usize) -> (r: Vec<u32>)
    requires
        d > 0,
    ensures
        r@ == block_maxima(s@, d as int),
{
    let n: usize = s.len();
    let count: usize = div_up(n, d);
    let mut out: Vec<u32> = Vec::new();
    let mut b: usize = 0;
    let mut start: usize = 0;
    while b < count
        invariant
            d > 0,
            n == s@.len(),
            count == ceil_div(n as nat, d as nat),
            b <= count,
            b < count ==> start == b * d,
            out@.len() == b,
            forall|j: int| 0 <= j < b ==> #[trigger] out@[j] == absmax(block(s@, j, d as int)),
        decreases count - b,
    {
        proof {
            lemma_block_start(n as nat, d as nat, b as nat);
            assert((b + 1) * d == b * d + d) by (nonlinear_arith);
            if b + 1 < count {
                lemma_block_start(n as nat, d as nat, (b + 1) as nat);
            }
        }
        let end: usize = if n - start >= d {
            start + d
        } else {
            n
        };
        out.push(find_absmax(s, start, end));
        start = end;
        b = b + 1;
    }
    assert(out@ =~= block_maxima(s@, d as int));
    out
}

/// The level nearest to `target` among the first `n`, the first one of equals,
/// and its distance.
pub open spec fn nearest_level(target: u32, n: int) -> (u8, u32)
    decreases n,
{
    if n <= 0 {
        (0, single::INFINITY)
    } else {
        let (best, dist) = nearest_level(target, n - 1);
        let d = single::absolute(single::difference(NF4_LEVELS@[n - 1], target));
        if single::below(d, dist) {
            ((n - 1) as u8, d)
        } else {
            (best, dist)
        }
    }
}

/// The NF4 code for `w` in a block whose largest magnitude is `m`.
pub open spec fn nf4_code(w: u32, m: u32) -> u8 {
    if single::same_number(m, 0) {
        NF4_ZERO_CODE
    } else {
        nearest_level(single::quotient(w, m), 16).0
    }
}

pub proof fn lemma_nearest_level(target: u32, n: int)
    requires
        0 <= n <= 16,
    ensures
        nearest_level(target, n).0 < 16,
        n > 0 ==> nearest_level(target, n).0 < n,
    decreases n,
{
    if n > 0 {
        lemma_nearest_level(target, n - 1);
    }
}

/// Nearest NF4 code for `w` given the block `absmax`.
///
/// A zero block maps every element to [`NF4_ZERO_CODE`] (exact `0.0`).
pub fn nearest_nf4_code(w: u32, m: u32) -> (r: u8)
    ensures
        r == nf4_code(w, m),
        r < 16,
{
    if single::equal(m, 0) {
        return NF4_ZERO_CODE;
    }
    let target: u32 = single::over(w, m);
    let levels: [u32; 16] = NF4_LEVELS;
    let mut best: u8 = 0;
    let mut dist: u32 = single::INFINITY;
    let mut i: usize = 0;
    while i < 16
        invariant
            i <= 16,
            levels@ == NF4_LEVELS@,
            (best, dist) == nearest_level(target, i as int),
        decreases 16 - i,
    {
        let d: u32 = single::abs(single::minus(levels[i], target));
        if single::less(d, dist) {
            dist = d;
            best = i as u8;
        }
        i = i + 1;
    }
    proof {
        lemma_nearest_level(target, 16);
    }
    best
}

/// Two codes per byte, the first one low; a missing last code is zero.
pub open spec fn packed(codes: Seq<u8>) -> Seq<u8> {
    Seq::new(
        ceil_div(codes.len(), 2),
        |i: int|
            (codes[2 * i] + 16 * (if 2 * i + 1 < codes.len() {
                codes[2 * i + 1] as int
            } else {
                0
            })) as u8,
    )
}

/// The code of element `i`.
pub open spec fn code_at(bytes: Seq<u8>, i: int) -> u8 {
    if i % 2 == 0 {
        bytes[i / 2] % 16
    } else {
        bytes[i / 2] / 16
    }
}

/// Unpacking gives the codes that were packed.
pub proof fn lemma_unpack(codes: Seq<u8>, i: int)
    requires
        0 <= i < codes.len(),
        forall|j: int| 0 <= j < codes.len() ==> #[trigger] codes[j] < 16,
    ensures
        code_at(packed(codes), i) == codes[i],
{
    let k = i / 2;
    assert(codes[i] < 16);
    if i % 2 == 0 {
        assert(2 * k == i);
        if i + 1 < codes.len() {
            assert(codes[i + 1] < 16);
        }
    } else {
        assert(2 * k + 1 == i);
        assert(codes[i - 1] < 16);
    }
}

/// The model of a quantized matrix's scales.
#[verifier::ext_equal]
pub enum ScaleView {
    /// One scale per block.
    F32(Seq<u32>),
    /// Signed 8-bit codes with one absmax per 256 of them.
    Int8 { codes: Seq<u8>, absmax: Seq<u32> },
}

/// The scale that an 8-bit code stands for: `code / 127 * absmax`.
pub open spec fn decoded_scale(code: u8, m: u32) -> u32 {
    single::product(single::quotient(single::of_integer(single::as_signed(code)), F127), m)
}

/// The 8-bit code of a value in a group whose largest magnitude is `m`.
pub open spec fn int8_code(x: u32, m: u32) -> u8 {
    if single::same_number(m, 0) {
        0
    } else {
        single::as_byte(single::nearest_int8(single::product(single::quotient(x, m), F127)))
    }
}

impl ScaleView {
    /// The scale of each block.
    pub open spec fn scales(self) -> Seq<u32> {
        match self {
            ScaleView::F32(s) => s,
            ScaleView::Int8 { codes, absmax } => Seq::new(
                codes.len(),
                |i: int| decoded_scale(codes[i], absmax[i / 256]),
            ),
        }
    }

    /// Kept in the same way, with equal codes and equal numbers.
    pub open spec fn same(self, other: ScaleView) -> bool {
        match (self, other) {
            (ScaleView::F32(a), ScaleView::F32(b)) => single::same_numbers(a, b),
            (
                ScaleView::Int8 { codes: c, absmax: a },
                ScaleView::Int8 { codes: d, absmax: b },
            ) => c == d && single::same_numbers(a, b),
            _ => false,
        }
    }

    /// Bytes that the scales take.
    pub open spec fn bytes(self) -> nat {
        match self {
            ScaleView::F32(s) => s.len() * 4,
            ScaleView::Int8 { codes, absmax } => codes.len() + absmax.len() * 4,
        }
    }

    pub open spec fn wf(self) -> bool {
        match self {
            ScaleView::F32(s) => true,
            ScaleView::Int8 { codes, absmax } => absmax.len() == ceil_div(codes.len(), 256),
        }
    }
}

/// The scales quantized to 8 bit, 256 of them per absmax.
pub open spec fn double_quantized(scales: Seq<u32>) -> ScaleView {
    let maxima = block_maxima(scales, 256);
    ScaleView::Int8 {
        codes: Seq::new(scales.len(), |i: int| int8_code(scales[i], maxima[i / 256])),
        absmax: maxima,
    }
}

/// The model of a quantized matrix.
#[verifier::ext_equal]
pub struct TensorView {
    pub rows: nat,
    pub cols: nat,
    pub block_size: nat,
    /// Packed codes.
    pub codes: Seq<u8>,
    pub scales: ScaleView,
}

impl TensorView {
    pub open spec fn len(self) -> nat {
        self.rows * self.cols
    }

    pub open spec fn wf(self) -> bool {
        &&& self.block_size > 0
        &&& self.len() <= usize::MAX
        &&& self.codes.len() == ceil_div(self.len(), 2)
        &&& self.scales.wf()
        &&& self.scales.scales().len() == ceil_div(self.len(), self.block_size)
    }

    /// The values that codes and scales stand for.
    pub open spec fn values(self) -> Seq<u32> {
        Seq::new(
            self.len(),
            |i: int|
                single::product(
                    NF4_LEVELS@[code_at(self.codes, i) as int],
                    self.scales.scales()[i / self.block_size as int],
                ),
        )
    }

    /// Equal sizes, equal codes and equal scales.
    pub open spec fn same(self, other: TensorView) -> bool {
        &&& self.rows == other.rows
        &&& self.cols == other.cols
        &&& self.block_size == other.block_size
        &&& self.codes == other.codes
        &&& self.scales.same(other.scales)
    }

    /// Bytes of codes and scales.
    pub open spec fn storage(self) -> nat {
        self.codes.len() + self.scales.bytes()
    }
}

/// The code of each weight.
pub open spec fn weight_codes(weights: Seq<u32>, d: int) -> Seq<u8> {
    Seq::new(weights.len(), |i: int| nf4_code(weights[i], block_maxima(weights, d)[i / d]))
}

/// The quantized form of a row-major matrix.
pub open spec fn quantized(
    weights: Seq<u32>,
    rows: nat,
    cols: nat,
    config: QuantConfig,
) -> TensorView {
    let maxima = block_maxima(weights, config.block_size as int);
    TensorView {
        rows,
        cols,
        block_size: config.block_size as nat,
        codes: packed(weight_codes(weights, config.block_size as int)),
        scales: if config.double_quant {
            double_quantized(maxima)
        } else {
            ScaleView::F32(maxima)
        },
    }
}

/// Quantized weights are well formed.
pub proof fn lemma_quantized_wf(weights: Seq<u32>, rows: nat, cols: nat, config: QuantConfig)
    requires
        config.block_size > 0,
        rows * cols <= usize::MAX,
        weights.len() == rows * cols,
    ensures
        quantized(weights, rows, cols, config).wf(),
{
}

/// Compact storage for the per-block scales.
#[derive(Debug, Clone)]
enum ScaleStore {
    /// One scale per block.
    F32(Vec<u32>),
    /// 8-bit quantized scales: `scale = (code as i8) / 127 * absmax`.
    Int8 { codes: Vec<u8>, absmax: Vec<u32> },
}

impl View for ScaleStore {
    type V = ScaleView;

    closed spec fn view(&self) -> ScaleView {
        match self {
            ScaleStore::F32(s) => ScaleView::F32(s@),
            ScaleStore::Int8 { codes, absmax } => ScaleView::Int8 {
                codes: codes@,
                absmax: absmax@,
            },
        }
    }
}

/// A row-major `(rows, cols)` weight matrix quantized to NF4.
#[derive(Debug, Clone)]
pub struct QuantizedTensor {
    rows: usize,
    cols: usize,
    block_size: usize,
    /// Packed nibbles, little-nibble-first, `ceil(n / 2)` bytes.
    codes: Vec<u8>,
    scales: ScaleStore,
}

impl View for QuantizedTensor {
    type V = TensorView;

    closed spec fn view(&self) -> TensorView {
        TensorView {
            rows: self.rows as nat,
            cols: self.cols as nat,
            block_size: self.block_size as nat,
            codes: self.codes@,
            scales: self.scales@,
        }
    }
}

impl ScaleStore {
    fn same(&self, other: &ScaleStore) -> (r: bool)
        ensures
            r == self@.same(other@),
    {
        match (self, other) {
            (ScaleStore::F32(a), ScaleStore::F32(b)) => single::equal_lists(
                a.as_slice(),
                b.as_slice(),
            ),
            (
                ScaleStore::Int8 { codes: c, absmax: a },
                ScaleStore::Int8 { codes: d, absmax: b },
            ) => bytes::same_bytes(c.as_slice(), d.as_slice()) && single::equal_lists(
                a.as_slice(),
                b.as_slice(),
            ),
            _ => false,
        }
    }
}

impl PartialEq for QuantizedTensor {
    /// Equal sizes, equal codes and equal scales.
    fn eq(&self, other: &Self) -> (r: bool) {
        self.rows == other.rows && self.cols == other.cols && self.block_size == other.block_size
            && bytes::same_bytes(self.codes.as_slice(), other.codes.as_slice())
            && self.scales.same(&other.scales)
    }
}

impl vstd::std_specs::cmp::PartialEqSpecImpl for QuantizedTensor {
    open spec fn obeys_eq_spec() -> bool {
        true
    }

    open spec fn eq_spec(&self, other: &Self) -> bool {
        self@.same(other@)
    }
}

/// Double-quantizes block scales to 8 bit, 256 scales per super-block.
///
/// Returns `(codes, absmax)` where codes hold signed values.
fn double_quantize_scales(scales: &[u32]) -> (r: (Vec<u8>, Vec<u32>))
    ensures
        double_quantized(scales@) == (ScaleView::Int8 { codes: r.0@, absmax: r.1@ }),
{
    let maxima = find_block_maxima(scales, DOUBLE_QUANT_BLOCK);
    let n: usize = scales.len();
    let mut codes: Vec<u8> = Vec::new();
    let mut i: usize = 0;
    while i < n
        invariant
            n == scales@.len(),
            i <= n,
            maxima@ == block_maxima(scales@, 256),
            codes@.len() == i,
            forall|j: int|
                0 <= j < i ==> #[trigger] codes@[j] == int8_code(scales@[j], maxima@[j / 256]),
        decreases n - i,
    {
        proof {
            lemma_block_of(n as nat, 256, i as nat);
        }
        let m: u32 = maxima[i / DOUBLE_QUANT_BLOCK];
        codes.push(quantize_int8(scales[i], m));
        i = i + 1;
    }
    proof {
        let want = Seq::new(scales@.len(), |i: int| int8_code(scales@[i], maxima@[i / 256]));
        assert(codes@ =~= want);
    }
    (codes, maxima)
}

/// The 8-bit code of a value in a group whose largest magnitude is `m`.
pub fn quantize_int8(x: u32, m: u32) -> (r: u8)
    ensures
        r == int8_code(x, m),
{
    if single::equal(m, 0) {
        0
    } else {
        single::round_to_int8(single::times(single::over(x, m), F127))
    }
}

/// The value that an 8-bit code stands for.
pub fn dequantize_int8(code: u8, m: u32) -> (r: u32)
    ensures
        r == decoded_scale(code, m),
{
    single::times(single::over(single::from_int8(code), F127), m)
}

impl QuantizedTensor {
    /// Quantizes a row-major `(rows, cols)` matrix.
    pub fn quantize(weights: &[u32], rows: usize, cols: usize, config: &QuantConfig) -> (r: Result<
        QuantizedTensor,
        QloraError,
    >)
        ensures
            if config.block_size == 0 {
                r matches Err(e) && e@ == QloraErrorView::InvalidConfig("block_size must be > 0"@)
            } else if rows * cols > usize::MAX {
                r matches Err(e) && e@ == QloraErrorView::InvalidConfig("rows*cols overflow"@)
            } else if weights@.len() != rows * cols {
                r matches Err(e) && e@ == QloraErrorView::ShapeMismatch(
                    error::disagreement(
                        "weights.len()"@,
                        weights@.len(),
                        "rows*cols"@,
                        (rows * cols) as nat,
                    ),
                )
            } else {
                r matches Ok(q) && q@ == quantized(weights@, rows as nat, cols as nat, *config)
                    && q@.wf()
            },
    {
        match config.validate() {
            Ok(_) => {},
            Err(e) => {
                return Err(e);
            },
        }
        let n: usize = match rows.checked_mul(cols) {
            Some(n) => n,
            None => {
                return Err(invalid_config("rows*cols overflow"));
            },
        };
        if weights.len() != n {
            return Err(sizes_differ("weights.len()", weights.len(), "rows*cols", n));
        }
        let block_size: usize = config.block_size;
        let maxima = find_block_maxima(weights, block_size);
        let ghost want = weight_codes(weights@, block_size as int);
        let bytes: usize = div_up(n, 2);
        let mut codes: Vec<u8> = Vec::new();
        let mut i: usize = 0;
        while i < bytes
            invariant
                n == weights@.len(),
                block_size > 0,
                bytes == ceil_div(n as nat, 2),
                i <= bytes,
                maxima@ == block_maxima(weights@, block_size as int),
                want == weight_codes(weights@, block_size as int),
                codes@.len() == i,
                forall|j: int| 0 <= j < i ==> #[trigger] codes@[j] == packed(want)[j],
            decreases bytes - i,
        {
            proof {
                lemma_block_of(n as nat, block_size as nat, (2 * i) as nat);
            }
            let low: u8 = nearest_nf4_code(weights[2 * i], maxima[2 * i / block_size]);
            let high: u8 = if n - 2 * i > 1 {
                proof {
                    lemma_block_of(n as nat, block_size as nat, (2 * i + 1) as nat);
                }
                nearest_nf4_code(weights[2 * i + 1], maxima[(2 * i + 1) / block_size])
            } else {
                0
            };
            proof {
                assert(want[2 * i] == low);
                if 2 * i + 1 < n {
                    assert(want[2 * i + 1] == high);
                }
            }
            codes.push(low + 16 * high);
            i = i + 1;
        }
        assert(codes@ =~= packed(want));
        let scales: ScaleStore = if config.double_quant {
            let (codes8, absmax8) = double_quantize_scales(maxima.as_slice());
            ScaleStore::Int8 { codes: codes8, absmax: absmax8 }
        } else {
            ScaleStore::F32(maxima)
        };
        Ok(QuantizedTensor { rows, cols, block_size, codes, scales })
    }

    /// Dequantizes back to a row-major vector of length `rows * cols`.
    pub fn dequantize(&self) -> (r: Vec<u32>)
        requires
            self@.wf(),
        ensures
            r@ == self@.values(),
    {
        let n: usize = self.rows * self.cols;
        let scales = self.block_scales();
        let levels: [u32; 16] = NF4_LEVELS;
        let mut out: Vec<u32> = Vec::new();
        let mut i: usize = 0;
        while i < n
            invariant
                self@.wf(),
                n == self@.len(),
                i <= n,
                levels@ == NF4_LEVELS@,
                scales@ == self@.scales.scales(),
                out@.len() == i,
                forall|j: int| 0 <= j < i ==> #[trigger] out@[j] == self@.values()[j],
            decreases n - i,
        {
            proof {
                lemma_block_of(n as nat, self@.block_size, i as nat);
                lemma_block_of(n as nat, 2, i as nat);
            }
            let byte: u8 = self.codes[i / 2];
            let code: u8 = if i % 2 == 0 {
                byte % 16
            } else {
                byte / 16
            };
            out.push(single::times(levels[code as usize], scales[i / self.block_size]));
            i = i + 1;
        }
        assert(out@ =~= self@.values());
        out
    }

    /// Rebuilds a tensor from raw parts with plain scales (validation mirrors
    /// [`Self::quantize`]).
    pub fn from_raw_parts(
        rows: usize,
        cols: usize,
        block_size: usize,
        codes: Vec<u8>,
        scales: Vec<u32>,
    ) -> (r: Result<QuantizedTensor, QloraError>)
        ensures
            if block_size == 0 {
                r matches Err(e) && e@ == QloraErrorView::InvalidConfig("block_size must be > 0"@)
            } else if rows * cols > usize::MAX {
                r matches Err(e) && e@ == QloraErrorView::InvalidConfig("rows*cols overflow"@)
            } else {
                let n = (rows * cols) as nat;
                if codes@.len() != ceil_div(n, 2) {
                    r matches Err(e) && e@ == QloraErrorView::ShapeMismatch(
                        error::disagreement(
                            "codes.len()"@,
                            codes@.len(),
                            "ceil(rows*cols/2)"@,
                            ceil_div(n, 2),
                        ),
                    )
                } else if scales@.len() != ceil_div(n, block_size as nat) {
                    r matches Err(e) && e@ == QloraErrorView::ShapeMismatch(
                        error::disagreement(
                            "scales.len()"@,
                            scales@.len(),
                            "ceil(rows*cols/block_size)"@,
                            ceil_div(n, block_size as nat),
                        ),
                    )
                } else {
                    r matches Ok(q) && q@.wf() && q@ == (TensorView {
                        rows: rows as nat,
                        cols: cols as nat,
                        block_size: block_size as nat,
                        codes: codes@,
                        scales: ScaleView::F32(scales@),
                    })
                }
            },
    {
        if block_size == 0 {
            return Err(invalid_config("block_size must be > 0"));
        }
        let n: usize = match rows.checked_mul(cols) {
            Some(n) => n,
            None => {
                return Err(invalid_config("rows*cols overflow"));
            },
        };
        let half: usize = div_up(n, 2);
        if codes.len() != half {
            return Err(sizes_differ("codes.len()", codes.len(), "ceil(rows*cols/2)", half));
        }
        let blocks: usize = div_up(n, block_size);
        if scales.len() != blocks {
            return Err(
                sizes_differ("scales.len()", scales.len(), "ceil(rows*cols/block_size)", blocks),
            );
        }
        Ok(QuantizedTensor { rows, cols, block_size, codes, scales: ScaleStore::F32(scales) })
    }

    /// Per-block scales (double-quantized scales are decoded on the fly).
    ///
    /// The GPU backend uploads exactly this vector alongside the packed codes.
    pub fn block_scales(&self) -> (r: Vec<u32>)
        requires
            self@.scales.wf(),
        ensures
            r@ == self@.scales.scales(),
    {
        let mut out: Vec<u32> = Vec::new();
        match &self.scales {
            ScaleStore::F32(s) => {
                out.extend_from_slice(s.as_slice());
                assert(out@ =~= s@);
            },
            ScaleStore::Int8 { codes, absmax } => {
                let n: usize = codes.len();
                let mut i: usize = 0;
                while i < n
                    invariant
                        n == codes@.len(),
                        absmax@.len() == ceil_div(n as nat, 256),
                        i <= n,
                        out@.len() == i,
                        forall|j: int|
                            0 <= j < i ==> #[trigger] out@[j] == decoded_scale(
                                codes@[j],
                                absmax@[j / 256],
                            ),
                    decreases n - i,
                {
                    proof {
                        lemma_block_of(n as nat, 256, i as nat);
                    }
                    out.push(dequantize_int8(codes[i], absmax[i / DOUBLE_QUANT_BLOCK]));
                    i = i + 1;
                }
                assert(out@ =~= self@.scales.scales());
            },
        }
        out
    }

    /// Number of elements.
    pub fn num_elements(&self) -> (r: usize)
        requires
            self@.wf(),
        ensures
            r == self@.len(),
    {
        self.rows * self.cols
    }

    /// Bytes used by the quantized payload (codes + scales).
    pub fn storage_bytes(&self) -> (r: usize)
        requires
            self@.storage() <= usize::MAX,
        ensures
            r == self@.storage(),
    {
        let scale_bytes: usize = match &self.scales {
            ScaleStore::F32(s) => s.len() * 4,
            ScaleStore::Int8 { codes, absmax } => codes.len() + absmax.len() * 4,
        };
        self.codes.len() + scale_bytes
    }

    /// Whether double quantization is active.
    pub fn uses_double_quant(&self) -> (r: bool)
        ensures
            r == (self@.scales is Int8),
    {
        match &self.scales {
            ScaleStore::F32(_) => false,
            ScaleStore::Int8 { .. } => true,
        }
    }

    pub fn rows(&self) -> (r: usize)
        ensures
            r == self@.rows,
    {
        self.rows
    }

    pub fn cols(&self) -> (r: usize)
        ensures
            r == self@.cols,
    {
        self.cols
    }

    pub fn block_size(&self) -> (r: usize)
        ensures
            r == self@.block_size,
    {
        self.block_size
    }

    pub fn num_blocks(&self) -> (r: usize)
        requires
            self@.wf(),
        ensures
            r == ceil_div(self@.len(), self@.block_size),
    {
        div_up(self.rows * self.cols, self.block_size)
    }

    /// Packed nibble codes (little-nibble-first).
    pub fn codes(&self) -> (r: &[u8])
        ensures
            r@ == self@.codes,
    {
        self.codes.as_slice()
    }
}

/// The codes of a quantized matrix are those of its weights.
pub proof fn lemma_quantized_codes(
    weights: Seq<u32>,
    rows: nat,
    cols: nat,
    config: QuantConfig,
    i: int,
)
    requires
        config.block_size > 0,
        0 <= i < weights.len(),
    ensures
        code_at(quantized(weights, rows, cols, config).codes, i) == nf4_code(
            weights[i],
            block_maxima(weights, config.block_size as int)[i / config.block_size as int],
        ),
{
    let codes = weight_codes(weights, config.block_size as int);
    assert forall|j: int| 0 <= j < codes.len() implies #[trigger] codes[j] < 16 by {
        let m = block_maxima(weights, config.block_size as int)[j / config.block_size as int];
        lemma_nearest_level(single::quotient(weights[j], m), 16);
    }
    lemma_unpack(codes, i);
}

/// Rebuilding a tensor from its codes and block scales keeps its values.
pub proof fn lemma_raw_parts_keep_values(q: TensorView)
    ensures
        ({
            let plain = TensorView { scales: ScaleView::F32(q.scales.scales()), ..q };
            plain.values() == q.values()
        }),
{
    let plain = TensorView { scales: ScaleView::F32(q.scales.scales()), ..q };
    assert(plain.values() =~= q.values());
}

/// Double quantization takes less storage than plain scales where there are
/// at least two blocks.
pub proof fn lemma_double_quant_shrinks(
    weights: Seq<u32>,
    rows: nat,
    cols: nat,
    block_size: usize,
)
    requires
        block_size > 0,
        ceil_div(weights.len(), block_size as nat) >= 2,
    ensures
        quantized(
            weights,
            rows,
            cols,
            QuantConfig { block_size, double_quant: true },
        ).storage() < quantized(
            weights,
            rows,
            cols,
            QuantConfig { block_size, double_quant: false },
        ).storage(),
{
    let n = ceil_div(weights.len(), block_size as nat);
    assert(ceil_div(n, 256) <= n / 256 + 1);
}


/// The distance of a level to `target`.
pub open spec fn level_distance(target: u32, i: int) -> u32 {
    single::absolute(single::difference(NF4_LEVELS@[i], target))
}

/// No level is nearer to the target than the chosen one.
pub proof fn lemma_nearest_is_nearest(target: u32, n: int, i: int)
    requires
        0 <= i < n <= 16,
    ensures
        !single::below(level_distance(target, i), nearest_level(target, n).1),
        nearest_level(target, n).1 == single::INFINITY || nearest_level(target, n).1
            == level_distance(target, nearest_level(target, n).0 as int),
    decreases n,
{
    if n > 1 {
        lemma_nearest_is_nearest(target, n - 1, 0);
        if i < n - 1 {
            lemma_nearest_is_nearest(target, n - 1, i);
        }
    } else {
        assert(nearest_level(target, 0) == (0u8, single::INFINITY));
    }
}

/// A largest magnitude is no negative number.
pub proof fn lemma_absmax_sign(s: Seq<u32>)
    ensures
        !single::is_negative(absmax(s)),
    decreases s.len(),
{
    if s.len() > 0 {
        lemma_absmax_sign(s.drop_last());
    }
}

/// Zero times a finite number that is not negative.
proof fn lemma_zero_times(x: u32)
    requires
        single::is_finite(x),
        !single::is_negative(x),
    ensures
        single::product(0, x) == 0,
{
    let h = single::HALF as nat;
    assert(single::magnitude(0) == 0);
    assert(0 * single::magnitude(x) == 0);
    vstd::arithmetic::power2::lemma_pow2_pos(149);
    let p = vstd::arithmetic::power2::pow2(149);
    ieee::lemma_div_unique(0, p, 0, 0);
    assert(2 * h * p > 0) by (nonlinear_arith)
        requires
            h > 0,
            p > 0,
    ;
    assert(ieee::encode(0, p, h) == 0);
}

/// Zero over 127.
proof fn lemma_zero_over()
    ensures
        single::quotient(single::of_integer(0), F127) == 0,
{
    let h = single::HALF as nat;
    let p = vstd::arithmetic::power2::pow2(149);
    assert(0 * p == 0);
    assert(ieee::encode(0, 1, h) == 0) by {
        ieee::lemma_div_unique(0, 1, 0, 0);
    }
    assert(single::of_integer(0) == 0);
    let u = single::magnitude(F127);
    assert(u > 0) by {
        ieee::lemma_units_lower(single::mag(F127), h);
    }
    assert(single::magnitude(0) == 0);
    ieee::lemma_div_unique(0, u, 0, 0);
    assert(2 * h * u > 0) by (nonlinear_arith)
        requires
            h > 0,
            u > 0,
    ;
    assert(ieee::encode(0, u, h) == 0);
}

/// A zero code of a zero scale stands for zero.
pub proof fn lemma_decoded_nothing()
    ensures
        decoded_scale(0, 0) == 0,
{
    lemma_zero_over();
    lemma_zero_times(0);
}

/// The elements of a block without a nonzero number decode to exactly `0.0`.
/// With double quantization the scales of its super-block must be finite.
pub proof fn lemma_zero_block(
    weights: Seq<u32>,
    rows: nat,
    cols: nat,
    config: QuantConfig,
    i: int,
)
    requires
        config.block_size > 0,
        weights.len() == rows * cols,
        0 <= i < weights.len(),
        single::same_number(
            block_maxima(weights, config.block_size as int)[i / config.block_size as int],
            0,
        ),
        config.double_quant ==> single::is_finite(
            block_maxima(block_maxima(weights, config.block_size as int), 256)[i
                / config.block_size as int / 256],
        ),
    ensures
        quantized(weights, rows, cols, config).values()[i] == 0,
{
    let d = config.block_size as int;
    let maxima = block_maxima(weights, d);
    let b = i / d;
    let q = quantized(weights, rows, cols, config);
    lemma_block_of(weights.len(), d as nat, i as nat);
    lemma_quantized_codes(weights, rows, cols, config, i);
    assert(NF4_LEVELS@[7] == 0);
    lemma_absmax_sign(block(weights, b, d));
    assert(maxima[b] == 0);
    if config.double_quant {
        lemma_block_of(maxima.len(), 256, b as nat);
        let supers = block_maxima(maxima, 256);
        let m = supers[b / 256];
        lemma_absmax_sign(block(maxima, b / 256, 256));
        assert(!single::is_negative(m));
        // The code of a zero scale is zero.
        if !single::same_number(m, 0) {
            lemma_zero_quotient(m);
            lemma_zero_times(F127);
            lemma_zero_rounds();
        }
        assert(int8_code(0, m) == 0);
        lemma_zero_over();
        lemma_zero_times(m);
        assert(q.scales.scales()[b] == 0);
    } else {
        assert(q.scales.scales()[b] == 0);
    }
    lemma_zero_times(0);
}

/// Zero over a finite positive number.
proof fn lemma_zero_quotient(m: u32)
    requires
        single::is_finite(m),
        !single::is_negative(m),
        single::mag(m) > 0,
    ensures
        single::quotient(0, m) == 0,
{
    let h = single::HALF as nat;
    let p = vstd::arithmetic::power2::pow2(149);
    let u = single::magnitude(m);
    assert(u > 0) by {
        if single::mag(m) >= h {
            ieee::lemma_units_lower(single::mag(m), h);
        }
    }
    assert(single::magnitude(0) == 0);
    assert(0 * p == 0);
    ieee::lemma_div_unique(0, u, 0, 0);
    assert(2 * h * u > 0) by (nonlinear_arith)
        requires
            h > 0,
            u > 0,
    ;
    assert(ieee::encode(0, u, h) == 0);
}

/// Zero rounds to zero.
proof fn lemma_zero_rounds()
    ensures
        single::nearest_int8(0) == 0,
{
    let p = vstd::arithmetic::power2::pow2(149);
    vstd::arithmetic::power2::lemma_pow2_pos(149);
    vstd::arithmetic::power2::lemma_pow2_unfold(150);
    assert(single::magnitude(0) == 0);
    ieee::lemma_div_unique(p, 2 * p, 0, p);
}

/// The block maximum is a finite number that no magnitude in the block exceeds.
pub proof fn lemma_absmax(s: Seq<u32>, i: int)
    requires
        forall|j: int| 0 <= j < s.len() ==> single::is_finite(#[trigger] s[j]),
    ensures
        single::is_finite(absmax(s)),
        !single::is_negative(absmax(s)),
        0 <= i < s.len() ==> single::mag(s[i]) <= single::mag(absmax(s)),
    decreases s.len(),
{
    if s.len() > 0 {
        let front = s.drop_last();
        assert forall|j: int| 0 <= j < front.len() implies single::is_finite(
            #[trigger] front[j],
        ) by {
            assert(front[j] == s[j]);
        }
        lemma_absmax(front, i);
        assert(single::is_finite(s[s.len() - 1]));
        if i < front.len() && 0 <= i {
            assert(front[i] == s[i]);
        }
    }
}

/// The levels in units of `2^-27`.
pub open spec fn level_numbers() -> Seq<int> {
    seq![
        -134217728int,
        -93441416int,
        -70474112int,
        -53004928int,
        -38177076int,
        -24799870int,
        -12220529int,
        0int,
        10681087int,
        21599686int,
        33032634int,
        45354216int,
        59151072int,
        75513176int,
        97033624int,
        134217728int,
    ]
}

/// A level from its significand and exponent.
proof fn lemma_level(i: int, sig: nat, k: nat)
    requires
        0 <= i < 16,
        0x80_0000 <= sig < 0x100_0000,
        122 <= k <= 126,
        single::mag(NF4_LEVELS@[i]) == k * 0x80_0000 + sig,
        level_numbers()[i] == (if single::is_negative(NF4_LEVELS@[i]) {
            -(sig * pow2((k - 122) as nat))
        } else {
            (sig * pow2((k - 122) as nat)) as int
        }),
    ensures
        single::value(NF4_LEVELS@[i]) == level_numbers()[i] * pow2(122),
{
    ieee::lemma_units_at(sig, k, single::HALF as nat);
    let (p, b) = (pow2((k - 122) as nat), pow2(122));
    lemma_pow2_adds((k - 122) as nat, 122);
    assert(sig * (p * b) == (sig * p) * b && -(sig * p) * b == -((sig * p) * b)) by (nonlinear_arith);
}

/// What the levels stand for.
pub proof fn lemma_levels(i: int)
    requires
        0 <= i < 16,
    ensures
        single::is_finite(NF4_LEVELS@[i]),
        single::value(NF4_LEVELS@[i]) == level_numbers()[i] * pow2(122),
        -0x800_0000 <= level_numbers()[i] <= 0x800_0000,
{
    lemma2_to64();
    if i == 7 {
        assert(single::mag(NF4_LEVELS@[7]) == 0);
        assert(0 * pow2(122) == 0);
    }
    if i == 0 {
        lemma_level(0, 0x800000, 126);
    }
    if i == 1 {
        lemma_level(1, 0xb239b1, 125);
    }
    if i == 2 {
        lemma_level(2, 0x866b30, 125);
    }
    if i == 3 {
        lemma_level(3, 0xca32a0, 124);
    }
    if i == 4 {
        lemma_level(4, 0x91a24d, 124);
    }
    if i == 5 {
        lemma_level(5, 0xbd353f, 123);
    }
    if i == 6 {
        lemma_level(6, 0xba7871, 122);
    }
    if i == 8 {
        lemma_level(8, 0xa2faff, 122);
    }
    if i == 9 {
        lemma_level(9, 0xa4cae3, 123);
    }
    if i == 10 {
        lemma_level(10, 0xfc04dd, 123);
    }
    if i == 11 {
        lemma_level(11, 0xad033a, 124);
    }
    if i == 12 {
        lemma_level(12, 0xe1a4b8, 124);
    }
    if i == 13 {
        lemma_level(13, 0x9007ab, 125);
    }
    if i == 14 {
        lemma_level(14, 0xb913b3, 125);
    }
    if i == 15 {
        lemma_level(15, 0x800000, 126);
    }
}

/// How far level `i`, which is `x` units, is from `t`.
proof fn lemma_level_within(i: int, n: int, x: int, t: int, b: int)
    requires
        0 <= i < 16,
        level_numbers()[i] == n,
        x == n * b,
        ieee::apart(x, t) <= 20_388_156 * b,
    ensures
        ieee::apart(level_numbers()[i] * b, t) <= 20_388_156 * b,
{
}

/// Every number in or barely outside `[-1, 1]` is within half the widest gap
/// of a level; `t` counts units and `b` is `2^-27` in units.
proof fn lemma_level_near(t: int, b: int) -> (i: int)
    requires
        b > 0,
        -0x800_0008 * b <= t <= 0x800_0008 * b,
    ensures
        0 <= i < 16,
        ieee::apart(level_numbers()[i] * b, t) <= 20_388_156 * b,
{
    if 2 * t < -227659144 * b {
        lemma_level_within(0, -134217728, -134217728 * b, t, b);
        0
    } else if 2 * t < -163915528 * b {
        lemma_level_within(1, -93441416, -93441416 * b, t, b);
        1
    } else if 2 * t < -123479040 * b {
        lemma_level_within(2, -70474112, -70474112 * b, t, b);
        2
    } else if 2 * t < -91182004 * b {
        lemma_level_within(3, -53004928, -53004928 * b, t, b);
        3
    } else if 2 * t < -62976946 * b {
        lemma_level_within(4, -38177076, -38177076 * b, t, b);
        4
    } else if 2 * t < -37020399 * b {
        lemma_level_within(5, -24799870, -24799870 * b, t, b);
        5
    } else if 2 * t < -12220529 * b {
        lemma_level_within(6, -12220529, -12220529 * b, t, b);
        6
    } else if 2 * t < 10681087 * b {
        lemma_level_within(7, 0, 0 * b, t, b);
        7
    } else if 2 * t < 32280773 * b {
        lemma_level_within(8, 10681087, 10681087 * b, t, b);
        8
    } else if 2 * t < 54632320 * b {
        lemma_level_within(9, 21599686, 21599686 * b, t, b);
        9
    } else if 2 * t < 78386850 * b {
        lemma_level_within(10, 33032634, 33032634 * b, t, b);
        10
    } else if 2 * t < 104505288 * b {
        lemma_level_within(11, 45354216, 45354216 * b, t, b);
        11
    } else if 2 * t < 134664248 * b {
        lemma_level_within(12, 59151072, 59151072 * b, t, b);
        12
    } else if 2 * t < 172546800 * b {
        lemma_level_within(13, 75513176, 75513176 * b, t, b);
        13
    } else if 2 * t < 231251352 * b {
        lemma_level_within(14, 97033624, 97033624 * b, t, b);
        14
    } else {
        lemma_level_within(15, 134217728, 134217728 * b, t, b);
        15
    }
}

/// The chosen level is within about half the widest gap of the target.
proof fn lemma_chosen_level(target: u32)
    requires
        single::is_finite(target),
        -0x800_0008 * pow2(122) <= single::value(target) <= 0x800_0008 * pow2(122),
    ensures
        nearest_level(target, 16).0 < 16,
        ieee::apart(
            single::value(NF4_LEVELS@[nearest_level(target, 16).0 as int]),
            single::value(target),
        ) <= 20_388_159 * pow2(122),
{
    let b = pow2(122) as int;
    let t = single::value(target);
    lemma_pow2_pos(122);
    lemma_nearest_level(target, 16);
    let best = nearest_level(target, 16).0 as int;
    let i = lemma_level_near(t, b);
    lemma_distance(target, best);
    lemma_distance(target, i);
    lemma_levels(i);
    lemma_nearest_is_nearest(target, 16, i);
    lemma_nearest_is_nearest(target, 16, best);
    let (x, y) = (level_distance(target, best), level_distance(target, i));
    assert(single::mag(x) <= single::mag(y));
    ieee::lemma_units_ordered(single::mag(x), single::mag(y), single::HALF as nat);
}

/// The computed distance of a level is the true one, up to one part in `2^24`.
proof fn lemma_distance(target: u32, i: int)
    requires
        0 <= i < 16,
        single::is_finite(target),
        -0x800_0008 * pow2(122) <= single::value(target) <= 0x800_0008 * pow2(122),
    ensures
        single::is_finite(level_distance(target, i)),
        !single::is_negative(level_distance(target, i)),
        0x100_0000 * ieee::apart(
            single::magnitude(level_distance(target, i)) as int,
            ieee::apart(single::value(NF4_LEVELS@[i]), single::value(target)),
        ) <= ieee::apart(single::value(NF4_LEVELS@[i]), single::value(target)),
{
    let b = pow2(122);
    lemma_levels(i);
    lemma_pow2_pos(122);
    lemma_unit_powers();
    let n = level_numbers()[i];
    assert(-0x800_0000 * b <= n * b <= 0x800_0000 * b) by (nonlinear_arith)
        requires
            -0x800_0000 <= n <= 0x800_0000,
            b > 0,
    ;
    single::lemma_difference_error(NF4_LEVELS@[i], target);
}

/// One in units of `2^-27`, and that finite numbers reach far beyond it.
pub proof fn lemma_unit_powers()
    ensures
        pow2(149) == 0x800_0000 * pow2(122),
        pow2(122) >= 0x1_0000_0000,
        single::largest_finite() >= 0x1_0000_0000 * pow2(122),
        single::largest_finite() >= 0x100 * pow2(149),
{
    lemma2_to64();
    lemma2_to64_rest();
    lemma_pow2_adds(27, 122);
    lemma_pow2_adds(32, 90);
    lemma_pow2_adds(122, 131);
    lemma_pow2_adds(32, 99);
    lemma_pow2_pos(90);
    lemma_pow2_pos(99);
    lemma_pow2_pos(122);
    let (b, c) = (pow2(122), pow2(131));
    assert(0xFF_FFFF * (b * c) >= 0x1_0000_0000 * b) by (nonlinear_arith)
        requires
            c >= 0x1_0000_0000,
            b > 0,
    ;
    assert(0xFF_FFFF * (b * c) >= 0x100 * (0x800_0000 * b)) by (nonlinear_arith)
        requires
            c >= 0x1_0000_0000,
            b > 0,
    ;
}

/// A finite magnitude is at most the largest finite one, and zero only for
/// the encodings of zero.
pub proof fn lemma_finite_magnitude(x: u32)
    requires
        single::is_finite(x),
    ensures
        single::magnitude(x) <= single::largest_finite(),
        single::mag(x) > 0 ==> single::magnitude(x) > 0,
{
    single::lemma_largest_finite(single::mag(x));
    if single::mag(x) >= single::HALF {
        ieee::lemma_units_lower(single::mag(x), single::HALF as nat);
    }
}

/// A weight over the largest magnitude of its block lies in `[-1, 1]`, up to
/// one part in `2^24`.
proof fn lemma_normalized(w: u32, m: u32)
    requires
        single::is_finite(w),
        single::is_finite(m),
        !single::is_negative(m),
        0 < single::mag(m),
        single::mag(w) <= single::mag(m),
    ensures
        single::is_finite(single::quotient(w, m)),
        -0x800_0008 * pow2(122) <= single::value(single::quotient(w, m)) <= 0x800_0008 * pow2(122),
        0x100_0000 * ieee::apart(
            single::value(single::quotient(w, m)) * single::value(m),
            single::value(w) * pow2(149),
        ) <= single::value(m) * pow2(149),
{
    let (u, b) = (pow2(149), pow2(122));
    lemma_unit_powers();
    lemma_finite_magnitude(m);
    ieee::lemma_units_ordered(single::mag(w), single::mag(m), single::HALF as nat);
    let (x, y) = (single::magnitude(w), single::magnitude(m));
    assert(x * u <= y * u) by (nonlinear_arith)
        requires
            x <= y,
            u >= 0,
    ;
    let big = single::largest_finite();
    assert(y * u <= y * big) by (nonlinear_arith)
        requires
            u <= big,
            y >= 0,
    ;
    single::lemma_quotient_error(w, m);
    let t = single::value(single::quotient(w, m));
    let e = ieee::apart(t * y, single::value(w) * u);
    assert(0x100_0000 * e <= y * u) by (nonlinear_arith)
        requires
            2 * e <= y || 0x100_0000 * e <= x * u,
            x * u <= y * u,
            u >= 0x100_0000,
            y > 0,
    ;
    let v = single::value(w) * u;
    assert(-(y * u) <= v <= y * u) by (nonlinear_arith)
        requires
            -(y as int) <= single::value(w) <= y,
            v == single::value(w) * u,
            u >= 0,
    ;
    assert(-0x800_0008 * b <= t <= 0x800_0008 * b) by (nonlinear_arith)
        requires
            -(y * u) <= v <= y * u,
            v - e <= t * y <= v + e,
            0x100_0000 * e <= y * u,
            u == 0x800_0000 * b,
            y > 0,
            b > 0,
    ;
}

/// The value that a weight is stored as, where the block has a nonzero number.
pub proof fn lemma_stored_weight(w: u32, m: u32)
    requires
        single::is_finite(w),
        single::is_finite(m),
        !single::is_negative(m),
        0 < single::mag(m),
        single::mag(w) <= single::mag(m),
    ensures
        ({
            let x = single::product(NF4_LEVELS@[nf4_code(w, m) as int], m);
            &&& single::is_finite(x)
            &&& 1_000 * ieee::apart(single::value(x), single::value(w)) <= 152 * single::value(m)
                + 500
        }),
{
    let (u, b) = (pow2(149) as int, pow2(122) as int);
    let target = single::quotient(w, m);
    let code = nf4_code(w, m) as int;
    lemma_unit_powers();
    lemma_finite_magnitude(m);
    lemma_normalized(w, m);
    lemma_chosen_level(target);
    lemma_levels(code);
    let (l, t, y, v) = (
        single::value(NF4_LEVELS@[code]),
        single::value(target),
        single::value(m),
        single::value(w),
    );
    let n = level_numbers()[code];
    let size = single::magnitude(NF4_LEVELS@[code]) as int;
    assert(size <= u) by (nonlinear_arith)
        requires
            size == n * b || size == -(n * b),
            -0x800_0000 <= n <= 0x800_0000,
            u == 0x800_0000 * b,
            b > 0,
    ;
    let big = single::largest_finite() as int;
    assert(size * y <= u * y && u * y <= u * big) by (nonlinear_arith)
        requires
            0 <= size <= u,
            0 <= y <= big,
    ;
    single::lemma_product_error(NF4_LEVELS@[code], m);
    let x = single::value(single::product(NF4_LEVELS@[code], m));
    let e1 = ieee::apart(x * u, l * y);
    let e3 = ieee::apart(t * y, v * u);
    let g = ieee::apart(l, t);
    let z = y * b;
    assert(ieee::apart(l * y, t * y) == g * y) by (nonlinear_arith)
        requires
            g == (if l < t {
                t - l
            } else {
                l - t
            }),
            y > 0,
    ;
    assert(g * y <= 20_388_159 * z) by (nonlinear_arith)
        requires
            g <= 20_388_159 * b,
            y > 0,
            z == y * b,
    ;
    assert(u * y == 0x800_0000 * z && y * u == 0x800_0000 * z) by (nonlinear_arith)
        requires
            u == 0x800_0000 * b,
            z == y * b,
    ;
    let e = ieee::apart(x, v);
    assert(e * u <= e1 + g * y + e3) by (nonlinear_arith)
        requires
            e == (if x < v {
                v - x
            } else {
                x - v
            }),
            ieee::apart(x * u, l * y) == e1,
            ieee::apart(l * y, t * y) == g * y,
            ieee::apart(t * y, v * u) == e3,
    ;
    assert(1_000 * (e1 + g * y + e3) <= 152 * (0x800_0000 * z) + 500 * u);
    assert(1_000 * e <= 152 * y + 500) by (nonlinear_arith)
        requires
            1_000 * (e * u) <= 152 * (u * y) + 500 * u,
            u > 0,
    ;
}

/// Reading back what was quantized: without double quantization every value is
/// within `0.152` of its block's scale of the weight, up to half the smallest
/// positive number. That is less than `0.16` of the scale and `1e-6`.
pub proof fn lemma_round_trip_error(
    weights: Seq<u32>,
    rows: nat,
    cols: nat,
    config: QuantConfig,
    i: int,
)
    requires
        !config.double_quant,
        config.block_size > 0,
        weights.len() == rows * cols,
        forall|j: int| 0 <= j < weights.len() ==> single::is_finite(#[trigger] weights[j]),
        0 <= i < weights.len(),
    ensures
        ({
            let q = quantized(weights, rows, cols, config);
            let scale = q.scales.scales()[i / config.block_size as int];
            let error = ieee::apart(single::value(q.values()[i]), single::value(weights[i]));
            &&& scale == absmax(block(weights, i / config.block_size as int, config.block_size as int))
            &&& single::is_finite(q.values()[i])
            &&& 1_000 * error <= 152 * single::value(scale) + 500
            &&& 1_000_000 * error <= 160_000 * single::value(scale) + pow2(149)
        }),
{
    let d = config.block_size as int;
    let b = i / d;
    let part = block(weights, b, d);
    lemma_block_of(weights.len(), d as nat, i as nat);
    lemma_quantized_codes(weights, rows, cols, config, i);
    lemma_unit_powers();
    assert forall|j: int| 0 <= j < part.len() implies single::is_finite(#[trigger] part[j]) by {
        assert(part[j] == weights[b * d + j]);
    }
    lemma_absmax(part, i - b * d);
    assert(part[i - b * d] == weights[i]);
    let m = absmax(part);
    let w = weights[i];
    assert(block_maxima(weights, d)[b] == m);
    if single::mag(m) == 0 {
        lemma_zero_block(weights, rows, cols, config, i);
        assert(single::value(w) == 0);
        assert(single::value(m) == 0);
        assert(single::value(0) == 0);
    } else {
        lemma_stored_weight(w, m);
    }
}

/// A number between -127 and 127 and the value of `n / 127`.
proof fn lemma_over_127(n: int)
    requires
        -127 <= n <= 127,
    ensures
        ({
            let r = single::quotient(single::of_integer(n), F127);
            &&& single::is_finite(r)
            &&& single::magnitude(r) <= pow2(149)
            &&& 2 * ieee::apart(127 * single::value(r), n * pow2(149)) <= 127 * pow2(125)
        }),
{
    let u = pow2(149);
    let c = pow2(125);
    let k = (if n < 0 {
        -n
    } else {
        n
    }) as nat;
    let h = single::HALF as nat;
    let a = single::of_integer(n);
    lemma_unit_powers();
    lemma_f127();
    lemma_pow2_pos(149);
    lemma_pow2_adds(24, 125);
    lemma2_to64();
    // The number itself is exact.
    ieee::lemma_encode_exact(k, 149, h);
    assert(k * u <= 127 * u) by (nonlinear_arith)
        requires
            k <= 127,
            u > 0,
    ;
    single::lemma_rounded(n < 0, k * u, 1);
    single::lemma_with_sign(n < 0, single::clamped(ieee::encode(k * u, 1, h)));
    assert(single::magnitude(a) == k * u);
    assert(n * u == (if n < 0 {
        -(k * u)
    } else {
        (k * u) as int
    })) by (nonlinear_arith)
        requires
            k == (if n < 0 {
                -n
            } else {
                n
            }),
    ;
    assert(single::value(a) == n * u);
    let big = single::largest_finite();
    assert((k * u) * u <= (127 * u) * big && (k * u) * u <= 0x100_0000 * (127 * u) * c) by (nonlinear_arith)
        requires
            k * u <= 127 * u,
            0 < u <= big,
            u == 0x100_0000 * c,
    ;
    single::lemma_quotient_error(a, F127);
    single::lemma_quotient_within(a, F127, 125);
    let r = single::value(single::quotient(a, F127));
    let z = single::magnitude(single::quotient(a, F127)) as int;
    assert(2 * ieee::apart(127 * r, n * u) <= 127 * c) by (nonlinear_arith)
        requires
            2 * ieee::apart(r * (127 * u), (n * u) * u) <= (127 * u) * c,
            u > 0,
            ieee::apart(r * (127 * u), (n * u) * u) == (if r * (127 * u) < (n * u) * u {
                (n * u) * u - r * (127 * u)
            } else {
                r * (127 * u) - (n * u) * u
            }),
            ieee::apart(127 * r, n * u) == (if 127 * r < n * u {
                n * u - 127 * r
            } else {
                127 * r - n * u
            }),
    ;
    if k == 127 {
        // One is exact.
        ieee::lemma_encode_scale(u, 1, 127 * u, h);
        ieee::lemma_encode_exact(1, 149, h);
        assert((127 * u) * u == u * (127 * u) && 1 * (127 * u) == 127 * u && 1 * u == u)
            by (nonlinear_arith);
        let negative = single::is_negative(a) != single::is_negative(F127);
        single::lemma_rounded(negative, (k * u) * u, 127 * u);
        single::lemma_with_sign(
            negative,
            single::clamped(ieee::encode((k * u) * u, 127 * u, h)),
        );
        assert(z == u);
    } else {
        assert(k * u <= 126 * u) by (nonlinear_arith)
            requires
                k <= 126,
                u > 0,
        ;
    }
}

proof fn lemma_f127()
    ensures
        single::is_finite(F127),
        !single::is_negative(F127),
        single::magnitude(F127) == 127 * pow2(149),
        single::value(F127) == 127 * pow2(149),
{
    lemma2_to64();
    ieee::lemma_units_at(0xFE_0000, 132, single::HALF as nat);
    lemma_pow2_adds(17, 132);
}

/// An 8-bit code stands for a number within `0.5 / 127` of the scale of the
/// original, up to three parts in `2^24` of the scale and half the smallest
/// positive number.
pub proof fn lemma_int8_error(x: u32, m: u32)
    requires
        single::is_finite(x),
        single::is_finite(m),
        !single::is_negative(m),
        single::mag(x) <= single::mag(m),
    ensures
        ({
            let back = decoded_scale(int8_code(x, m), m);
            let error = ieee::apart(single::value(back), single::value(x));
            &&& single::is_finite(back)
            &&& 254 * 0x100_0000 * error <= (0x100_0000 + 636) * single::value(m) + 127 * 0x100_0000
        }),
{
    if single::mag(m) == 0 {
        lemma_zero_over();
        lemma_zero_times(0);
        assert(m == 0);
        assert(int8_code(x, m) == 0);
        assert(single::as_signed(0) == 0);
        assert(decoded_scale(0, m) == 0);
        let h = single::HALF as nat;
        assert(ieee::units(0, h) == 0);
        assert(single::value(x) == 0 && single::value(m) == 0 && single::value(0) == 0);
        assert(ieee::apart(single::value(decoded_scale(int8_code(x, m), m)), single::value(x)) == 0);
    } else {
        lemma_int8_error_nonzero(x, m);
    }
}

/// The code of `x` over `m`, and how far it is from `127 * x / m`.
proof fn lemma_int8_code(x: u32, m: u32) -> (n: int)
    requires
        single::is_finite(x),
        single::is_finite(m),
        !single::is_negative(m),
        0 < single::mag(m),
        single::mag(x) <= single::mag(m),
    ensures
        -127 <= n <= 127,
        n == single::as_signed(int8_code(x, m)),
        2 * ieee::apart(n * pow2(149), 127 * single::value(single::quotient(x, m))) <= pow2(149)
            + 128 * pow2(125),
{
    let (u, b, c) = (pow2(149), pow2(122), pow2(125));
    lemma_unit_powers();
    lemma_f127();
    lemma_normalized(x, m);
    lemma2_to64();
    lemma_pow2_adds(3, 122);
    lemma_pow2_adds(7, 125);
    lemma_pow2_unfold(150);
    lemma_pow2_pos(122);
    let q = single::quotient(x, m);
    let t = single::value(q);
    let y = single::magnitude(q);
    let big = single::largest_finite();
    assert(y * (127 * u) <= u * big && y * (127 * u) <= 0x100_0000 * u * pow2(132)) by (nonlinear_arith)
        requires
            y <= 0x800_0008 * b,
            u == 0x800_0000 * b,
            big >= 0x100 * u,
            pow2(132) == 128 * c,
            c == 8 * b,
            b > 0,
    ;
    single::lemma_product_error(q, F127);
    single::lemma_product_within(q, F127, 132);
    let r = single::product(q, F127);
    let p = single::value(r);
    assert(2 * ieee::apart(p, 127 * t) <= 128 * c) by (nonlinear_arith)
        requires
            2 * ieee::apart(p * u, t * (127 * u)) <= u * (128 * c),
            ieee::apart(p * u, t * (127 * u)) == (if p * u < t * (127 * u) {
                t * (127 * u) - p * u
            } else {
                p * u - t * (127 * u)
            }),
            ieee::apart(p, 127 * t) == (if p < 127 * t {
                127 * t - p
            } else {
                p - 127 * t
            }),
            u > 0,
    ;
    let w = single::magnitude(r);
    ieee::lemma_div_parts(2 * w + u, 2 * u);
    let k = (2 * w + u) / (2 * u);
    let rest = (2 * w + u) % (2 * u);
    assert(w < 0x80 * u - u / 2);
    assert(k <= 127) by (nonlinear_arith)
        requires
            2 * w + u == 2 * u * k + rest,
            rest >= 0,
            w < 0x80 * u - u / 2,
            u > 0,
    ;
    let n = single::nearest_integer(r);
    assert(u * k == k * u && n * u == (if single::is_negative(r) {
        -(k * u)
    } else {
        (k * u) as int
    })) by (nonlinear_arith)
        requires
            n == (if single::is_negative(r) {
                -(k as int)
            } else {
                k as int
            }),
    ;
    assert(2 * u * k == 2 * (k * u)) by (nonlinear_arith);
    assert(2 * ieee::apart(n * u, p) <= u);
    n
}

proof fn lemma_int8_error_nonzero(x: u32, m: u32)
    requires
        single::is_finite(x),
        single::is_finite(m),
        !single::is_negative(m),
        0 < single::mag(m),
        single::mag(x) <= single::mag(m),
    ensures
        ({
            let back = decoded_scale(int8_code(x, m), m);
            let error = ieee::apart(single::value(back), single::value(x));
            &&& single::is_finite(back)
            &&& 254 * 0x100_0000 * error <= (0x100_0000 + 636) * single::value(m) + 127 * 0x100_0000
        }),
{
    let (u, c) = (pow2(149) as int, pow2(125) as int);
    lemma_unit_powers();
    lemma_pow2_adds(24, 125);
    lemma2_to64();
    lemma_pow2_pos(125);
    lemma_finite_magnitude(m);
    lemma_normalized(x, m);
    let n = lemma_int8_code(x, m);
    lemma_over_127(n);
    ieee::lemma_units_ordered(single::mag(x), single::mag(m), single::HALF as nat);
    let q = single::quotient(x, m);
    let r = single::quotient(single::of_integer(n), F127);
    let (t, y, v) = (single::value(q), single::value(m), single::value(x));
    let big = single::largest_finite() as int;
    let size = single::magnitude(x) as int;
    assert(size * u <= y * big && size * u <= 0x100_0000 * y * c) by (nonlinear_arith)
        requires
            0 <= size <= y,
            0 < u <= big,
            u == 0x100_0000 * c,
    ;
    single::lemma_quotient_within(x, m, 125);
    let s = single::magnitude(r) as int;
    assert(s * y <= u * y && u * y <= u * big) by (nonlinear_arith)
        requires
            0 <= s <= u,
            0 <= y <= big,
    ;
    single::lemma_product_error(r, m);
    let z = single::value(single::product(r, m));
    let (rv, cy) = (single::value(r), c * y);
    let ed = ieee::apart(z * u, rv * y);
    let dc = ieee::apart(127 * rv, n * u);
    let dn = ieee::apart(n * u, 127 * t);
    let ea = ieee::apart(t * y, v * u);
    let e = ieee::apart(z, v);
    assert(u * y == 0x100_0000 * cy) by (nonlinear_arith)
        requires
            u == 0x100_0000 * c,
            cy == c * y,
    ;
    assert(2 * (dc * y) <= 127 * cy && 2 * (dn * y) <= u * y + 128 * cy && 2 * ea <= cy)
        by (nonlinear_arith)
        requires
            2 * dc <= 127 * c,
            2 * dn <= u + 128 * c,
            2 * ea <= y * c,
            cy == c * y,
            y > 0,
    ;
    let (zu, ry, ty, vu, nuy) = (z * u, rv * y, t * y, v * u, n * u * y);
    assert(ieee::apart(127 * ry, nuy) == dc * y && ieee::apart(nuy, 127 * ty) == dn * y)
        by (nonlinear_arith)
        requires
            ry == rv * y,
            ty == t * y,
            nuy == n * u * y,
            dc == (if 127 * rv < n * u {
                n * u - 127 * rv
            } else {
                127 * rv - n * u
            }),
            dn == (if n * u < 127 * t {
                127 * t - n * u
            } else {
                n * u - 127 * t
            }),
            y > 0,
    ;
    assert(e * u == ieee::apart(zu, vu)) by (nonlinear_arith)
        requires
            e == (if z < v {
                v - z
            } else {
                z - v
            }),
            zu == z * u,
            vu == v * u,
            u > 0,
    ;
    let eu = e * u;
    assert(127 * eu <= 127 * ed + dc * y + dn * y + 127 * ea);
    assert(254 * eu <= 127 * u + 636 * cy + u * y);
    assert(254 * 0x100_0000 * e <= (0x100_0000 + 636) * y + 127 * 0x100_0000) by (nonlinear_arith)
        requires
            254 * (e * u) <= 127 * u + 636 * (c * y) + u * y,
            u == 0x100_0000 * c,
            c > 0,
    ;
}

} // verus!
