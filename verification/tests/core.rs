//! Matrices, quantization, adapters and layers.
use qlora::lora::{matmul, matmul_trans_a, matmul_trans_b};
use qlora::quant::{NF4_LEVELS, NF4_ZERO_CODE};
use qlora::{LoraAdapter, QloraError, QloraGrads, QloraLinear, QuantConfig, QuantizedTensor};

fn bits(v: &[f32]) -> Vec<u32> {
    v.iter().map(|x| x.to_bits()).collect()
}

fn floats(v: &[u32]) -> Vec<f32> {
    v.iter().map(|x| f32::from_bits(*x)).collect()
}

fn max_abs_diff(a: &[f32], b: &[f32]) -> f32 {
    assert_eq!(a.len(), b.len());
    a.iter()
        .zip(b.iter())
        .map(|(x, y)| (x - y).abs())
        .fold(0.0f32, f32::max)
}

fn adapter(a: &[f32], b: &[f32], in_dim: usize, out_dim: usize, r: usize, alpha: f32) -> LoraAdapter {
    LoraAdapter::new(&bits(a), &bits(b), in_dim, out_dim, r, alpha.to_bits()).unwrap()
}

#[test]
fn matmul_small_known_answer() {
    // A = [[1, 2], [3, 4]], B = [[5, 6], [7, 8]]
    let c = matmul(&bits(&[1.0, 2.0, 3.0, 4.0]), &bits(&[5.0, 6.0, 7.0, 8.0]), 2, 2, 2);
    assert_eq!(floats(&c), vec![19.0, 22.0, 43.0, 50.0]);
}

#[test]
fn matmul_trans_a_matches_transposed_matmul() {
    let a = bits(&[1.0, 2.0, 3.0, 4.0, 5.0, 6.0]); // (3, 2)
    let b = bits(&[1.0, -1.0, 0.5, 2.0, 0.0, 1.5]); // (3, 2)
    let c = matmul_trans_a(&a, &b, 3, 2, 2);
    // A^T = [[1, 3, 5], [2, 4, 6]]
    let at = bits(&[1.0, 3.0, 5.0, 2.0, 4.0, 6.0]);
    assert_eq!(c, matmul(&at, &b, 2, 3, 2));
}

#[test]
fn matmul_trans_b_matches_transposed_matmul() {
    let a = bits(&[1.0, 2.0, 3.0, 4.0, 5.0, 6.0]); // (2, 3)
    let b = bits(&[1.0, 0.0, -1.0, 0.5, 2.0, 1.5]); // (2, 3) stored
    let c = matmul_trans_b(&a, &b, 2, 3, 2);
    // B^T = [[1, 0.5], [0, 2], [-1, 1.5]]
    let bt = bits(&[1.0, 0.5, 0.0, 2.0, -1.0, 1.5]);
    assert_eq!(c, matmul(&a, &bt, 2, 3, 2));
}

#[test]
fn nf4_codebook_is_sorted() {
    let levels: Vec<f32> = floats(&NF4_LEVELS);
    let mut sorted = levels.clone();
    sorted.sort_by(|a, b| a.partial_cmp(b).unwrap());
    assert_eq!(sorted, levels);
    assert_eq!(levels[0], -1.0);
    assert_eq!(levels[15], 1.0);
    assert_eq!(levels[NF4_ZERO_CODE as usize], 0.0);
}

#[test]
fn zero_block_decodes_to_zero() {
    let w = bits(&[0.0f32; 64]);
    let q = QuantizedTensor::quantize(&w, 8, 8, &QuantConfig::default()).unwrap();
    assert_eq!(q.dequantize(), w);
}

#[test]
fn qlora_forward_matches_unfused_reference() {
    // out=4, in=8, r=2, alpha=8 -> scale 4.
    let (out_dim, in_dim, r) = (4usize, 8usize, 2usize);
    let w: Vec<f32> = (0..out_dim * in_dim)
        .map(|i| ((i * 37) % 17) as f32 / 8.0 - 1.0)
        .collect();
    let a: Vec<f32> = (0..r * in_dim)
        .map(|i| ((i * 13) % 7) as f32 / 7.0 - 0.5)
        .collect();
    let b: Vec<f32> = (0..out_dim * r)
        .map(|i| ((i * 29) % 5) as f32 / 5.0 - 0.5)
        .collect();
    let x = vec![0.5f32; 2 * in_dim]; // batch = 2

    let ad = adapter(&a, &b, in_dim, out_dim, r, 8.0);
    let layer =
        QloraLinear::new(&bits(&w), out_dim, in_dim, &QuantConfig::default(), Some(ad)).unwrap();
    let y = floats(&layer.forward(&bits(&x), 2).unwrap());

    // Unfused FP32 reference: X·W^T + 4·((X·A^T)·B^T).
    let mut xat = vec![0.0f32; 2 * r];
    for bi in 0..2 {
        for ri in 0..r {
            let mut acc = 0.0f32;
            for k in 0..in_dim {
                acc += x[bi * in_dim + k] * a[ri * in_dim + k];
            }
            xat[bi * r + ri] = acc;
        }
    }
    let mut dxb = vec![0.0f32; 2 * out_dim];
    for bi in 0..2 {
        for oi in 0..out_dim {
            let mut acc = 0.0f32;
            for ri in 0..r {
                acc += xat[bi * r + ri] * b[oi * r + ri];
            }
            dxb[bi * out_dim + oi] = 4.0 * acc;
        }
    }
    let mut base = vec![0.0f32; 2 * out_dim];
    for bi in 0..2 {
        for oi in 0..out_dim {
            let mut acc = 0.0f32;
            for k in 0..in_dim {
                acc += x[bi * in_dim + k] * w[oi * in_dim + k];
            }
            base[bi * out_dim + oi] = acc;
        }
    }
    let expected: Vec<f32> = base.iter().zip(dxb.iter()).map(|(u, v)| u + v).collect();

    let max_err = max_abs_diff(&y, &expected);
    assert!(max_err < 0.2, "max_err={max_err}");
}

#[test]
fn qlora_without_adapter_is_quantized_linear() {
    let (out_dim, in_dim) = (8, 32);
    let w: Vec<f32> = (0..out_dim * in_dim)
        .map(|i| ((i * 11) % 13) as f32 / 13.0 - 0.5)
        .collect();
    let layer =
        QloraLinear::new(&bits(&w), out_dim, in_dim, &QuantConfig::default(), None).unwrap();
    let x = vec![1.0f32; in_dim];
    let y = floats(&layer.forward(&bits(&x), 1).unwrap());
    assert_eq!(y.len(), out_dim);
    // Output must be close to the exact FP32 linear (quant noise only).
    let exact: Vec<f32> = (0..out_dim)
        .map(|oi| (0..in_dim).map(|k| w[oi * in_dim + k]).sum::<f32>())
        .collect();
    let max_err = max_abs_diff(&y, &exact);
    assert!(max_err < 0.3, "max_err={max_err}");
}

#[test]
fn qlora_backward_matches_finite_differences() {
    // L = sum(Y); central differences on every input, A and B element.
    let (out_dim, in_dim, r, batch) = (3usize, 4usize, 2usize, 2usize);
    let w: Vec<f32> = (0..out_dim * in_dim)
        .map(|i| ((i * 37) % 11) as f32 / 11.0 - 0.5)
        .collect();
    let a: Vec<f32> = (0..r * in_dim)
        .map(|i| ((i * 13) % 7) as f32 / 7.0 - 0.5)
        .collect();
    let b: Vec<f32> = (0..out_dim * r)
        .map(|i| ((i * 29) % 5) as f32 / 5.0 - 0.5)
        .collect();
    let x = vec![0.5f32, -0.25, 0.75, 1.0, 0.0, 0.25, -0.5, 1.5];
    assert_eq!(x.len(), batch * in_dim);

    let loss = |x: &[f32], a: &[f32], b: &[f32]| -> f32 {
        let ad = adapter(a, b, in_dim, out_dim, r, 8.0);
        let layer =
            QloraLinear::new(&bits(&w), out_dim, in_dim, &QuantConfig::default(), Some(ad)).unwrap();
        floats(&layer.forward(&bits(x), batch).unwrap()).iter().sum()
    };
    // Central difference of `loss` w.r.t. element `idx` of buffer `buf`
    // (0 = x, 1 = a, 2 = b).
    let fd = |x: &[f32], a: &[f32], b: &[f32], idx: usize, buf: usize| -> f32 {
        let eps = 1e-3f32;
        let perturbed = |sign: f32| -> f32 {
            let mut xp = x.to_vec();
            let mut ap = a.to_vec();
            let mut bp = b.to_vec();
            match buf {
                0 => xp[idx] += sign * eps,
                1 => ap[idx] += sign * eps,
                _ => bp[idx] += sign * eps,
            }
            loss(&xp, &ap, &bp)
        };
        (perturbed(1.0) - perturbed(-1.0)) / (2.0 * eps)
    };

    let dy = vec![1.0f32; batch * out_dim];
    let ad = adapter(&a, &b, in_dim, out_dim, r, 8.0);
    let layer =
        QloraLinear::new(&bits(&w), out_dim, in_dim, &QuantConfig::default(), Some(ad)).unwrap();
    let g = layer.backward(&bits(&x), &bits(&dy), batch).unwrap();
    let ga = floats(&g.grad_a.unwrap());
    let gb = floats(&g.grad_b.unwrap());

    for (i, &got) in floats(&g.grad_x).iter().enumerate() {
        let want = fd(&x, &a, &b, i, 0);
        assert!((got - want).abs() < 2e-2, "grad_x[{i}]: {got} vs {want}");
    }
    for (i, &got) in ga.iter().enumerate() {
        let want = fd(&x, &a, &b, i, 1);
        assert!((got - want).abs() < 2e-2, "grad_a[{i}]: {got} vs {want}");
    }
    for (i, &got) in gb.iter().enumerate() {
        let want = fd(&x, &a, &b, i, 2);
        assert!((got - want).abs() < 2e-2, "grad_b[{i}]: {got} vs {want}");
    }
}

#[test]
fn qlora_backward_without_adapter_gives_grad_x_only() {
    let (out_dim, in_dim) = (4, 8);
    let w: Vec<f32> = (0..out_dim * in_dim)
        .map(|i| ((i * 11) % 13) as f32 / 13.0 - 0.5)
        .collect();
    let layer =
        QloraLinear::new(&bits(&w), out_dim, in_dim, &QuantConfig::default(), None).unwrap();
    let x = bits(&vec![0.5f32; in_dim]);
    let dy = bits(&vec![1.0f32; out_dim]);
    let g = layer.backward(&x, &dy, 1).unwrap();
    assert!(g.grad_a.is_none() && g.grad_b.is_none());
    assert_eq!(g.grad_x.len(), in_dim);
    // dX = W rows summed (dy = ones): each grad_x[k] = sum_o dequant(W)[o][k].
    let wd = floats(&layer.weight().dequantize());
    let gx = floats(&g.grad_x);
    for k in 0..in_dim {
        let want: f32 = (0..out_dim).map(|o| wd[o * in_dim + k]).sum();
        assert!((gx[k] - want).abs() < 1e-6);
    }
    assert!(layer.backward(&x[..7], &dy, 1).is_err());
    assert!(layer.backward(&x, &dy[..3], 1).is_err());
}

#[test]
fn adapter_set_weights_updates_forward() {
    let (out_dim, in_dim, r) = (4usize, 8usize, 2usize);
    let w = vec![0.1f32; out_dim * in_dim];
    let a = vec![0.1f32; r * in_dim];
    let b = vec![0.0f32; out_dim * r]; // zero-init: adapter contributes nothing
    let mut layer = QloraLinear::new(
        &bits(&w),
        out_dim,
        in_dim,
        &QuantConfig::default(),
        Some(adapter(&a, &b, in_dim, out_dim, r, 8.0)),
    )
    .unwrap();
    let x = bits(&vec![1.0f32; in_dim]);
    let y0 = layer.forward(&x, 1).unwrap();
    // Turn the adapter on: forward must change, and stay consistent.
    let b2 = vec![0.5f32; out_dim * r];
    layer
        .adapter_mut()
        .unwrap()
        .set_weights(&bits(&a), &bits(&b2))
        .unwrap();
    let y1 = layer.forward(&x, 1).unwrap();
    assert!(y0 != y1);
    assert!(layer
        .adapter_mut()
        .unwrap()
        .set_weights(&bits(&[1.0]), &bits(&b2))
        .is_err());
}

#[test]
fn qlora_rejects_dimension_mismatches() {
    let w = bits(&vec![0.1f32; 4 * 8]);
    let bad_adapter = adapter(&[0.1; 2 * 8], &[0.1; 5 * 2], 8, 5, 2, 8.0);
    assert!(QloraLinear::new(&w, 4, 8, &QuantConfig::default(), Some(bad_adapter)).is_err());
    let ok = QloraLinear::new(&w, 4, 8, &QuantConfig::default(), None).unwrap();
    assert!(ok.forward(&bits(&[1.0; 7]), 1).is_err()); // wrong in_dim
}

/// Tiny deterministic PRNG (xorshift64*) so tests need no `rand` crate.
struct Rng(u64);

impl Rng {
    fn next_f64(&mut self) -> f64 {
        let mut x = self.0;
        x ^= x >> 12;
        x ^= x << 25;
        x ^= x >> 27;
        self.0 = x;
        (x.wrapping_mul(0x2545F4914F6CDD1D) >> 11) as f64 / (u64::MAX >> 11) as f64
    }

    /// Approximately standard-normal via Box-Muller.
    fn next_normal(&mut self) -> f32 {
        let u1 = self.next_f64().max(1e-12);
        let u2 = self.next_f64();
        ((-2.0 * u1.ln()).sqrt() * (2.0 * std::f64::consts::PI * u2).cos()) as f32
    }
}

fn roundtrip_stats(back: &[f32], orig: &[f32]) -> (f32, f32) {
    let mut max_err = 0.0f32;
    let mut mse = 0.0f64;
    for (b, o) in back.iter().zip(orig.iter()) {
        let e = (b - o).abs();
        max_err = max_err.max(e);
        mse += (e * e) as f64;
    }
    (max_err, (mse / orig.len() as f64) as f32)
}

#[test]
fn nf4_roundtrip_normal_weights_stays_accurate() {
    // NF4 is designed for (near-)normal data: error must be small.
    let mut rng = Rng(0x1234_5678_9ABC_DEF0);
    let rows = 64;
    let cols = 128;
    let w: Vec<f32> = (0..rows * cols).map(|_| rng.next_normal()).collect();
    for double_quant in [false, true] {
        let cfg = QuantConfig {
            block_size: 64,
            double_quant,
        };
        let q = QuantizedTensor::quantize(&bits(&w), rows, cols, &cfg).unwrap();
        assert_eq!(q.uses_double_quant(), double_quant);
        let back = floats(&q.dequantize());
        assert_eq!(back.len(), w.len());
        // Nearest-level property: each element's error is bounded by half
        // the widest NF4 gap (0.304 / 2 = 0.152) times its block absmax,
        // plus slack for double-quantized scales.
        let scales = floats(&q.block_scales());
        for (i, (b, o)) in back.iter().zip(w.iter()).enumerate() {
            let bound = 0.16 * scales[i / cfg.block_size] + 1e-6;
            assert!(
                (b - o).abs() <= bound,
                "elem {i}: err={} > bound={bound} (dq={double_quant})",
                (b - o).abs()
            );
        }
        let (_, mse) = roundtrip_stats(&back, &w);
        assert!(mse < 0.01, "mse={mse} (dq={double_quant})");
    }
}

#[test]
fn nf4_roundtrip_uniform_weights_bounded() {
    // Adversarial uniform data: NF4 is coarser at the tails, but the error
    // is still bounded by half the widest codebook gap (0.277 / 2).
    let mut rng = Rng(0xDEAD_BEEF_CAFE_1234);
    let rows = 16;
    let cols = 64;
    let w: Vec<f32> = (0..rows * cols)
        .map(|_| rng.next_f64() as f32 * 2.0 - 1.0)
        .collect();
    let cfg = QuantConfig {
        block_size: 64,
        double_quant: false,
    };
    let q = QuantizedTensor::quantize(&bits(&w), rows, cols, &cfg).unwrap();
    let (max_err, _) = roundtrip_stats(&floats(&q.dequantize()), &w);
    assert!(max_err <= 0.15, "max_err={max_err}");
}

#[test]
fn packed_codes_length_and_layout() {
    let w: Vec<f32> = (0..10).map(|i| i as f32 / 10.0).collect();
    let q = QuantizedTensor::quantize(&bits(&w), 2, 5, &QuantConfig::default()).unwrap();
    assert_eq!(q.codes().len(), 5); // ceil(10 / 2)
    assert_eq!(q.num_blocks(), 1); // block_size 64 > 10
    assert_eq!(q.block_scales().len(), 1);
    // absmax of 0.0..0.9 is 0.9
    assert!((f32::from_bits(q.block_scales()[0]) - 0.9).abs() < 1e-6);
}

#[test]
fn partial_last_block_is_handled() {
    // 100 elements, block 64 -> blocks of 64 + 36.
    let w: Vec<f32> = (0..100).map(|i| (i as f32 - 50.0) / 50.0).collect();
    let cfg = QuantConfig {
        block_size: 64,
        double_quant: true,
    };
    let q = QuantizedTensor::quantize(&bits(&w), 10, 10, &cfg).unwrap();
    assert_eq!(q.num_blocks(), 2);
    assert_eq!(q.block_scales().len(), 2);
    let back = q.dequantize();
    assert_eq!(back.len(), 100);
}

#[test]
fn double_quant_shrinks_scale_storage() {
    let w: Vec<f32> = (0..65_536)
        .map(|i| ((i % 251) as f32 - 125.0) / 125.0)
        .collect();
    let plain = QuantizedTensor::quantize(
        &bits(&w),
        256,
        256,
        &QuantConfig {
            block_size: 64,
            double_quant: false,
        },
    )
    .unwrap();
    let dq = QuantizedTensor::quantize(&bits(&w), 256, 256, &QuantConfig::default()).unwrap();
    assert!(dq.storage_bytes() < plain.storage_bytes());
    // 1024 blocks -> 1024 fp32 scales (4096 B) vs 1024 int8 + 4 fp32 (1040 B).
    assert_eq!(plain.storage_bytes() - dq.storage_bytes(), 4096 - 1040);
}

#[test]
fn from_raw_parts_roundtrips_exactly() {
    // What the bindings do: quantize -> export codes+scales ->
    // rebuild -> identical dequantized output.
    let w: Vec<f32> = (0..512)
        .map(|i| ((i * 7) % 31) as f32 / 31.0 - 0.5)
        .collect();
    let q = QuantizedTensor::quantize(&bits(&w), 16, 32, &QuantConfig::default()).unwrap();
    let rebuilt = QuantizedTensor::from_raw_parts(
        q.rows(),
        q.cols(),
        q.block_size(),
        q.codes().to_vec(),
        q.block_scales(),
    )
    .unwrap();
    assert_eq!(rebuilt.dequantize(), q.dequantize());
    assert!(QuantizedTensor::from_raw_parts(16, 32, 64, vec![0u8; 3], q.block_scales()).is_err());
}

#[test]
fn quantize_rejects_bad_shapes_and_configs() {
    let bad_cfg = QuantConfig {
        block_size: 0,
        double_quant: false,
    };
    assert!(QuantizedTensor::quantize(&bits(&[1.0]), 1, 1, &bad_cfg).is_err());
    assert!(QuantizedTensor::quantize(&bits(&[1.0, 2.0]), 1, 1, &QuantConfig::default()).is_err());
}

#[test]
fn config_errors_have_messages() {
    let cfg = QuantConfig { block_size: 0, double_quant: true };
    let e = cfg.validate().unwrap_err();
    assert_eq!(e.message(), "invalid config: block_size must be > 0");
    let e = QuantizedTensor::quantize(&bits(&[1.0, 2.0]), 1, 3, &QuantConfig::default()).unwrap_err();
    assert_eq!(e, QloraError::ShapeMismatch("weights.len() = 2 but rows*cols = 3".to_string()));
    let e = QuantizedTensor::quantize(&[], usize::MAX, 2, &QuantConfig::default()).unwrap_err();
    assert_eq!(e.message(), "invalid config: rows*cols overflow");
    let e = QuantizedTensor::from_raw_parts(2, 2, 2, vec![0; 2], vec![0; 1]).unwrap_err();
    assert_eq!(
        e.message(),
        "shape mismatch: scales.len() = 1 but ceil(rows*cols/block_size) = 2"
    );
    assert_eq!(QloraError::Gpu("lost".to_string()).message(), "gpu error: lost");
}

#[test]
fn adapter_errors_have_messages() {
    let e = LoraAdapter::new(&[], &[], 4, 4, 0, 0).unwrap_err();
    assert_eq!(e.message(), "invalid config: rank r must be > 0");
    let e = LoraAdapter::new(&[0; 3], &[0; 8], 4, 8, 1, 0).unwrap_err();
    assert_eq!(e.message(), "shape mismatch: a.len() = 3 but r*in_dim = 4");
    let e = LoraAdapter::new(&[0; 4], &[0; 7], 4, 8, 1, 0).unwrap_err();
    assert_eq!(e.message(), "shape mismatch: b.len() = 7 but out_dim*r = 8");
    let mut ad = adapter(&[1.0; 4], &[2.0; 8], 4, 8, 1, 2.0);
    assert_eq!(f32::from_bits(ad.scale()), 2.0);
    assert_eq!(
        (ad.in_dim(), ad.out_dim(), ad.rank(), f32::from_bits(ad.alpha())),
        (4, 8, 1, 2.0)
    );
    let e = ad.set_weights(&[0; 4], &[0; 7]).unwrap_err();
    assert_eq!(
        e.message(),
        "shape mismatch: set_weights: got (4, 7), expected (4, 8)"
    );
    assert_eq!(floats(ad.a()), vec![1.0; 4]);
    assert_eq!(floats(ad.b()), vec![2.0; 8]);
    let e = ad.forward(&[0; 5], 1).unwrap_err();
    assert_eq!(e.message(), "shape mismatch: x.len() = 5 but batch*in_dim = 4");
}

#[test]
fn packed_codes_alternate_nibbles() {
    // -1 is code 0, 1 is code 15, 0 is code 7.
    let q = QuantizedTensor::quantize(
        &bits(&[1.0, -1.0, 0.0, 1.0, 0.0]),
        1,
        5,
        &QuantConfig { block_size: 8, double_quant: false },
    )
    .unwrap();
    assert_eq!(q.codes(), &[0x0F, 0xF7, 0x07]);
    assert_eq!(floats(&q.dequantize()), vec![1.0, -1.0, 0.0, 1.0, 0.0]);
    assert_eq!(q.num_elements(), 5);
    assert_eq!(q.storage_bytes(), 3 + 4);
}

#[test]
fn nearest_level_wins() {
    for i in 0..1000 {
        let w = (i as f32 - 500.0) / 500.0;
        let code = qlora::quant::nearest_nf4_code(w.to_bits(), 1.0f32.to_bits());
        let got = f32::from_bits(NF4_LEVELS[code as usize]);
        for l in NF4_LEVELS.iter() {
            assert!((got - w).abs() <= (f32::from_bits(*l) - w).abs());
        }
    }
}

#[test]
fn zero_adapter_leaves_the_base() {
    let w: Vec<f32> = (0..32).map(|i| ((i * 5) % 9) as f32 / 9.0 - 0.4).collect();
    let x: Vec<f32> = (0..16).map(|i| i as f32 * 0.25 - 1.0).collect();
    let base = QloraLinear::new(&bits(&w), 4, 8, &QuantConfig::default(), None).unwrap();
    let ad = adapter(&[0.3; 16], &[0.0; 8], 8, 4, 2, 16.0);
    let with = QloraLinear::new(&bits(&w), 4, 8, &QuantConfig::default(), Some(ad)).unwrap();
    assert_eq!(
        floats(&with.forward(&bits(&x), 2).unwrap()),
        floats(&base.forward(&bits(&x), 2).unwrap())
    );
}

#[test]
fn layer_from_parts_checks_the_adapter() {
    let q = QuantizedTensor::quantize(&bits(&[0.5; 12]), 3, 4, &QuantConfig::default()).unwrap();
    let ad = adapter(&[0.1; 4], &[0.1; 2], 4, 2, 1, 1.0);
    let e = QloraLinear::from_quantized(q.clone(), Some(ad)).unwrap_err();
    assert_eq!(e.message(), "shape mismatch: adapter (2, 4) vs weight (3, 4)");
    let l = QloraLinear::from_quantized(q, None).unwrap();
    assert_eq!((l.out_dim(), l.in_dim()), (3, 4));
    assert!(l.adapter().is_none());
}

#[test]
fn equality_is_that_of_numbers() {
    let make = |v: &[f32]| LoraAdapter::new(&bits(v), &bits(&[1.0]), 1, 1, 1, 1.0f32.to_bits()).unwrap();
    assert!(make(&[0.0]) == make(&[-0.0]));
    assert!(make(&[2.0]) != make(&[3.0]));
    let nan = make(&[f32::NAN]);
    assert!(nan != nan.clone());

    let tensor = |scale: f32| QuantizedTensor::from_raw_parts(1, 2, 2, vec![0x87], bits(&[scale])).unwrap();
    assert!(tensor(0.0) == tensor(-0.0));
    assert!(tensor(1.0) != tensor(2.0));
    assert!(tensor(f32::NAN) != tensor(f32::NAN));
    let plain = QuantizedTensor::quantize(&bits(&[1.0, 0.5]), 1, 2, &QuantConfig { block_size: 2, double_quant: false });
    let double = QuantizedTensor::quantize(&bits(&[1.0, 0.5]), 1, 2, &QuantConfig { block_size: 2, double_quant: true });
    assert!(plain == plain && plain.unwrap() != double.unwrap());

    let grads = |a: Option<f32>, x: f32| QloraGrads { grad_a: a.map(|v| bits(&[v])), grad_b: None, grad_x: bits(&[x]) };
    assert!(grads(Some(0.0), -0.0) == grads(Some(-0.0), 0.0));
    assert!(grads(None, 1.0) != grads(Some(1.0), 1.0));
    assert!(grads(None, f32::NAN) != grads(None, f32::NAN));
}
