//! Kernel planning and composition, on a simulated device and on none.
use qlora::bindings::{quantize_nf4, rebuild_layer, QuantizedWeight};
use qlora::gpu::{
    gpu_dequantize, gpu_matmul, gpu_matmul_trans_a, gpu_matmul_trans_b, gpu_qlora_backward,
    gpu_qlora_forward, DequantJob, Gemm, GemmJob, GpuContext,
};
use qlora::{lora, LoraAdapter, QloraError, QloraLinear, QuantConfig, QuantizedTensor};

type Answer = Result<Vec<u32>, QloraError>;
type Device = GpuContext<fn(&DequantJob) -> Answer, fn(&GemmJob) -> Answer>;

fn bits(v: &[f32]) -> Vec<u32> {
    v.iter().map(|x| x.to_bits()).collect()
}

fn floats(v: &[u32]) -> Vec<f32> {
    v.iter().map(|x| f32::from_bits(*x)).collect()
}

fn max_abs_diff(a: &[u32], b: &[u32]) -> f32 {
    assert_eq!(a.len(), b.len());
    floats(a)
        .iter()
        .zip(floats(b).iter())
        .map(|(x, y)| (x - y).abs())
        .fold(0.0f32, f32::max)
}

/// What the dequantization kernel computes, in native arithmetic.
fn run_dequant(job: &DequantJob) -> Answer {
    assert_eq!(job.codes.len() % 4, 0);
    assert!(job.groups as usize * 256 >= job.len);
    assert_eq!(job.n as usize, job.len);
    let mut out = Vec::new();
    for i in 0..job.len {
        let byte = job.codes[i / 2];
        let code = if i % 2 == 0 { byte & 15 } else { byte >> 4 };
        let level = f32::from_bits(job.levels[code as usize]);
        out.push((level * f32::from_bits(job.scales[i / job.block_size as usize])).to_bits());
    }
    Ok(out)
}

/// What the GEMM kernels compute, in native arithmetic.
fn run_gemm(job: &GemmJob) -> Answer {
    let (m, n, k) = (job.m as usize, job.n as usize, job.k as usize);
    assert_eq!(job.len, m * n);
    assert!(job.groups_x as usize * 16 >= n && job.groups_y as usize * 16 >= m);
    let (a, b) = (floats(job.a), floats(job.b));
    let mut out = Vec::new();
    for i in 0..m {
        for j in 0..n {
            let mut acc = 0.0f32;
            for p in 0..k {
                acc += match job.kind {
                    Gemm::Nn => a[i * k + p] * b[p * n + j],
                    Gemm::Nt => a[i * k + p] * b[j * k + p],
                    Gemm::Tn => a[p * m + i] * b[p * n + j],
                };
            }
            out.push(acc.to_bits());
        }
    }
    Ok(out)
}

fn device() -> Device {
    GpuContext { dequantize: run_dequant, gemm: run_gemm }
}

#[test]
fn gpu_tiled_gemms_match_cpu_on_odd_sizes() {
    let gpu = device();
    for ctx in [None, Some(&gpu)] {
        println!("gpu available: {}", ctx.is_some());

        // (m, k, n) = (18, 20, 33): nothing is a multiple of 16.
        let (m, k, n) = (18usize, 20usize, 33usize);
        let a: Vec<f32> = (0..m * k)
            .map(|i| ((i * 11) % 13) as f32 / 13.0 - 0.5)
            .collect();
        let b_nn: Vec<f32> = (0..k * n)
            .map(|i| ((i * 7) % 11) as f32 / 11.0 - 0.5)
            .collect();
        let b_nt: Vec<f32> = (0..n * k)
            .map(|i| ((i * 5) % 9) as f32 / 9.0 - 0.5)
            .collect();
        let b_tn: Vec<f32> = (0..m * n)
            .map(|i| ((i * 3) % 7) as f32 / 7.0 - 0.5)
            .collect();
        let (a, b_nn, b_nt, b_tn) = (bits(&a), bits(&b_nn), bits(&b_nt), bits(&b_tn));

        let g = gpu_matmul(ctx, &a, &b_nn, m, k, n).unwrap();
        let c = lora::matmul(&a, &b_nn, m, k, n);
        assert!(max_abs_diff(&g, &c) < 1e-3, "mm_nn");

        let g = gpu_matmul_trans_b(ctx, &a, &b_nt, m, k, n).unwrap();
        let c = lora::matmul_trans_b(&a, &b_nt, m, k, n);
        assert!(max_abs_diff(&g, &c) < 1e-3, "mm_nt");

        let g = gpu_matmul_trans_a(ctx, &a, &b_tn, m, k, n).unwrap();
        let c = lora::matmul_trans_a(&a, &b_tn, m, k, n);
        assert!(max_abs_diff(&g, &c) < 1e-3, "mm_tn");
    }
}

#[test]
fn gpu_backward_matches_cpu_on_odd_sizes() {
    let gpu = device();
    for ctx in [None, Some(&gpu)] {
        println!("gpu available: {}", ctx.is_some());

        let (out_dim, in_dim, r, batch) = (18usize, 20usize, 5usize, 3usize);
        let w: Vec<f32> = (0..out_dim * in_dim)
            .map(|i| ((i * 37) % 17) as f32 / 17.0 - 1.0)
            .collect();
        let a: Vec<f32> = (0..r * in_dim)
            .map(|i| ((i * 13) % 7) as f32 / 7.0 - 0.5)
            .collect();
        let b: Vec<f32> = (0..out_dim * r)
            .map(|i| ((i * 29) % 5) as f32 / 5.0 - 0.5)
            .collect();
        let layer = QloraLinear::new(
            &bits(&w),
            out_dim,
            in_dim,
            &QuantConfig::default(),
            Some(LoraAdapter::new(&bits(&a), &bits(&b), in_dim, out_dim, r, 8.0f32.to_bits()).unwrap()),
        )
        .unwrap();
        let x: Vec<f32> = (0..batch * in_dim)
            .map(|i| ((i * 3) % 11) as f32 / 11.0 - 0.5)
            .collect();
        let dy: Vec<f32> = (0..batch * out_dim)
            .map(|i| ((i * 7) % 13) as f32 / 13.0 - 0.5)
            .collect();
        let (x, dy) = (bits(&x), bits(&dy));

        // Forward parity on odd sizes too (tiled mm_nt).
        let y_gpu = gpu_qlora_forward(ctx, &layer, &x, batch).unwrap();
        let y_cpu = layer.forward(&x, batch).unwrap();
        assert!(max_abs_diff(&y_gpu, &y_cpu) < 1e-3, "forward");

        let g_gpu = gpu_qlora_backward(ctx, &layer, &x, &dy, batch).unwrap();
        let g_cpu = layer.backward(&x, &dy, batch).unwrap();
        assert!(max_abs_diff(&g_gpu.grad_x, &g_cpu.grad_x) < 1e-2, "grad_x");
        let (ga_g, ga_c) = (g_gpu.grad_a.unwrap(), g_cpu.grad_a.unwrap());
        let (gb_g, gb_c) = (g_gpu.grad_b.unwrap(), g_cpu.grad_b.unwrap());
        assert!(max_abs_diff(&ga_g, &ga_c) < 1e-2, "grad_a");
        assert!(max_abs_diff(&gb_g, &gb_c) < 1e-2, "grad_b");
    }
}

#[test]
fn gpu_matches_cpu_reference() {
    let gpu = device();
    for ctx in [None, Some(&gpu)] {
        println!("gpu available: {}", ctx.is_some());

        let (out_dim, in_dim, r) = (8usize, 32usize, 4usize);
        let w: Vec<f32> = (0..out_dim * in_dim)
            .map(|i| ((i * 11) % 13) as f32 / 13.0 - 0.5)
            .collect();
        let cfg = QuantConfig::default();
        let layer = QloraLinear::new(
            &bits(&w),
            out_dim,
            in_dim,
            &cfg,
            Some(
                LoraAdapter::new(
                    &bits(&vec![0.05; r * in_dim]),
                    &bits(&vec![0.07; out_dim * r]),
                    in_dim,
                    out_dim,
                    r,
                    8.0f32.to_bits(),
                )
                .unwrap(),
            ),
        )
        .unwrap();

        // Dequant parity.
        let dq_gpu = gpu_dequantize(ctx, layer.weight()).unwrap();
        let dq_cpu = layer.weight().dequantize();
        assert!(max_abs_diff(&dq_gpu, &dq_cpu) < 1e-5);

        // GEMM parity against the CPU (same loop order by design).
        let a = bits(&vec![0.25f32; 2 * in_dim]);
        let g = gpu_matmul_trans_b(ctx, &a, &dq_cpu, 2, in_dim, out_dim).unwrap();
        let c = lora::matmul_trans_b(&a, &dq_cpu, 2, in_dim, out_dim);
        assert!(max_abs_diff(&g, &c) < 1e-4);

        // Fused forward parity.
        let y_gpu = gpu_qlora_forward(ctx, &layer, &a, 2).unwrap();
        let y_cpu = layer.forward(&a, 2).unwrap();
        assert!(max_abs_diff(&y_gpu, &y_cpu) < 1e-3);
    }
}

#[test]
fn no_context_gives_the_cpu_result() {
    let layer = QloraLinear::new(&bits(&[0.5, -0.25, 1.0, 0.75]), 2, 2, &QuantConfig::default(), None).unwrap();
    let x = bits(&[1.0, 2.0]);
    let y = gpu_qlora_forward(None::<&Device>, &layer, &x, 1).unwrap();
    assert_eq!(y, layer.forward(&x, 1).unwrap());
    let g = gpu_qlora_backward(None::<&Device>, &layer, &x, &x, 1).unwrap();
    assert_eq!(g, layer.backward(&x, &x, 1).unwrap());
}

#[test]
fn an_exact_device_matches_to_the_last_bit() {
    let gpu = device();
    let (out_dim, in_dim, r, batch) = (7usize, 9usize, 3usize, 4usize);
    let list = |n: usize, m: usize| -> Vec<u32> {
        bits(&(0..n).map(|i| ((i * m) % 23) as f32 / 23.0 - 0.5).collect::<Vec<f32>>())
    };
    let layer = |alpha: Option<f32>| {
        let adapter = alpha.map(|x| {
            LoraAdapter::new(&list(r * in_dim, 5), &list(out_dim * r, 7), in_dim, out_dim, r, x.to_bits()).unwrap()
        });
        QloraLinear::new(&list(out_dim * in_dim, 3), out_dim, in_dim, &QuantConfig::default(), adapter).unwrap()
    };
    let (x, dy) = (list(batch * in_dim, 11), list(batch * out_dim, 13));
    for alpha in [None, Some(3.0), Some(0.7)] {
        let l = layer(alpha);
        let g = gpu_qlora_backward(Some(&gpu), &l, &x, &dy, batch).unwrap();
        assert_eq!(g, l.backward(&x, &dy, batch).unwrap());
        // The forward pass takes the scale into A, which rounds otherwise
        // unless the scale is one.
        let y = gpu_qlora_forward(Some(&gpu), &l, &x, batch).unwrap();
        let cpu = l.forward(&x, batch).unwrap();
        if alpha == Some(0.7) {
            assert!(y != cpu && max_abs_diff(&y, &cpu) < 1e-5);
        } else {
            assert_eq!(y, cpu);
        }
    }
}

#[test]
fn wrong_lengths_come_before_sizes() {
    let gpu = device();
    let layer = QloraLinear::new(&[0; 2], 2, 1, &QuantConfig::default(), None).unwrap();
    let want = format!("shape mismatch: x.len() = 3 but batch*in_dim = {}", usize::MAX);
    for ctx in [None, Some(&gpu)] {
        assert_eq!(gpu_qlora_forward(ctx, &layer, &[0; 3], usize::MAX).unwrap_err().message(), want);
        assert_eq!(gpu_qlora_backward(ctx, &layer, &[0; 3], &[], usize::MAX).unwrap_err().message(), want);
    }
    assert!(gpu_matmul(Some(&gpu), &[], &[], 0, usize::MAX, usize::MAX).unwrap().is_empty());
    assert!(gpu_matmul(Some(&gpu), &[0], &[0], 1, 2, usize::MAX).is_err());
    let w = QuantizedWeight { rows: usize::MAX, cols: usize::MAX, block_size: 1, double_quant: false, codes: vec![], scales: vec![] };
    let e = rebuild_layer(&w, Some(&[0]), None, None).unwrap_err();
    assert_eq!(e, "lora_a and lora_b must be given together");
}

#[test]
fn gpu_sizes_are_checked() {
    let gpu = device();
    let ctx = Some(&gpu);
    let e = gpu_matmul(ctx, &[0; 5], &[0; 6], 2, 3, 2).unwrap_err();
    assert_eq!(
        e.message(),
        "shape mismatch: gpu_matmul: a.len() = 5, b.len() = 6, expected 2*3 and 3*2"
    );
    let e = gpu_matmul_trans_b(ctx, &[0; 6], &[0; 5], 2, 3, 2).unwrap_err();
    assert_eq!(
        e.message(),
        "shape mismatch: gpu_matmul_trans_b: a.len() = 6, b.len() = 5, expected 2*3 and 2*3"
    );
    let e = gpu_matmul_trans_a(ctx, &[0; 6], &[0; 5], 2, 3, 2).unwrap_err();
    assert_eq!(
        e.message(),
        "shape mismatch: gpu_matmul_trans_a: a.len() = 6, b.len() = 5, expected 2*3 and 2*2"
    );
    assert!(gpu_matmul(ctx, &[], &[], 0, 3, 2).unwrap().is_empty());
    let layer = QloraLinear::new(&[0; 4], 2, 2, &QuantConfig::default(), None).unwrap();
    let e = gpu_qlora_forward(ctx, &layer, &[0; 3], 1).unwrap_err();
    assert_eq!(e.message(), "shape mismatch: x.len() = 3 but batch*in_dim = 2");
    let e = gpu_qlora_backward(ctx, &layer, &[0; 2], &[0; 3], 1).unwrap_err();
    assert_eq!(e.message(), "shape mismatch: dy.len() = 3 but batch*out_dim = 2");
}

#[test]
fn device_failures_are_handed_on() {
    fn lost(_: &GemmJob) -> Answer {
        Err(QloraError::Gpu("lost".to_string()))
    }
    let gpu: Device = GpuContext { dequantize: run_dequant, gemm: lost };
    let layer = QloraLinear::new(&[0; 4], 2, 2, &QuantConfig::default(), None).unwrap();
    let e = gpu_qlora_forward(Some(&gpu), &layer, &[0; 2], 1).unwrap_err();
    assert_eq!(e.message(), "gpu error: lost");
    let e = gpu_qlora_backward(Some(&gpu), &layer, &[0; 2], &[0; 2], 1).unwrap_err();
    assert_eq!(e, QloraError::Gpu("lost".to_string()));
}

#[test]
fn codes_are_padded_to_words() {
    fn check(job: &DequantJob) -> Answer {
        assert_eq!(job.codes.len(), 4);
        assert_eq!(job.codes[3], 0);
        assert_eq!((job.n, job.block_size, job.groups), (5, 64, 1));
        run_dequant(job)
    }
    let gpu: Device = GpuContext { dequantize: check, gemm: run_gemm };
    let q = QuantizedTensor::quantize(&bits(&[1.0, -1.0, 0.5, 0.0, 1.0]), 1, 5, &QuantConfig::default()).unwrap();
    assert_eq!(gpu_dequantize(Some(&gpu), &q).unwrap(), q.dequantize());
}

fn weight() -> QuantizedWeight {
    let w: Vec<f32> = (0..12).map(|i| i as f32 / 6.0 - 1.0).collect();
    quantize_nf4(&bits(&w), 3, 4, 8, true).unwrap()
}

#[test]
fn exported_weights_stand_for_the_same_values() {
    let w = weight();
    let v: Vec<f32> = (0..12).map(|i| i as f32 / 6.0 - 1.0).collect();
    let q = QuantizedTensor::quantize(&bits(&v), 3, 4, &QuantConfig { block_size: 8, double_quant: true }).unwrap();
    assert_eq!(w.dequantize(), q.dequantize());
    assert_eq!(w.scales, q.block_scales());
    assert_eq!(w.repr(), "QuantizedWeight(rows=3, cols=4, block_size=8, double_quant=true)");
    assert_eq!(
        quantize_nf4(&[0; 3], 2, 2, 8, false).unwrap_err().message(),
        "shape mismatch: weights.len() = 3 but rows*cols = 4"
    );
}

#[test]
fn layers_are_rebuilt_from_lists() {
    let w = weight();
    let (a, b) = (bits(&[0.5; 8]), bits(&[0.25; 6]));
    let l = rebuild_layer(&w, Some(&a), Some(&b), None).unwrap();
    let ad = l.adapter().unwrap();
    assert_eq!((ad.rank(), f32::from_bits(ad.alpha()), f32::from_bits(ad.scale())), (2, 2.0, 1.0));
    assert_eq!(l.weight().dequantize(), w.dequantize());
    let l = rebuild_layer(&w, Some(&a), Some(&b), Some(8.0f32.to_bits())).unwrap();
    assert_eq!(f32::from_bits(l.adapter().unwrap().scale()), 4.0);
    assert!(rebuild_layer(&w, None, None, None).unwrap().adapter().is_none());
    assert!(rebuild_layer(&w, Some(&[]), Some(&[]), None).unwrap().adapter().is_none());
}

#[test]
fn rebuilding_reports_what_is_wrong() {
    let w = weight();
    let (a, b) = (bits(&[0.5; 8]), bits(&[0.25; 6]));
    let fault = |w: &QuantizedWeight, a: Option<&[u32]>, b: Option<&[u32]>| rebuild_layer(w, a, b, None).unwrap_err();
    assert_eq!(fault(&w, Some(&a), None), "lora_a and lora_b must be given together");
    assert_eq!(fault(&w, None, Some(&b)), "lora_a and lora_b must be given together");
    assert_eq!(fault(&w, Some(&a[1..]), Some(&b)), "lora_a length must be a multiple of in_dim");
    assert_eq!(fault(&w, Some(&a), Some(&b[1..])), "lora_b length must equal out_dim * rank");
    let mut short = w.clone();
    short.codes.pop();
    assert_eq!(fault(&short, None, None), "QuantizedWeight codes length does not match rows*cols");
    let mut short = w.clone();
    short.scales.pop();
    assert_eq!(
        fault(&short, None, None),
        "shape mismatch: scales.len() = 1 but ceil(rows*cols/block_size) = 2"
    );
    let mut flat = w;
    flat.block_size = 0;
    assert_eq!(fault(&flat, None, None), "invalid config: block_size must be > 0");
}
