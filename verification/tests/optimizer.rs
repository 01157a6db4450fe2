//! Paged 8-bit Adam: f64 reference parity, paging parity, convergence.
use qlora::optim::{dequant_block_i8, quantize_block_i8};
use qlora::{Adam8bit, AdamConfig, AdamStats, QloraError};

fn bits(v: &[f32]) -> Vec<u32> {
    v.iter().map(|x| x.to_bits()).collect()
}

fn floats(v: &[u32]) -> Vec<f32> {
    v.iter().map(|x| f32::from_bits(*x)).collect()
}

fn config() -> AdamConfig {
    AdamConfig::default()
}

fn powf(x: u32, y: u32) -> u32 {
    f32::from_bits(x).powf(f32::from_bits(y)).to_bits()
}

/// A step with native powers.
fn step(
    opt: &mut Adam8bit,
    params: &mut Vec<Vec<f32>>,
    grads: &[Vec<f32>],
) -> Result<AdamStats, QloraError> {
    let mut p: Vec<Vec<u32>> = params.iter().map(|v| bits(v)).collect();
    let g: Vec<Vec<u32>> = grads.iter().map(|v| bits(v)).collect();
    let r = opt.step_with(&mut p, &g, &powf);
    *params = p.iter().map(|v| floats(v)).collect();
    r
}

#[test]
fn int8_block_roundtrip_bounds_error() {
    let x: Vec<f32> = (0..300)
        .map(|i| ((i * 7) % 101) as f32 / 101.0 - 0.5)
        .collect();
    let (codes, scale) = quantize_block_i8(&bits(&x));
    let scale_value = f32::from_bits(scale);
    assert!((scale_value - 0.5).abs() < 1e-6);
    let back = floats(&dequant_block_i8(&codes, scale));
    for (o, b) in x.iter().zip(back.iter()) {
        assert!((o - b).abs() <= 0.5 / 127.0 * scale_value + 1e-7);
    }
    // Zero block stays zero.
    let (zc, zs) = quantize_block_i8(&bits(&[0.0; 8]));
    assert_eq!(f32::from_bits(zs), 0.0);
    assert!(zc.iter().all(|&c| c == 0));
}

#[test]
fn int8_error_grows_with_the_scale_alone() {
    for top in [1e-30f32, 0.3, 1.0, 3.7, 1e30] {
        let x: Vec<f32> = (0..=500).map(|i| (i as f32 / 250.0 - 1.0) * top).collect();
        let (codes, scale) = quantize_block_i8(&bits(&x));
        let back = floats(&dequant_block_i8(&codes, scale));
        let scale = f32::from_bits(scale) as f64;
        for (o, b) in x.iter().zip(back.iter()) {
            let error = (*o as f64 - *b as f64).abs();
            assert!(error <= scale / 254.0 * (1.0 + 636.0 / 16_777_216.0) + f32::from_bits(1) as f64);
        }
    }
}

#[test]
fn powers_are_of_each_decay_and_step() {
    let settings = AdamConfig { beta1: 0.5f32.to_bits(), beta2: 0.75f32.to_bits(), ..config() };
    let grads = vec![bits(&[0.5, -0.25])];
    let mut given = Adam8bit::new(settings).unwrap();
    let mut taken = Adam8bit::new(settings).unwrap();
    let (mut p, mut q) = (vec![bits(&[1.0, 2.0])], vec![bits(&[1.0, 2.0])]);
    for t in 1..=4 {
        let powers = [(0.5f32.powf(t as f32).to_bits(), 0.75f32.powf(t as f32).to_bits())];
        let a = given.step(&mut p, &grads, &powers).unwrap();
        let b = taken.step_with(&mut q, &grads, &powf).unwrap();
        assert_eq!((a, &p), (b, &q));
    }
}

/// Independent f64 Adam reference (no quantization).
struct RefAdam {
    m: Vec<f64>,
    v: Vec<f64>,
    lr: f64,
    b1: f64,
    b2: f64,
    eps: f64,
}

impl RefAdam {
    fn step(&mut self, p: &mut [f64], g: &[f64], t: u64) {
        for i in 0..p.len() {
            self.m[i] = self.b1 * self.m[i] + (1.0 - self.b1) * g[i];
            self.v[i] = self.b2 * self.v[i] + (1.0 - self.b2) * g[i] * g[i];
            let mh = self.m[i] / (1.0 - self.b1.powi(t as i32));
            let vh = self.v[i] / (1.0 - self.b2.powi(t as i32));
            p[i] -= self.lr * mh / (vh.sqrt() + self.eps);
        }
    }
}

#[test]
fn adam8bit_tracks_fp64_reference() {
    let n = 64;
    let g: Vec<f32> = (0..n)
        .map(|i| ((i * 13) % 17) as f32 / 17.0 - 0.5)
        .collect();
    let mut params = vec![vec![1.0f32; n]];
    let grads = vec![g.clone()];
    let mut opt = Adam8bit::new(AdamConfig {
        lr: 0.01f32.to_bits(),
        block_size: 32,
        ..config()
    })
    .unwrap();

    let mut pr: Vec<f64> = vec![1.0; n];
    let gr: Vec<f64> = g.iter().map(|&v| v as f64).collect();
    let mut reference = RefAdam {
        m: vec![0.0f64; n],
        v: vec![0.0f64; n],
        lr: 0.01,
        b1: 0.9,
        b2: 0.999,
        eps: 1e-8,
    };
    for t in 1..=5u64 {
        step(&mut opt, &mut params, &grads).unwrap();
        reference.step(&mut pr, &gr, t);
        // 8-bit state noise must stay small vs the exact reference.
        for (got, want) in params[0].iter().zip(pr.iter()) {
            assert!((*got as f64 - *want).abs() < 5e-3, "t={t}: {got} vs {want}");
        }
    }
}

#[test]
fn paging_matches_fully_resident_bitwise() {
    let mk = |pages| {
        Adam8bit::new(AdamConfig {
            lr: 0.01f32.to_bits(),
            block_size: 16,
            max_resident_pages: pages,
            ..config()
        })
        .unwrap()
    };
    let g: Vec<f32> = (0..256)
        .map(|i| ((i * 7) % 43) as f32 / 43.0 - 0.5)
        .collect();
    let mut pa = vec![vec![0.5f32; 256], vec![-1.0f32; 256]];
    let mut pb = pa.clone();
    let ga = vec![g.clone(), g.clone()];
    let mut oa = mk(1); // one page resident: maximum paging
    let mut ob = mk(usize::MAX); // fully resident
    for _ in 0..3 {
        let sa = step(&mut oa, &mut pa, &ga).unwrap();
        let sb = step(&mut ob, &mut pb, &ga).unwrap();
        assert_eq!(sa.pages_streamed, sb.pages_streamed);
        assert_eq!(pa, pb);
    }
}

#[test]
fn adam8bit_converges_on_quadratic() {
    // Minimize sum(x^2): gradient 2x, recomputed each step.
    let mut params = vec![vec![2.0f32; 32]];
    let mut opt = Adam8bit::new(AdamConfig {
        lr: 0.05f32.to_bits(),
        block_size: 32,
        ..config()
    })
    .unwrap();
    for _ in 0..300 {
        let g: Vec<f32> = params[0].iter().map(|&x| 2.0 * x).collect();
        step(&mut opt, &mut params, &[g]).unwrap();
    }
    let max_abs = params[0].iter().fold(0.0f32, |a, &x| a.max(x.abs()));
    assert!(max_abs < 0.05, "max|x| = {max_abs}");
}

#[test]
fn adam8bit_state_is_compact_and_validated() {
    let mut opt = Adam8bit::new(AdamConfig::default()).unwrap();
    let mut params = vec![vec![0.1f32; 1024]];
    let grads = vec![vec![0.01f32; 1024]];
    step(&mut opt, &mut params, &grads).unwrap();
    // fp32 Adam would hold 2 * 1024 * 4 = 8192 bytes of state.
    assert!(opt.state_bytes() < 8192);
    // 1024 int8 + 1024 int8 + 2 * 4 blocks * 4 bytes (block 256).
    assert_eq!(opt.state_bytes(), 2048 + 2 * 4 * 4);

    assert!(Adam8bit::new(AdamConfig {
        lr: (-0.1f32).to_bits(),
        ..Default::default()
    })
    .is_err());
    assert!(Adam8bit::new(AdamConfig {
        block_size: 0,
        ..Default::default()
    })
    .is_err());
    let mut bad_params = vec![vec![1.0f32; 4]];
    let bad_grads = vec![vec![1.0f32; 5]];
    assert!(step(&mut opt, &mut bad_params, &bad_grads).is_err());
}

#[test]
fn settings_are_validated_one_by_one() {
    let message = |c: AdamConfig| c.validate().unwrap_err().message();
    for lr in [0.0f32, -1.0, f32::NAN, f32::INFINITY] {
        let c = AdamConfig { lr: lr.to_bits(), ..config() };
        assert_eq!(message(c), "invalid config: lr must be positive and finite");
    }
    for b in [1.0f32, -0.5, f32::NAN, 2.0] {
        let c = AdamConfig { beta1: b.to_bits(), ..config() };
        assert_eq!(message(c), "invalid config: betas must be in (0, 1)");
        let c = AdamConfig { beta2: b.to_bits(), ..config() };
        assert_eq!(message(c), "invalid config: betas must be in (0, 1)");
    }
    let c = AdamConfig { max_resident_pages: 0, ..config() };
    assert_eq!(message(c), "invalid config: block_size and max_resident_pages must be > 0");
    let c = config();
    assert_eq!(
        (f32::from_bits(c.lr), f32::from_bits(c.beta1), f32::from_bits(c.beta2), f32::from_bits(c.eps)),
        (1e-3, 0.9, 0.999, 1e-8)
    );
    assert!(c.validate().is_ok());
}

#[test]
fn mismatches_stop_where_they_are_found() {
    let mut opt = Adam8bit::new(config()).unwrap();
    let mut p = vec![vec![1.0f32; 2], vec![1.0; 3], vec![1.0; 2]];
    let e = step(&mut opt, &mut p, &[vec![1.0; 2]]).unwrap_err();
    assert_eq!(e.message(), "shape mismatch: params.len() = 3 but grads.len() = 1");
    assert_eq!(p[0], vec![1.0; 2]);
    let e = step(&mut opt, &mut p, &[vec![1.0; 2], vec![1.0; 2], vec![1.0; 2]]).unwrap_err();
    assert_eq!(e.message(), "shape mismatch: param 1: len = 3 but grad len = 2");
    // The parameter before the mismatch has moved, those from it on have not.
    assert!(p[0][0] < 1.0);
    assert_eq!(p[1], vec![1.0; 3]);
    assert_eq!(p[2], vec![1.0; 2]);
}

#[test]
fn first_step_moves_by_the_learning_rate() {
    let mut opt = Adam8bit::new(AdamConfig { lr: 0.5f32.to_bits(), block_size: 2, ..config() }).unwrap();
    let mut p = vec![vec![1.0f32, 1.0, 1.0]];
    let s = step(&mut opt, &mut p, &[vec![4.0, -4.0, 0.0]]).unwrap();
    assert_eq!((s.pages_streamed, s.state_bytes), (2, 2 * 3 + 8 * 2));
    assert!((p[0][0] - 0.5).abs() < 1e-5);
    assert!((p[0][1] - 1.5).abs() < 1e-5);
    assert_eq!(p[0][2], 1.0);
}

#[test]
fn steps_count_per_parameter() {
    let mut opt = Adam8bit::new(config()).unwrap();
    let mut p = vec![vec![1.0f32; 2]];
    assert_eq!(opt.next_steps(&[vec![0; 2]]), vec![1]);
    step(&mut opt, &mut p, &[vec![1.0; 2]]).unwrap();
    step(&mut opt, &mut p, &[vec![1.0; 2]]).unwrap();
    assert_eq!(opt.next_steps(&[vec![0; 2], vec![0; 4]]), vec![3, 1]);
    // A parameter of another length starts anew.
    assert_eq!(opt.next_steps(&[vec![0; 5]]), vec![1]);
}

#[test]
fn one_element_matches_the_formulas() {
    // Native arithmetic, operation by operation.
    let (lr, b1, b2, eps) = (0.01f32, 0.9f32, 0.999f32, 1e-8f32);
    let mut opt = Adam8bit::new(AdamConfig { lr: lr.to_bits(), ..config() }).unwrap();
    let mut p = vec![vec![0.7f32]];
    let mut want = 0.7f32;
    let (mut m, mut s) = (0.0f32, 0.0f32);
    for t in 1..=4 {
        let g = 0.3f32 * t as f32 - 0.5;
        m = b1 * m + (1.0 - b1) * g;
        let var = b2 * s * s + (1.0 - b2) * g * g;
        s = var.sqrt();
        let (b1t, b2t) = (1.0 - b1.powf(t as f32), 1.0 - b2.powf(t as f32));
        want -= lr * (m / b1t) / ((var / b2t).sqrt() + eps);
        step(&mut opt, &mut p, &[vec![g]]).unwrap();
        assert_eq!(p[0][0].to_bits(), want.to_bits());
        // A lone element is its own block maximum: code 127 or -127.
        m = (if m < 0.0 { -127.0 } else { 127.0 }) / 127.0 * m.abs();
        s = 127.0 / 127.0 * s;
    }
}
