//! The model, against native arithmetic and finite differences.
use qlora::io::NamedArray;
use qlora::model::attention::{attention, attention_with, Attention};
use qlora::model::attention_grad::{attention_backward, attention_backward_with};
use qlora::model::init::lcg;
use qlora::model::norm::{rmsnorm_backward, rmsnorm_in_place};
use qlora::model::rope::rope_apply;
use qlora::model::{
    rope_tables, softmax_cross_entropy, AdapterConfig, AdapterGrad, LayerWeights, LlamaConfig,
    LlamaModel, LoadError, Proj, ProjKind, Tables,
};
use qlora::{LoraAdapter, QloraLinear, QuantConfig};
use std::collections::HashMap;

fn bits(v: &[f32]) -> Vec<u32> {
    v.iter().map(|x| x.to_bits()).collect()
}

fn floats(v: &[u32]) -> Vec<f32> {
    v.iter().map(|x| f32::from_bits(*x)).collect()
}

fn exp(x: u32) -> u32 {
    f32::from_bits(x).exp().to_bits()
}

fn ln(x: u32) -> u32 {
    f32::from_bits(x).ln().to_bits()
}

fn powf(x: u32, y: u32) -> u32 {
    f32::from_bits(x).powf(f32::from_bits(y)).to_bits()
}

fn cosine(x: u32) -> u32 {
    f32::from_bits(x).cos().to_bits()
}

fn sine(x: u32) -> u32 {
    f32::from_bits(x).sin().to_bits()
}

fn tables(cfg: &LlamaConfig, seq: usize) -> (Vec<Vec<u32>>, Vec<Vec<u32>>) {
    rope_tables(cfg, seq, &powf, &cosine, &sine)
}

fn forward(m: &LlamaModel, ids: &[u32]) -> Vec<f32> {
    floats(&m.forward_with(ids, &powf, &cosine, &sine, &exp))
}

fn backward(m: &LlamaModel, ids: &[u32], dlogits: &[f32]) -> Vec<AdapterGrad> {
    m.backward_with(ids, &bits(dlogits), &powf, &cosine, &sine, &exp)
}

/// The settings that native arithmetic works with.
struct Dims {
    hidden: usize,
    heads: usize,
    kv_heads: usize,
    rope_theta: f32,
}

impl Dims {
    fn of(c: &LlamaConfig) -> Dims {
        Dims {
            hidden: c.hidden,
            heads: c.heads,
            kv_heads: c.kv_heads,
            rope_theta: f32::from_bits(c.rope_theta),
        }
    }

    fn head_dim(&self) -> usize {
        self.hidden / self.heads
    }
}

fn native_rmsnorm_in_place(x: &mut [f32], w: &[f32], eps: f32) {
    let h = w.len();
    for row in x.chunks_mut(h) {
        let mean_sq = row.iter().map(|&v| v * v).sum::<f32>() / h as f32;
        let scale = 1.0 / (mean_sq + eps).sqrt();
        for (v, &w_i) in row.iter_mut().zip(w.iter()) {
            *v = *v * scale * w_i;
        }
    }
}


fn native_rmsnorm_backward(x: &[f32], w: &[f32], dy: &[f32], eps: f32) -> (Vec<f32>, Vec<f32>) {
    let h = w.len();
    let s = x.len() / h;
    let mut dx = vec![0.0f32; x.len()];
    let mut dw = vec![0.0f32; h];
    for t in 0..s {
        let xr = &x[t * h..(t + 1) * h];
        let dyr = &dy[t * h..(t + 1) * h];
        let mean_sq = xr.iter().map(|&v| v * v).sum::<f32>() / h as f32;
        let ss = mean_sq + eps;
        let r = ss.sqrt().recip();
        // dS = sum(dy * x * w) * (-0.5) * S^-1.5
        let mut ds = 0.0f32;
        for j in 0..h {
            ds += dyr[j] * xr[j] * w[j];
            dw[j] += dyr[j] * xr[j] * r;
        }
        ds *= -0.5 * ss.recip() * r;
        for j in 0..h {
            dx[t * h + j] = dyr[j] * w[j] * r + 2.0 * xr[j] / h as f32 * ds;
        }
    }
    (dx, dw)
}


fn native_attention(cfg: &Dims, q: &[f32], k: &[f32], v: &[f32], seq: usize) -> Vec<f32> {
    let dh = cfg.head_dim();
    let h = cfg.hidden;
    let (cos, sin) = native_rope_tables(cfg, seq);
    let n_rep = cfg.heads / cfg.kv_heads;
    let scale = 1.0 / (dh as f32).sqrt();
    let mut out = vec![0.0f32; seq * h];
    let mut scores = vec![0.0f32; seq];
    for t in 0..seq {
        for head in 0..cfg.heads {
            let kv = head / n_rep;
            // Rope'd query row for (t, head).
            let mut qr = vec![0.0f32; dh];
            native_rope_apply(
                &q[(t * h + head * dh)..(t * h + (head + 1) * dh)],
                &cos[t],
                &sin[t],
                &mut qr,
            );
            // Scores against positions 0..=t.
            let mut max = f32::NEG_INFINITY;
            for i in 0..=t {
                let mut kr = vec![0.0f32; dh];
                native_rope_apply(
                    &k[(i * cfg.kv_heads * dh + kv * dh)..(i * cfg.kv_heads * dh + (kv + 1) * dh)],
                    &cos[i],
                    &sin[i],
                    &mut kr,
                );
                let dot: f32 = qr.iter().zip(kr.iter()).map(|(a, b)| a * b).sum();
                scores[i] = dot * scale;
                max = max.max(scores[i]);
            }
            let mut denom = 0.0f32;
            for i in 0..=t {
                scores[i] = (scores[i] - max).exp();
                denom += scores[i];
            }
            let base = t * h + head * dh;
            for j in 0..dh {
                let mut acc = 0.0f32;
                for i in 0..=t {
                    acc += scores[i] / denom * v[(i * cfg.kv_heads * dh + kv * dh) + j];
                }
                out[base + j] = acc;
            }
        }
    }
    out
}


fn native_attention_backward(
    cfg: &Dims,
    q: &[f32],
    k: &[f32],
    v: &[f32],
    d_attn: &[f32],
    seq: usize,
) -> (Vec<f32>, Vec<f32>, Vec<f32>) {
    let dh = cfg.head_dim();
    let h = cfg.hidden;
    let kv_dim = cfg.kv_heads * dh;
    let (cos, sin) = native_rope_tables(cfg, seq);
    let n_rep = cfg.heads / cfg.kv_heads;
    let scale = 1.0 / (dh as f32).sqrt();
    let mut dq = vec![0.0f32; seq * h];
    let mut dk = vec![0.0f32; seq * kv_dim];
    let mut dv = vec![0.0f32; seq * kv_dim];
    let mut qr = vec![0.0f32; dh];
    let mut kr = vec![0.0f32; dh];
    // Scratch per query: softmax weights, dp = dL/dp.
    let mut p = vec![0.0f32; seq];
    let mut dp = vec![0.0f32; seq];
    for t in 0..seq {
        for head in 0..cfg.heads {
            let kv = head / n_rep;
            native_rope_apply(
                &q[(t * h + head * dh)..(t * h + (head + 1) * dh)],
                &cos[t],
                &sin[t],
                &mut qr,
            );
            // Recompute forward scores + softmax (matches the forward pass).
            let mut max = f32::NEG_INFINITY;
            for i in 0..=t {
                native_rope_apply(
                    &k[(i * kv_dim + kv * dh)..(i * kv_dim + (kv + 1) * dh)],
                    &cos[i],
                    &sin[i],
                    &mut kr,
                );
                let dot: f32 = qr.iter().zip(kr.iter()).map(|(a, b)| a * b).sum();
                p[i] = dot * scale;
                max = max.max(p[i]);
            }
            let mut denom = 0.0f32;
            for i in 0..=t {
                p[i] = (p[i] - max).exp();
                denom += p[i];
            }
            for i in 0..=t {
                p[i] /= denom;
            }
            let do_row = &d_attn[(t * h + head * dh)..(t * h + (head + 1) * dh)];
            let mut dp_dot_p = 0.0f32;
            for i in 0..=t {
                let vrow = &v[(i * kv_dim + kv * dh)..(i * kv_dim + (kv + 1) * dh)];
                dp[i] = do_row.iter().zip(vrow.iter()).map(|(a, b)| a * b).sum();
                dp_dot_p += dp[i] * p[i];
                dv[(i * kv_dim + kv * dh)..(i * kv_dim + (kv + 1) * dh)]
                    .iter_mut()
                    .zip(do_row.iter())
                    .for_each(|(dv_ij, &do_j)| *dv_ij += p[i] * do_j);
            }
            // ds_i = p_i * (dp_i - dp.p); dqr += ds_i * kr_i; dkr_i = ds_i * qr.
            let mut dqr = vec![0.0f32; dh];
            for i in 0..=t {
                let ds = p[i] * (dp[i] - dp_dot_p) * scale;
                native_rope_apply(
                    &k[(i * kv_dim + kv * dh)..(i * kv_dim + (kv + 1) * dh)],
                    &cos[i],
                    &sin[i],
                    &mut kr,
                );
                for j in 0..dh {
                    dqr[j] += ds * kr[j];
                }
                // dk[i,kv] += unrope(ds * qr) (R^T of the forward rotation).
                let dk_base = i * kv_dim + kv * dh;
                for j in 0..dh / 2 {
                    let y0 = ds * qr[j];
                    let y1 = ds * qr[j + dh / 2];
                    dk[dk_base + j] += y0 * cos[i][j] + y1 * sin[i][j];
                    dk[dk_base + j + dh / 2] += -y0 * sin[i][j] + y1 * cos[i][j];
                }
            }
            // dq[t,head] = unrope(dqr).
            let dq_base = t * h + head * dh;
            for j in 0..dh / 2 {
                dq[dq_base + j] += dqr[j] * cos[t][j] + dqr[j + dh / 2] * sin[t][j];
                dq[dq_base + j + dh / 2] += -dqr[j] * sin[t][j] + dqr[j + dh / 2] * cos[t][j];
            }
        }
    }
    (dq, dk, dv)
}


fn native_rope_tables(cfg: &Dims, seq: usize) -> (Vec<Vec<f32>>, Vec<Vec<f32>>) {
    let half = cfg.head_dim() / 2;
    let mut cos = vec![vec![0.0f32; half]; seq];
    let mut sin = vec![vec![0.0f32; half]; seq];
    for pos in 0..seq {
        for i in 0..half {
            let freq = cfg
                .rope_theta
                .powf(-((2 * i) as f32) / cfg.head_dim() as f32);
            let ang = pos as f32 * freq;
            cos[pos][i] = ang.cos();
            sin[pos][i] = ang.sin();
        }
    }
    (cos, sin)
}


fn native_rope_apply(x: &[f32], cos: &[f32], sin: &[f32], out: &mut [f32]) {
    let half = cos.len();
    for i in 0..half {
        out[i] = x[i] * cos[i] - x[i + half] * sin[i];
        out[i + half] = x[i + half] * cos[i] + x[i] * sin[i];
    }
}


fn native_softmax_cross_entropy(
    logits: &[f32],
    targets: &[u32],
    seq: usize,
    vocab: usize,
) -> (f32, Vec<f32>) {
    let mut loss = 0.0f32;
    let mut dlogits = vec![0.0f32; seq * vocab];
    for t in 0..seq {
        let row = &logits[t * vocab..(t + 1) * vocab];
        let max = row.iter().fold(f32::NEG_INFINITY, |a, &b| a.max(b));
        let mut sum = 0.0f32;
        for (d, &v) in dlogits[t * vocab..(t + 1) * vocab]
            .iter_mut()
            .zip(row.iter())
        {
            let e = (v - max).exp();
            *d = e;
            sum += e;
        }
        loss -= (row[targets[t] as usize] - max - sum.ln()) / seq as f32;
        for d in dlogits[t * vocab..(t + 1) * vocab].iter_mut() {
            *d = *d / sum / seq as f32;
        }
        dlogits[t * vocab + targets[t] as usize] -= 1.0 / seq as f32;
    }
    (loss, dlogits)
}


fn tiny_cfg() -> LlamaConfig {
    LlamaConfig {
        hidden: 16,
        layers: 2,
        heads: 4,
        kv_heads: 2,
        intermediate: 32,
        vocab: 48,
        rms_eps: 1e-5f32.to_bits(),
        rope_theta: 10000.0f32.to_bits(),
    }
}

fn native_lcg(state: &mut u64) -> f32 {
    let mut x = *state;
    x ^= x >> 12;
    x ^= x << 25;
    x ^= x >> 27;
    *state = x;
    ((x.wrapping_mul(0x2545F4914F6CDD1D) >> 11) as f64 / (u64::MAX >> 11) as f64 * 2.0 - 1.0) as f32
}

#[test]
fn rope_rotate_half_known_answer() {
    // d=4, theta s.t. freq[0]=1, freq[1]=theta^-0.5... use theta=1: all freqs 1.
    let cfg = LlamaConfig {
        rope_theta: 1.0f32.to_bits(),
        ..LlamaConfig::smollm_135m()
    };
    let (cos, sin) = tables(&cfg, 2);
    // pos 0: identity.
    assert_eq!(floats(&cos[0]), vec![1.0; 32]);
    assert_eq!(floats(&sin[0]), vec![0.0; 32]);
    let mut out = bits(&vec![0.0f32; 64]);
    let x: Vec<f32> = (0..64).map(|i| i as f32).collect();
    rope_apply(&bits(&x), &cos[1], &sin[1], &mut out);
    let out = floats(&out);
    // cos(1)=0.5403, sin(1)=0.8415 for every pair.
    assert!((out[0] - (0.0 * 0.5403 - 32.0 * 0.8415)).abs() < 1e-3);
    assert!((out[32] - (32.0 * 0.5403 + 0.0 * 0.8415)).abs() < 1e-3);
}

#[test]
fn rmsnorm_known_answer() {
    let mut x = bits(&[1.0f32, 2.0, 3.0, 4.0]);
    rmsnorm_in_place(&mut x, &bits(&[1.0; 4]), 0.0f32.to_bits());
    let x = floats(&x);
    let rms = (30.0f32 / 4.0).sqrt();
    assert!((x[0] - 1.0 / rms).abs() < 1e-6);
    assert!((x[3] - 4.0 / rms).abs() < 1e-6);
}

#[derive(Clone)]
struct RawLayer {
    attn_norm: Vec<f32>,
    q: Vec<f32>,
    k: Vec<f32>,
    v: Vec<f32>,
    o: Vec<f32>,
    mlp_norm: Vec<f32>,
    gate: Vec<f32>,
    up: Vec<f32>,
    down: Vec<f32>,
}

#[derive(Clone)]
struct Tiny {
    cfg: LlamaConfig,
    embed: Vec<f32>,
    layers_raw: Vec<RawLayer>,
    final_norm: Vec<f32>,
    a_vals: HashMap<(usize, ProjKind), Vec<f32>>,
    b_vals: HashMap<(usize, ProjKind), Vec<f32>>,
}

const IDS: [u32; 4] = [1, 7, 3, 40];
const RANK: usize = 2;

impl Tiny {
    fn fresh() -> Self {
        let cfg = tiny_cfg();
        let mut rng = 0xABCD_EF01_2345_6789u64;
        let mut rv =
            |n: usize, s: f32| -> Vec<f32> { (0..n).map(|_| native_lcg(&mut rng) * s).collect() };
        let h = cfg.hidden;
        let kv = cfg.kv_heads * (h / cfg.heads);
        let mut layers_raw = Vec::new();
        for _ in 0..cfg.layers {
            layers_raw.push(RawLayer {
                attn_norm: rv(h, 0.2).iter().map(|v| v + 1.0).collect(),
                q: rv(h * h, 0.2),
                k: rv(kv * h, 0.2),
                v: rv(kv * h, 0.2),
                o: rv(h * h, 0.2),
                mlp_norm: rv(h, 0.1).iter().map(|v| v + 1.0).collect(),
                gate: rv(cfg.intermediate * h, 0.2),
                up: rv(cfg.intermediate * h, 0.2),
                down: rv(h * cfg.intermediate, 0.2),
            });
        }
        let mut a_vals = HashMap::new();
        let mut b_vals = HashMap::new();
        for l in 0..cfg.layers {
            for (kind, out_dim) in [(ProjKind::Q, h), (ProjKind::V, kv)] {
                a_vals.insert((l, kind), rv(RANK * h, 0.1));
                b_vals.insert((l, kind), rv(out_dim * RANK, 0.1));
            }
        }
        Self {
            embed: rv(cfg.vocab * h, 0.2),
            final_norm: rv(h, 0.1).iter().map(|v| v + 1.0).collect(),
            layers_raw,
            a_vals,
            b_vals,
            cfg,
        }
    }

    fn build(&self) -> LlamaModel {
        let cfg = &self.cfg;
        let quant = QuantConfig {
            block_size: 64,
            double_quant: false,
        };
        let h = cfg.hidden;
        let kv = cfg.kv_heads * (h / cfg.heads);
        let layers = self
            .layers_raw
            .iter()
            .enumerate()
            .map(|(l, raw)| {
                let qlora = |kind: ProjKind, w: &[f32], out_dim: usize, in_dim: usize| -> Proj {
                    let ad = LoraAdapter::new(
                        &bits(&self.a_vals[&(l, kind)]),
                        &bits(&self.b_vals[&(l, kind)]),
                        in_dim,
                        out_dim,
                        RANK,
                        4.0f32.to_bits(),
                    )
                    .unwrap();
                    Proj::Qlora(
                        QloraLinear::new(&bits(w), out_dim, in_dim, &quant, Some(ad)).unwrap(),
                    )
                };
                LayerWeights {
                    attn_norm: bits(&raw.attn_norm),
                    q: qlora(ProjKind::Q, &raw.q, h, h),
                    k: Proj::Raw(bits(&raw.k)),
                    v: qlora(ProjKind::V, &raw.v, kv, h),
                    o: Proj::Raw(bits(&raw.o)),
                    mlp_norm: bits(&raw.mlp_norm),
                    gate: Proj::Raw(bits(&raw.gate)),
                    up: Proj::Raw(bits(&raw.up)),
                    down: Proj::Raw(bits(&raw.down)),
                }
            })
            .collect();
        LlamaModel {
            cfg: cfg.clone(),
            embed: bits(&self.embed),
            layers,
            final_norm: bits(&self.final_norm),
        }
    }

    fn loss(&self) -> f32 {
        forward(&self.build(), &IDS).iter().sum()
    }

    fn fd(&self, layer: usize, kind: ProjKind, is_a: bool, idx: usize) -> f32 {
        let eps = 1e-3f32;
        let mut plus = self.clone();
        let mut minus = self.clone();
        let slot_p = if is_a {
            plus.a_vals.get_mut(&(layer, kind)).unwrap()
        } else {
            plus.b_vals.get_mut(&(layer, kind)).unwrap()
        };
        slot_p[idx] += eps;
        let slot_m = if is_a {
            minus.a_vals.get_mut(&(layer, kind)).unwrap()
        } else {
            minus.b_vals.get_mut(&(layer, kind)).unwrap()
        };
        slot_m[idx] -= eps;
        (plus.loss() - minus.loss()) / (2.0 * eps)
    }
}

#[test]
fn model_backward_matches_finite_differences() {
    let tiny = Tiny::fresh();
    let cfg = tiny_cfg();
    let dy = vec![1.0f32; IDS.len() * cfg.vocab];
    let model = tiny.build();
    let grads: Vec<AdapterGrad> = backward(&model, &IDS, &dy);
    assert_eq!(grads.len(), cfg.layers * 2); // Q and V per layer

    for g in &grads {
        for (i, &v) in floats(&g.grad_a).iter().enumerate() {
            let want = tiny.fd(g.layer, g.kind, true, i);
            assert!(
                (v - want).abs() < 2e-2,
                "L{} {:?} dA[{i}]: {v} vs {want}",
                g.layer,
                g.kind
            );
        }
        for (i, &v) in floats(&g.grad_b).iter().enumerate() {
            let want = tiny.fd(g.layer, g.kind, false, i);
            assert!(
                (v - want).abs() < 2e-2,
                "L{} {:?} dB[{i}]: {v} vs {want}",
                g.layer,
                g.kind
            );
        }
    }
}

#[test]
fn gradients_come_last_layer_first_and_only_for_adapters() {
    let model = Tiny::fresh().build();
    let dy = vec![0.5f32; IDS.len() * model.cfg.vocab];
    let grads = backward(&model, &IDS, &dy);
    let places: Vec<(usize, ProjKind)> = grads.iter().map(|g| (g.layer, g.kind)).collect();
    assert_eq!(
        places,
        vec![(1, ProjKind::Q), (1, ProjKind::V), (0, ProjKind::Q), (0, ProjKind::V)]
    );
    for g in &grads {
        let (a, b) = model.adapter_ab(g.layer, g.kind).unwrap();
        assert_eq!((g.grad_a.len(), g.grad_b.len()), (a.len(), b.len()));
    }
}

#[test]
fn logits_have_a_row_per_token() {
    let model = Tiny::fresh().build();
    assert_eq!(forward(&model, &IDS).len(), IDS.len() * model.cfg.vocab);
    assert!(forward(&model, &[]).is_empty());
}

#[test]
fn passes_rotate_as_the_settings_say() {
    let mut model = Tiny::fresh().build();
    let before = forward(&model, &IDS);
    let (cos, sin) = tables(&model.cfg, IDS.len());
    let given = Tables { cos: &cos, sin: &sin };
    assert_eq!(bits(&before), model.forward(&IDS, &given, &exp));
    let d = bits(&vec![0.5; before.len()]);
    let (a, b) = (model.backward(&IDS, &d, &given, &exp), backward(&model, &IDS, &floats(&d)));
    assert_eq!(a.len(), b.len());
    for (x, y) in a.iter().zip(&b) {
        assert_eq!((&x.grad_a, &x.grad_b), (&y.grad_a, &y.grad_b));
    }
    // Another base frequency rotates otherwise.
    model.cfg.rope_theta = 10.0f32.to_bits();
    assert_ne!(before, forward(&model, &IDS));
    // Without layers no rotation is needed.
    model.layers.clear();
    model.cfg.heads = 0;
    assert_eq!(forward(&model, &IDS).len(), before.len());
}

#[test]
fn missing_tensors_come_before_sizes() {
    let cfg = tiny_cfg();
    let huge = AdapterConfig::qv(usize::MAX, 1.0f32.to_bits());
    let e = LlamaModel::from_tensors(&[], &cfg, &huge, 1).unwrap_err();
    assert_eq!(e.message(), "load: missing tensor model.layers.0.input_layernorm.weight");
    let broken = LlamaConfig { heads: 0, ..cfg };
    assert!(LlamaModel::load(&[1, 2, 3], &broken, &huge).is_err());
}

#[test]
fn later_tokens_do_not_change_earlier_logits() {
    let model = Tiny::fresh().build();
    let long = forward(&model, &IDS);
    let short = forward(&model, &IDS[..3]);
    assert_eq!(bits(&long[..3 * 48]), bits(&short));
    let other = forward(&model, &[1, 7, 3, 2]);
    assert_eq!(bits(&long[..3 * 48]), bits(&other[..3 * 48]));
    assert_ne!(long[3 * 48..], other[3 * 48..]);
}

fn numbers(n: usize, seed: u64) -> Vec<f32> {
    let mut s = seed;
    (0..n).map(|_| native_lcg(&mut s)).collect()
}

#[test]
fn draws_match_native_arithmetic() {
    let mut a = 0x1234_5678_9ABC_DEF0u64;
    let mut b = a;
    for _ in 0..2000 {
        assert_eq!(lcg(&mut a), native_lcg(&mut b).to_bits());
        assert_eq!(a, b);
    }
    let mut zero = 0u64;
    assert_eq!(f32::from_bits(lcg(&mut zero)), -1.0);
}

#[test]
fn norms_match_native_arithmetic() {
    let (x, w, dy) = (numbers(24, 1), numbers(8, 2), numbers(24, 3));
    let eps = 1e-5f32;
    let mut want = x.clone();
    native_rmsnorm_in_place(&mut want, &w, eps);
    let mut got = bits(&x);
    rmsnorm_in_place(&mut got, &bits(&w), eps.to_bits());
    assert_eq!(got, bits(&want));
    let (dx, dw) = native_rmsnorm_backward(&x, &w, &dy, eps);
    let (gx, gw) = rmsnorm_backward(&bits(&x), &bits(&w), &bits(&dy), eps.to_bits());
    assert_eq!((gx, gw), (bits(&dx), bits(&dw)));
}

#[test]
fn attention_matches_native_arithmetic() {
    // Even and odd head sizes, with columns that no head covers.
    for hidden in [16usize, 23] {
        let cfg = LlamaConfig { hidden, ..tiny_cfg() };
        let dims = Dims::of(&cfg);
        let (seq, kv) = (5, cfg.kv_heads * cfg.head_dim());
        let (q, k, v) = (numbers(seq * hidden, 4), numbers(seq * kv, 5), numbers(seq * kv, 6));
        let d = numbers(seq * hidden, 7);
        let (cos, sin) = tables(&cfg, seq);
        let (ncos, _) = native_rope_tables(&dims, seq);
        assert_eq!(cos, ncos.iter().map(|r| bits(r)).collect::<Vec<_>>());
        let (bq, bk, bv) = (bits(&q), bits(&k), bits(&v));
        let a = Attention { cfg: &cfg, seq, q: &bq, k: &bk, v: &bv, cos: &cos, sin: &sin };
        let (out, exps) = attention(&a, &exp);
        assert_eq!(exps.len(), seq * cfg.heads);
        assert_eq!(out, bits(&native_attention(&dims, &q, &k, &v, seq)));
        let (dq, dk, dv) = attention_backward(&a, &exps, &bits(&d));
        let (nq, nk, nv) = native_attention_backward(&dims, &q, &k, &v, &d, seq);
        assert_eq!((dq, dk, dv), (bits(&nq), bits(&nk), bits(&nv)));
        let (bq, bk, bv) = (bits(&q), bits(&k), bits(&v));
        let own = attention_with(&cfg, &bq, &bk, &bv, seq, &powf, &cosine, &sine, &exp);
        assert_eq!(own, bits(&native_attention(&dims, &q, &k, &v, seq)));
        let own = attention_backward_with(&cfg, &bq, &bk, &bv, &bits(&d), seq, &powf, &cosine, &sine, &exp);
        assert_eq!(own, (bits(&nq), bits(&nk), bits(&nv)));
    }
}

#[test]
fn loss_matches_native_arithmetic() {
    let logits = numbers(3 * 7, 11);
    let targets = [6u32, 0, 3];
    let (want, dwant) = native_softmax_cross_entropy(&logits, &targets, 3, 7);
    let (loss, dlogits) = softmax_cross_entropy(&bits(&logits), &targets, 3, 7, &exp, &ln);
    assert_eq!(loss, want.to_bits());
    assert_eq!(dlogits, bits(&dwant));
    // Equal logits: ln(vocab), and gradients that add up to nothing.
    let (loss, d) = softmax_cross_entropy(&bits(&[2.0; 4]), &[1], 1, 4, &exp, &ln);
    assert!((f32::from_bits(loss) - 4.0f32.ln()).abs() < 1e-6);
    assert_eq!(floats(&d), vec![0.25, -0.75, 0.25, 0.25]);
}

/// The tensors of a tiny model, as a file would hold them.
fn tensors(cfg: &LlamaConfig) -> Vec<NamedArray> {
    let (h, i, kv) = (cfg.hidden, cfg.intermediate, cfg.kv_heads * cfg.head_dim());
    let mut seed = 1;
    let mut t = |name: String, shape: Vec<usize>| -> NamedArray {
        seed += 1;
        let n = shape.iter().product();
        NamedArray { name, shape, data: bits(&numbers(n, seed)) }
    };
    let mut ts = vec![
        t("model.embed_tokens.weight".to_string(), vec![cfg.vocab, h]),
        t("model.norm.weight".to_string(), vec![h]),
    ];
    for l in 0..cfg.layers {
        let p = format!("model.layers.{l}");
        ts.push(t(format!("{p}.input_layernorm.weight"), vec![h]));
        ts.push(t(format!("{p}.self_attn.q_proj.weight"), vec![h, h]));
        ts.push(t(format!("{p}.self_attn.k_proj.weight"), vec![kv, h]));
        ts.push(t(format!("{p}.self_attn.v_proj.weight"), vec![kv, h]));
        ts.push(t(format!("{p}.self_attn.o_proj.weight"), vec![h, h]));
        ts.push(t(format!("{p}.post_attention_layernorm.weight"), vec![h]));
        ts.push(t(format!("{p}.mlp.gate_proj.weight"), vec![i, h]));
        ts.push(t(format!("{p}.mlp.up_proj.weight"), vec![i, h]));
        ts.push(t(format!("{p}.mlp.down_proj.weight"), vec![h, i]));
    }
    ts
}

#[test]
fn loading_wraps_the_targets() {
    let cfg = tiny_cfg();
    let m = LlamaModel::from_tensors(&tensors(&cfg), &cfg, &AdapterConfig::qv(3, 6.0f32.to_bits()), 99).unwrap();
    let mut rng = 99u64;
    for l in 0..cfg.layers {
        for kind in [ProjKind::Q, ProjKind::V] {
            let (a, b) = m.adapter_ab(l, kind).unwrap();
            let want: Vec<f32> = (0..3 * 16).map(|_| native_lcg(&mut rng) * 0.02).collect();
            assert_eq!(a, bits(&want));
            assert!(b.iter().all(|x| *x == 0));
        }
        for kind in [ProjKind::K, ProjKind::O, ProjKind::Gate, ProjKind::Up, ProjKind::Down] {
            assert!(m.adapter_ab(l, kind).is_none());
        }
    }
    assert!(m.adapter_ab(9, ProjKind::Q).is_none());
    let plain = LlamaModel::from_tensors(&tensors(&cfg), &cfg, &AdapterConfig::none(), 0).unwrap();
    assert!(plain.adapter_ab(0, ProjKind::Q).is_none());
    assert_eq!(forward(&plain, &IDS).len(), IDS.len() * cfg.vocab);
}

#[test]
fn a_zero_adapter_leaves_the_quantized_forward() {
    let cfg = tiny_cfg();
    let fresh = LlamaModel::from_tensors(&tensors(&cfg), &cfg, &AdapterConfig::qv(3, 6.0f32.to_bits()), 1).unwrap();
    let other = LlamaModel::from_tensors(&tensors(&cfg), &cfg, &AdapterConfig::qv(3, 6.0f32.to_bits()), 2).unwrap();
    assert_eq!(forward(&fresh, &IDS), forward(&other, &IDS));
}

#[test]
fn loading_reports_what_is_missing_or_misshapen() {
    let cfg = tiny_cfg();
    let load = |ts: &[NamedArray], ad: &AdapterConfig| match LlamaModel::from_tensors(ts, &cfg, ad, 1) {
        Ok(_) => String::new(),
        Err(e) => e.message(),
    };
    let none = AdapterConfig::none();
    let mut ts = tensors(&cfg);
    ts.remove(4);
    assert_eq!(load(&ts, &none), "load: missing tensor model.layers.0.self_attn.k_proj.weight");
    let mut ts = tensors(&cfg);
    ts[3].shape = vec![16, 4, 4];
    assert_eq!(
        load(&ts, &none),
        "load: model.layers.0.self_attn.q_proj.weight: shape [16, 4, 4] != [16, 16]"
    );
    let mut ts = tensors(&cfg);
    ts[1].shape = vec![];
    assert_eq!(load(&ts, &none), "load: model.norm.weight: shape [] != [16]");
    assert_eq!(
        load(&tensors(&cfg), &AdapterConfig::qv(0, 0)),
        "load: adapter Q: invalid config: rank r must be > 0"
    );
    let mut ad = AdapterConfig::qv(2, 0);
    ad.quant.block_size = 0;
    assert_eq!(
        load(&tensors(&cfg), &ad),
        "load: quantize Q: invalid config: block_size must be > 0"
    );
    assert_eq!(
        LlamaModel::load(&[], &cfg, &none).unwrap_err(),
        LoadError("malformed input: file smaller than safetensors header".to_string())
    );
}

#[test]
fn models_load_from_files() {
    let cfg = LlamaConfig { layers: 1, vocab: 3, ..tiny_cfg() };
    let ts = tensors(&cfg);
    let mut header = String::from("{");
    let mut data: Vec<u8> = Vec::new();
    for (i, t) in ts.iter().enumerate() {
        let start = data.len();
        data.extend(t.data.iter().flat_map(|x| x.to_le_bytes()));
        let shape: Vec<String> = t.shape.iter().map(|d| d.to_string()).collect();
        header.push_str(&format!(
            "{}\"{}\":{{\"dtype\":\"F32\",\"shape\":[{}],\"data_offsets\":[{},{}]}}",
            if i == 0 { "" } else { "," },
            t.name,
            shape.join(","),
            start,
            data.len()
        ));
    }
    header.push('}');
    let mut file = (header.len() as u64).to_le_bytes().to_vec();
    file.extend_from_slice(header.as_bytes());
    file.extend_from_slice(&data);
    let m = LlamaModel::load(&file, &cfg, &AdapterConfig::none()).unwrap();
    let direct = LlamaModel::from_tensors(&ts, &cfg, &AdapterConfig::none(), 5).unwrap();
    assert_eq!(forward(&m, &[0, 2, 1]), forward(&direct, &[0, 2, 1]));
}

#[test]
fn adapters_are_written_and_read_back() {
    let cfg = tiny_cfg();
    let mut m = LlamaModel::from_tensors(&tensors(&cfg), &cfg, &AdapterConfig::qv(2, 4.0f32.to_bits()), 1).unwrap();
    let before = m.adapter_ab(0, ProjKind::V).unwrap();
    let (a, b) = (bits(&numbers(32, 8)), bits(&numbers(32, 9)));
    m.set_adapter_weights(1, ProjKind::Q, &a, &b).unwrap();
    assert_eq!(m.adapter_ab(1, ProjKind::Q).unwrap(), (a.clone(), b.clone()));
    assert_eq!(m.adapter_ab(0, ProjKind::V).unwrap(), before);
    let message = |r: Result<(), LoadError>| r.unwrap_err().message();
    assert_eq!(message(m.set_adapter_weights(2, ProjKind::Q, &a, &b)), "load: no layer 2");
    assert_eq!(message(m.set_adapter_weights(1, ProjKind::Up, &a, &b)), "load: layer 1 Up has no adapter");
    assert_eq!(
        message(m.set_adapter_weights(1, ProjKind::Q, &a[1..], &b)),
        "load: shape mismatch: set_weights: got (31, 32), expected (32, 32)"
    );
    assert_eq!(m.adapter_ab(1, ProjKind::Q).unwrap(), (a, b));
}

#[test]
fn known_settings() {
    let c = LlamaConfig::smollm_135m();
    assert_eq!(
        (c.hidden, c.layers, c.heads, c.kv_heads, c.intermediate, c.vocab),
        (576, 30, 9, 3, 1536, 49152)
    );
    assert_eq!((f32::from_bits(c.rms_eps), f32::from_bits(c.rope_theta)), (1e-5, 10000.0));
    assert_eq!(c.head_dim(), 64);
    let none = AdapterConfig::none();
    assert!(none.targets.is_empty());
    assert_eq!((none.rank, f32::from_bits(none.alpha)), (8, 16.0));
    assert_eq!(AdapterConfig::qv(8, 0).targets, vec![ProjKind::Q, ProjKind::V]);
}

#[test]
fn training_lowers_the_loss() {
    let cfg = tiny_cfg();
    let mut m = LlamaModel::from_tensors(&tensors(&cfg), &cfg, &AdapterConfig::qv(4, 8.0f32.to_bits()), 3).unwrap();
    let mut opt = qlora::Adam8bit::new(qlora::AdamConfig {
        lr: 0.02f32.to_bits(),
        max_resident_pages: 2,
        ..Default::default()
    })
    .unwrap();
    let (input, targets) = (&IDS[..3], &IDS[1..]);
    let mut losses: Vec<f32> = Vec::new();
    for _ in 0..8 {
        let logits = bits(&forward(&m, input));
        let (loss, dlogits) = softmax_cross_entropy(&logits, targets, 3, cfg.vocab, &exp, &ln);
        losses.push(f32::from_bits(loss));
        let grads = backward(&m, input, &floats(&dlogits));
        let (mut params, gs) = m.parameters(&grads).unwrap();
        let powers: Vec<(u32, u32)> = opt
            .next_steps(&params)
            .iter()
            .map(|&t| (0.9f32.powf(t as f32).to_bits(), 0.999f32.powf(t as f32).to_bits()))
            .collect();
        opt.step(&mut params, &gs, &powers).unwrap();
        m.write_back(&grads, &params).unwrap();
    }
    assert!(losses[7] < losses[0], "{losses:?}");
}

#[test]
fn parameters_pair_with_their_gradients() {
    let cfg = tiny_cfg();
    let mut m = LlamaModel::from_tensors(&tensors(&cfg), &cfg, &AdapterConfig::qv(2, 4.0f32.to_bits()), 3).unwrap();
    let grads = backward(&m, &IDS, &vec![0.1; IDS.len() * cfg.vocab]);
    let (params, gs) = m.parameters(&grads).unwrap();
    assert_eq!((params.len(), gs.len()), (8, 8));
    for (i, g) in grads.iter().enumerate() {
        let (a, b) = m.adapter_ab(g.layer, g.kind).unwrap();
        assert_eq!((&params[2 * i], &params[2 * i + 1]), (&a, &b));
        assert_eq!((&gs[2 * i], &gs[2 * i + 1]), (&g.grad_a, &g.grad_b));
    }
    m.write_back(&grads, &gs).unwrap();
    assert_eq!(m.adapter_ab(1, ProjKind::Q).unwrap(), (gs[0].clone(), gs[1].clone()));
    // A gradient without an adapter.
    let mut stray = grads;
    stray[1].kind = ProjKind::Up;
    assert!(m.parameters(&stray).is_none());
    assert_eq!(m.write_back(&stray, &params).unwrap_err().message(), "load: layer 1 Up has no adapter");
    // The adapter before it has been written.
    assert_eq!(m.adapter_ab(1, ProjKind::Q).unwrap(), (params[0].clone(), params[1].clone()));
}
