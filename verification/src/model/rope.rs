//! Rotary position embedding.
use crate::lora;
use crate::model::config::LlamaConfig;
use crate::single;
use vstd::prelude::*;

verus! {

/// Element `j` of a rotated vector: `x * cos + rotate_half(x) * sin` with
/// `rotate_half(x) = cat(-x2, x1)`.
#[verifier::opaque]
pub open spec fn rotated_at(x: Seq<u32>, cos: Seq<u32>, sin: Seq<u32>, j: int) -> u32 {
    let half = cos.len() as int;
    if j < half {
        single::difference(
            single::product(x[j], cos[j]),
            single::product(x[j + half], sin[j]),
        )
    } else {
        single::sum(
            single::product(x[j], cos[j - half]),
            single::product(x[j - half], sin[j - half]),
        )
    }
}

/// A vector rotated into `out`: what lies behind the two halves stays.
pub open spec fn rotated_into(x: Seq<u32>, cos: Seq<u32>, sin: Seq<u32>, out: Seq<u32>) -> Seq<
    u32,
> {
    Seq::new(
        out.len(),
        |j: int|
            if j < 2 * cos.len() {
                rotated_at(x, cos, sin, j)
            } else {
                out[j]
            },
    )
}

/// A rotated vector.
pub open spec fn rotated(x: Seq<u32>, cos: Seq<u32>, sin: Seq<u32>) -> Seq<u32> {
    rotated_into(x, cos, sin, Seq::new(x.len(), |j: int| 0u32))
}

/// Element `j` of a vector turned back: the transpose of the rotation.
#[verifier::opaque]
pub open spec fn unrotated_at(y: Seq<u32>, cos: Seq<u32>, sin: Seq<u32>, j: int) -> u32 {
    let half = cos.len() as int;
    if j < half {
        single::sum(single::product(y[j], cos[j]), single::product(y[j + half], sin[j]))
    } else {
        single::sum(
            single::product(single::negation(y[j - half]), sin[j - half]),
            single::product(y[j], cos[j - half]),
        )
    }
}

/// HF-style RoPE: `out = x * cos + rotate_half(x) * sin` with
/// `rotate_half(x) = cat(-x2, x1)`.
pub fn rope_apply(x: &[u32], cos: &[u32], sin: &[u32], out: &mut Vec<u32>)
    requires
        2 * cos@.len() <= x@.len(),
        2 * cos@.len() <= old(out)@.len(),
        cos@.len() <= sin@.len(),
    ensures
        final(out)@ == rotated_into(x@, cos@, sin@, old(out)@),
{
    let half: usize = cos.len();
    let (lx, lo): (usize, usize) = (x.len(), out.len());
    let ghost out0 = out@;
    let mut i: usize = 0;
    while i < half
        invariant
            half == cos@.len(),
            half <= sin@.len(),
            2 * half <= lx == x@.len(),
            2 * half <= lo == out@.len() == out0.len(),
            i <= half,
            forall|j: int| 0 <= j < i ==> #[trigger] out@[j] == rotated_at(x@, cos@, sin@, j),
            forall|j: int|
                half <= j < half + i ==> #[trigger] out@[j] == rotated_at(x@, cos@, sin@, j),
            forall|j: int| 2 * half <= j < out@.len() ==> #[trigger] out@[j] == out0[j],
        decreases half - i,
    {
        proof {
            reveal(rotated_at);
        }
        let a: u32 = single::minus(
            single::times(x[i], cos[i]),
            single::times(x[i + half], sin[i]),
        );
        let b: u32 = single::plus(
            single::times(x[i + half], cos[i]),
            single::times(x[i], sin[i]),
        );
        out.set(i, a);
        out.set(i + half, b);
        i = i + 1;
    }
    assert(out@ =~= rotated_into(x@, cos@, sin@, out0));
}

/// Adds a vector, turned back, to the elements of `out` from `base` on.
pub fn add_unrotated(out: &mut Vec<u32>, base: usize, y: &[u32], cos: &[u32], sin: &[u32])
    requires
        2 * cos@.len() <= y@.len(),
        base + y@.len() <= old(out)@.len(),
        cos@.len() <= sin@.len(),
    ensures
        final(out)@ == Seq::new(
            old(out)@.len(),
            |c: int|
                if base <= c < base + 2 * cos@.len() {
                    single::sum(old(out)@[c], unrotated_at(y@, cos@, sin@, c - base))
                } else {
                    old(out)@[c]
                },
        ),
{
    let half: usize = cos.len();
    let (ly, lo): (usize, usize) = (y.len(), out.len());
    let ghost out0 = out@;
    let mut i: usize = 0;
    while i < half
        invariant
            half == cos@.len(),
            half <= sin@.len(),
            2 * half <= ly == y@.len(),
            base + ly <= lo == out@.len() == out0.len(),
            i <= half,
            forall|c: int|
                0 <= c < out@.len() ==> #[trigger] out@[c] == (if base <= c < base + i || base
                    + half <= c < base + half + i {
                    single::sum(out0[c], unrotated_at(y@, cos@, sin@, c - base))
                } else {
                    out0[c]
                }),
        decreases half - i,
    {
        proof {
            reveal(unrotated_at);
        }
        let a: u32 = single::plus(
            single::times(y[i], cos[i]),
            single::times(y[i + half], sin[i]),
        );
        let b: u32 = single::plus(
            single::times(single::negate(y[i]), sin[i]),
            single::times(y[i + half], cos[i]),
        );
        let p: u32 = single::plus(out[base + i], a);
        out.set(base + i, p);
        let q: u32 = single::plus(out[base + i + half], b);
        out.set(base + i + half, q);
        i = i + 1;
    }
    assert(out@ =~= Seq::new(
        out0.len(),
        |c: int|
            if base <= c < base + 2 * cos@.len() {
                single::sum(out0[c], unrotated_at(y@, cos@, sin@, c - base))
            } else {
                out0[c]
            },
    ));
}

/// The exponent of the base frequency for pair `i`: `-(2 i) / head_dim`.
pub open spec fn frequency_power(cfg: LlamaConfig, i: int) -> u32 {
    single::quotient(
        single::negation(single::of_integer(2 * i)),
        single::of_integer(cfg.head_size()),
    )
}

/// The angle of a pair with frequency `freq` at a position.
pub open spec fn angle(pos: int, freq: u32) -> u32 {
    single::product(single::of_integer(pos), freq)
}

/// Whether `c` and `s` are what `powf`, `cos` and `sin` give for pair `i` at
/// position `pos`.
pub open spec fn is_entry<P: Fn(u32, u32) -> u32, C: Fn(u32) -> u32, S: Fn(u32) -> u32>(
    cfg: LlamaConfig,
    powf: P,
    cosine: C,
    sine: S,
    pos: int,
    i: int,
    c: u32,
    s: u32,
) -> bool {
    exists|freq: u32|
        {
            &&& #[trigger] call_ensures(powf, (cfg.rope_theta, frequency_power(cfg, i)), freq)
            &&& call_ensures(cosine, (angle(pos, freq),), c)
            &&& call_ensures(sine, (angle(pos, freq),), s)
        }
}

/// Whether these are the tables that `powf`, `cosine` and `sine` give for
/// `seq` positions: one `(dh/2)`-vector each per position.
pub open spec fn is_built<P: Fn(u32, u32) -> u32, C: Fn(u32) -> u32, S: Fn(u32) -> u32>(
    cfg: LlamaConfig,
    powf: P,
    cosine: C,
    sine: S,
    seq: int,
    cos: Seq<Seq<u32>>,
    sin: Seq<Seq<u32>>,
) -> bool {
    &&& cos.len() == seq
    &&& sin.len() == seq
    &&& forall|p: int|
        0 <= p < seq ==> (#[trigger] cos[p]).len() == cfg.head_size() / 2
    &&& forall|p: int|
        0 <= p < seq ==> (#[trigger] sin[p]).len() == cfg.head_size() / 2
    &&& forall|p: int, i: int|
        0 <= p < seq && 0 <= i < cfg.head_size() / 2 ==> is_entry(
            cfg,
            powf,
            cosine,
            sine,
            p,
            i,
            #[trigger] cos[p][i],
            sin[p][i],
        )
}

/// RoPE cos/sin tables, one `(dh/2)`-vector per position.
///
/// `powf`, `cosine` and `sine` work on binary32 bit patterns.
pub fn rope_tables<P: Fn(u32, u32) -> u32, C: Fn(u32) -> u32, S: Fn(u32) -> u32>(
    cfg: &LlamaConfig,
    seq: usize,
    powf: &P,
    cosine: &C,
    sine: &S,
) -> (r: (Vec<Vec<u32>>, Vec<Vec<u32>>))
    requires
        cfg.heads > 0,
        forall|x: u32, y: u32| #[trigger] powf.requires((x, y)),
        forall|x: u32| #[trigger] cosine.requires((x,)),
        forall|x: u32| #[trigger] sine.requires((x,)),
    ensures
        is_built(*cfg, *powf, *cosine, *sine, seq as int, lora::lists(r.0@), lora::lists(r.1@)),
{
    let dh: usize = cfg.head_dim();
    let half: usize = dh / 2;
    let width: u32 = single::from_u64(dh as u64);
    let mut cos: Vec<Vec<u32>> = Vec::new();
    let mut sin: Vec<Vec<u32>> = Vec::new();
    let mut pos: usize = 0;
    while pos < seq
        invariant
            pos <= seq,
            cfg.heads > 0,
            dh == cfg.head_size(),
            half == dh / 2,
            width == single::of_integer(dh as int),
            forall|x: u32, y: u32| #[trigger] powf.requires((x, y)),
            forall|x: u32| #[trigger] cosine.requires((x,)),
            forall|x: u32| #[trigger] sine.requires((x,)),
            cos@.len() == pos,
            sin@.len() == pos,
            forall|p: int|
                0 <= p < pos ==> (#[trigger] cos@[p])@.len() == half && sin@[p]@.len() == half,
            forall|p: int, i: int|
                0 <= p < pos && 0 <= i < half ==> is_entry(
                    *cfg,
                    *powf,
                    *cosine,
                    *sine,
                    p,
                    i,
                    #[trigger] cos@[p]@[i],
                    sin@[p]@[i],
                ),
        decreases seq - pos,
    {
        let mut c: Vec<u32> = Vec::new();
        let mut s: Vec<u32> = Vec::new();
        let mut i: usize = 0;
        while i < half
            invariant
                i <= half,
                dh == cfg.head_size(),
                half == dh / 2,
                width == single::of_integer(dh as int),
                forall|x: u32, y: u32| #[trigger] powf.requires((x, y)),
                forall|x: u32| #[trigger] cosine.requires((x,)),
                forall|x: u32| #[trigger] sine.requires((x,)),
                c@.len() == i,
                s@.len() == i,
                forall|j: int|
                    0 <= j < i ==> is_entry(
                        *cfg,
                        *powf,
                        *cosine,
                        *sine,
                        pos as int,
                        j,
                        #[trigger] c@[j],
                        s@[j],
                    ),
            decreases half - i,
        {
            let e: u32 = single::over(single::negate(single::from_u64(2 * i as u64)), width);
            assert(e == frequency_power(*cfg, i as int));
            let freq: u32 = powf(cfg.rope_theta, e);
            let ang: u32 = single::times(single::from_u64(pos as u64), freq);
            assert(ang == angle(pos as int, freq));
            let x: u32 = cosine(ang);
            let y: u32 = sine(ang);
            assert(is_entry(*cfg, *powf, *cosine, *sine, pos as int, i as int, x, y));
            c.push(x);
            s.push(y);
            i = i + 1;
        }
        cos.push(c);
        sin.push(s);
        pos = pos + 1;
    }
    proof {
        let (cv, sv) = (lora::lists(cos@), lora::lists(sin@));
        assert forall|p: int| 0 <= p < seq implies (#[trigger] sv[p]).len() == half by {
            assert(pos == seq);
            let row = cos@[p];
            assert(row@.len() == half);
            assert(sin@[p]@.len() == half);
        }
        assert forall|p: int, i: int| 0 <= p < seq && 0 <= i < half implies is_entry(
            *cfg,
            *powf,
            *cosine,
            *sine,
            p,
            i,
            #[trigger] cv[p][i],
            sv[p][i],
        ) by {
            assert(cv[p][i] == cos@[p]@[i]);
        }
    }
    (cos, sin)
}

} // verus!
