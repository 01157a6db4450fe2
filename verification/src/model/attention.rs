//! Causal grouped-query attention with rotary positions, forward and backward.
use crate::ieee;
use crate::lora;
use crate::model::config::LlamaConfig;
use crate::model::rope;
use crate::model::rope::rope_apply;
use crate::model::weights::zeros;
use crate::single;
use vstd::prelude::*;

verus! {

/// The sum of products, from left to right, beginning with negative zero.
pub open spec fn sum_products(a: Seq<u32>, b: Seq<u32>) -> u32
    decreases a.len(),
{
    if a.len() == 0 {
        single::SIGN
    } else {
        single::sum(
            sum_products(a.drop_last(), b.drop_last()),
            single::product(a.last(), b.last()),
        )
    }
}

/// The sum of the elements, from left to right, beginning with zero.
pub open spec fn total(s: Seq<u32>) -> u32
    decreases s.len(),
{
    if s.len() == 0 {
        0
    } else {
        single::sum(total(s.drop_last()), s.last())
    }
}

/// What the exponential `s[i]` weighs among all of `s`.
#[verifier::opaque]
pub open spec fn share(s: Seq<u32>, i: int) -> u32 {
    single::quotient(s[i], total(s))
}

/// Queries, keys, values and rotation tables of one attention.
#[verifier::ext_equal]
pub struct AttentionView {
    pub cfg: LlamaConfig,
    pub seq: int,
    pub q: Seq<u32>,
    pub k: Seq<u32>,
    pub v: Seq<u32>,
    pub cos: Seq<Seq<u32>>,
    pub sin: Seq<Seq<u32>>,
}

impl LlamaConfig {
    /// Whether heads can be grouped as these settings say.
    pub open spec fn grouped(self) -> bool {
        &&& self.heads > 0
        &&& self.kv_heads > 0
        &&& self.heads % self.kv_heads == 0
        &&& self.head_size() > 0
        &&& self.kv_size() <= usize::MAX
    }

    /// The key and value head that a query head reads.
    pub open spec fn kv_of(self, head: int) -> int {
        head / (self.heads as int / self.kv_heads as int)
    }
}

/// Whether there are rotations for `seq` positions of `half` pairs.
pub open spec fn is_table(t: Seq<Seq<u32>>, seq: int, half: int) -> bool {
    &&& t.len() >= seq
    &&& forall|i: int| 0 <= i < seq ==> (#[trigger] t[i]).len() == half
}

impl AttentionView {
    pub open spec fn wf(self) -> bool {
        &&& self.cfg.grouped()
        &&& 0 <= self.seq
        &&& self.q.len() == self.seq * self.cfg.hidden
        &&& self.k.len() == self.seq * self.cfg.kv_size()
        &&& self.v.len() == self.seq * self.cfg.kv_size()
        &&& is_table(self.cos, self.seq, self.cfg.head_size() / 2)
        &&& is_table(self.sin, self.seq, self.cfg.head_size() / 2)
    }

    /// Whether this attention reads `q`, `k` and `v`, and the rotations that
    /// `powf`, `cosine` and `sine` give for the settings.
    pub open spec fn reads<P: Fn(u32, u32) -> u32, C: Fn(u32) -> u32, S: Fn(u32) -> u32>(
        self,
        cfg: LlamaConfig,
        q: Seq<u32>,
        k: Seq<u32>,
        v: Seq<u32>,
        seq: int,
        powf: P,
        cosine: C,
        sine: S,
    ) -> bool {
        &&& self == (AttentionView { cfg, seq, q, k, v, cos: self.cos, sin: self.sin })
        &&& rope::is_built(cfg, powf, cosine, sine, seq, self.cos, self.sin)
    }

    /// The part of row `t` of a `(seq, hidden)` matrix that belongs to a head.
    pub open spec fn head_part(self, x: Seq<u32>, t: int, head: int) -> Seq<u32> {
        let dh = self.cfg.head_size();
        x.subrange(t * self.cfg.hidden + head * dh, t * self.cfg.hidden + head * dh + dh)
    }

    /// The part of row `i` of a key or value matrix that belongs to a head.
    pub open spec fn kv_part(self, x: Seq<u32>, i: int, kv: int) -> Seq<u32> {
        let dh = self.cfg.head_size();
        x.subrange(i * self.cfg.kv_size() + kv * dh, i * self.cfg.kv_size() + kv * dh + dh)
    }

    /// The rotated query of a head at position `t`.
    pub open spec fn query(self, t: int, head: int) -> Seq<u32> {
        rope::rotated(self.head_part(self.q, t, head), self.cos[t], self.sin[t])
    }

    /// The rotated key of a head at position `i`.
    pub open spec fn key(self, i: int, kv: int) -> Seq<u32> {
        rope::rotated(self.kv_part(self.k, i, kv), self.cos[i], self.sin[i])
    }

    /// `1 / sqrt(head_dim)`.
    pub open spec fn scale(self) -> u32 {
        single::quotient(single::ONE, single::root(single::of_integer(self.cfg.head_size())))
    }

    /// How well the query at `t` matches the key at `i`.
    #[verifier::opaque]
    pub open spec fn score(self, t: int, head: int, i: int) -> u32 {
        single::product(
            sum_products(self.query(t, head), self.key(i, self.cfg.kv_of(head))),
            self.scale(),
        )
    }

    /// The largest of the first `n` scores.
    pub open spec fn top(self, t: int, head: int, n: nat) -> u32
        decreases n,
    {
        if n == 0 {
            single::NEG_INFINITY
        } else {
            single::larger(self.top(t, head, (n - 1) as nat), self.score(t, head, n - 1))
        }
    }

    /// What the exponential is taken of: a score relative to the largest among
    /// the positions up to `t`.
    #[verifier::opaque]
    pub open spec fn exponent(self, t: int, head: int, i: int) -> u32 {
        single::difference(self.score(t, head, i), self.top(t, head, (t + 1) as nat))
    }

    /// Whether there is a row of `t + 1` exponentials for every position `t`
    /// and head.
    pub open spec fn has_rows(self, exps: Seq<Seq<u32>>) -> bool {
        &&& exps.len() == self.seq * self.cfg.heads
        &&& forall|r: int|
            0 <= r < exps.len() ==> (#[trigger] exps[r]).len() == r / self.cfg.heads as int + 1
    }

    /// Whether the exponentials are what `exp` gives.
    pub open spec fn answered<E: Fn(u32) -> u32>(self, exp: E, exps: Seq<Seq<u32>>) -> bool {
        forall|r: int, i: int|
            0 <= r < exps.len() && 0 <= i < exps[r].len() ==> call_ensures(
                exp,
                (self.exponent(r / self.cfg.heads as int, r % self.cfg.heads as int, i),),
                #[trigger] exps[r][i],
            )
    }

    /// Values weighed by the shares of `row`, over the first `n` positions.
    pub open spec fn mixed(self, row: Seq<u32>, kv: int, j: int, n: nat) -> u32
        decreases n,
    {
        if n == 0 {
            0
        } else {
            single::sum(
                self.mixed(row, kv, j, (n - 1) as nat),
                single::product(share(row, n - 1), self.kv_part(self.v, n - 1, kv)[j]),
            )
        }
    }

    /// The attention's output: heads concatenated in order.
    pub open spec fn output(self, exps: Seq<Seq<u32>>) -> Seq<u32> {
        let dh = self.cfg.head_size();
        let heads = self.cfg.heads as int;
        lora::matrix(
            self.seq,
            self.cfg.hidden as int,
            |t: int, c: int|
                if c < heads * dh {
                    self.mixed(
                        exps[t * heads + c / dh],
                        self.cfg.kv_of(c / dh),
                        c % dh,
                        (t + 1) as nat,
                    )
                } else {
                    0
                },
        )
    }
}

/// What attention reads.
#[derive(Clone, Copy)]
pub struct Attention<'a> {
    pub cfg: &'a LlamaConfig,
    pub seq: usize,
    pub q: &'a [u32],
    pub k: &'a [u32],
    pub v: &'a [u32],
    pub cos: &'a [Vec<u32>],
    pub sin: &'a [Vec<u32>],
}

impl<'a> View for Attention<'a> {
    type V = AttentionView;

    open spec fn view(&self) -> AttentionView {
        AttentionView {
            cfg: *self.cfg,
            seq: self.seq as int,
            q: self.q@,
            k: self.k@,
            v: self.v@,
            cos: lora::lists(self.cos@),
            sin: lora::lists(self.sin@),
        }
    }
}

/// The sum of products of two slices.
pub fn dot_product(a: &[u32], b: &[u32]) -> (r: u32)
    requires
        a@.len() == b@.len(),
    ensures
        r == sum_products(a@, b@),
{
    let mut acc: u32 = single::SIGN;
    let mut i: usize = 0;
    assert(a@.take(0) =~= seq![]);
    while i < a.len()
        invariant
            i <= a@.len() == b@.len(),
            acc == sum_products(a@.take(i as int), b@.take(i as int)),
        decreases a@.len() - i,
    {
        assert(a@.take(i + 1).drop_last() =~= a@.take(i as int));
        assert(b@.take(i + 1).drop_last() =~= b@.take(i as int));
        acc = single::plus(acc, single::times(a[i], b[i]));
        i = i + 1;
    }
    assert(a@.take(i as int) =~= a@);
    assert(b@.take(i as int) =~= b@);
    acc
}

/// The shares of a row of exponentials.
pub fn shares(row: &[u32]) -> (r: Vec<u32>)
    ensures
        r@.len() == row@.len(),
        forall|i: int| 0 <= i < r@.len() ==> #[trigger] r@[i] == share(row@, i),
{
    let mut denom: u32 = 0;
    let mut i: usize = 0;
    assert(row@.take(0) =~= seq![]);
    while i < row.len()
        invariant
            i <= row@.len(),
            denom == total(row@.take(i as int)),
        decreases row@.len() - i,
    {
        assert(row@.take(i + 1).drop_last() =~= row@.take(i as int));
        denom = single::plus(denom, row[i]);
        i = i + 1;
    }
    assert(row@.take(i as int) =~= row@);
    let mut out: Vec<u32> = Vec::new();
    let mut i: usize = 0;
    while i < row.len()
        invariant
            i <= row@.len(),
            denom == total(row@),
            out@.len() == i,
            forall|j: int| 0 <= j < i ==> #[trigger] out@[j] == share(row@, j),
        decreases row@.len() - i,
    {
        proof {
            reveal(share);
        }
        out.push(single::over(row[i], denom));
        i = i + 1;
    }
    out
}

/// Where the part of a head lies.
pub proof fn lemma_head_bounds(cfg: LlamaConfig, seq: int, t: int, head: int)
    requires
        cfg.grouped(),
        0 <= t < seq,
        0 <= head < cfg.heads,
    ensures
        0 <= t * cfg.hidden,
        0 <= head * cfg.head_size(),
        t * cfg.hidden + head * cfg.head_size() + cfg.head_size() <= t * cfg.hidden + cfg.hidden
            <= seq * cfg.hidden,
        0 <= cfg.kv_of(head) < cfg.kv_heads,
        cfg.heads * cfg.head_size() <= cfg.hidden,
{
    let (h, n, d) = (cfg.hidden as int, cfg.heads as int, cfg.head_size());
    ieee::lemma_div_parts(h as nat, n as nat);
    assert(n * d == d * n) by (nonlinear_arith);
    assert(head * d + d <= n * d) by (nonlinear_arith)
        requires
            head + 1 <= n,
            d > 0,
    ;
    assert(t * h + h <= seq * h) by (nonlinear_arith)
        requires
            t + 1 <= seq,
            h >= 0,
    ;
    assert(t * h >= 0) by (nonlinear_arith)
        requires
            t >= 0,
            h >= 0,
    ;
    assert(head * d >= 0) by (nonlinear_arith)
        requires
            head >= 0,
            d >= 0,
    ;
    let (kv, rep) = (cfg.kv_heads as int, n / cfg.kv_heads as int);
    ieee::lemma_div_parts(n as nat, kv as nat);
    assert(n == kv * rep);
    assert(rep > 0) by (nonlinear_arith)
        requires
            n == kv * rep,
            n > 0,
            kv > 0,
    ;
    ieee::lemma_div_parts(head as nat, rep as nat);
    let (a, b) = (head / rep, head % rep);
    assert(a < kv) by (nonlinear_arith)
        requires
            head == rep * a + b,
            b >= 0,
            rep > 0,
            head < kv * rep,
    ;
}

/// Where the part of a key or value head lies.
pub proof fn lemma_kv_bounds(cfg: LlamaConfig, seq: int, i: int, kv: int)
    requires
        cfg.grouped(),
        0 <= i < seq,
        0 <= kv < cfg.kv_heads,
    ensures
        0 <= i * cfg.kv_size(),
        0 <= kv * cfg.head_size(),
        kv * cfg.head_size() + cfg.head_size() <= cfg.kv_size(),
        i * cfg.kv_size() + kv * cfg.head_size() + cfg.head_size() <= seq * cfg.kv_size(),
{
    let (k, d) = (cfg.kv_heads as int, cfg.head_size());
    let w = k * d;
    assert(kv * d + d <= k * d) by (nonlinear_arith)
        requires
            kv + 1 <= k,
            d > 0,
    ;
    assert(w >= 0) by (nonlinear_arith)
        requires
            w == k * d,
            k >= 0,
            d >= 0,
    ;
    assert(i * w + w <= seq * w) by (nonlinear_arith)
        requires
            i + 1 <= seq,
            w >= 0,
    ;
    assert(i * w >= 0 && kv * d >= 0) by (nonlinear_arith)
        requires
            i >= 0,
            w >= 0,
            kv >= 0,
            d >= 0,
    ;
}

impl<'a> Attention<'a> {
    /// The key and value head that a query head reads.
    pub fn kv_head(&self, head: usize) -> (r: usize)
        requires
            self@.wf(),
            head < self.cfg.heads,
        ensures
            r == self.cfg.kv_of(head as int),
            r < self.cfg.kv_heads,
    {
        proof {
            lemma_head_bounds(*self.cfg, 1, 0, head as int);
            let (n, kv) = (self.cfg.heads as int, self.cfg.kv_heads as int);
            ieee::lemma_div_parts(n as nat, kv as nat);
            let rep = n / kv;
            assert(rep > 0) by (nonlinear_arith)
                requires
                    n == kv * rep + n % kv,
                    n % kv == 0,
                    n > 0,
                    kv > 0,
            ;
        }
        head / (self.cfg.heads / self.cfg.kv_heads)
    }

    /// The rotated query of a head at position `t`.
    pub fn query_row(&self, t: usize, head: usize) -> (r: Vec<u32>)
        requires
            self@.wf(),
            t < self.seq,
            head < self.cfg.heads,
        ensures
            r@ == self@.query(t as int, head as int),
            r@.len() == self.cfg.head_size(),
    {
        let dh: usize = self.cfg.head_dim();
        proof {
            lemma_head_bounds(*self.cfg, self.seq as int, t as int, head as int);
            assert(self@.cos[t as int].len() == dh / 2);
            assert(self@.sin[t as int].len() == dh / 2);
        }
        let n: usize = self.q.len();
        let from: usize = t * self.cfg.hidden + head * dh;
        let x = vstd::slice::slice_subrange(self.q, from, from + dh);
        let mut out = zeros(dh);
        rope_apply(x, self.cos[t].as_slice(), self.sin[t].as_slice(), &mut out);
        out
    }

    /// Where a key or value head of row `i` begins.
    pub fn kv_start(&self, i: usize, kv: usize) -> (r: usize)
        requires
            self@.wf(),
            i < self.seq,
            kv < self.cfg.kv_heads,
        ensures
            r == i * self.cfg.kv_size() + kv * self.cfg.head_size(),
            r + self.cfg.head_size() <= self.seq * self.cfg.kv_size(),
    {
        proof {
            lemma_kv_bounds(*self.cfg, self.seq as int, i as int, kv as int);
        }
        let n: usize = self.k.len();
        let dh: usize = self.cfg.head_dim();
        i * self.cfg.kv_dim() + kv * dh
    }

    /// The rotated key of a head at position `i`.
    pub fn key_row(&self, i: usize, kv: usize) -> (r: Vec<u32>)
        requires
            self@.wf(),
            i < self.seq,
            kv < self.cfg.kv_heads,
        ensures
            r@ == self@.key(i as int, kv as int),
            r@.len() == self.cfg.head_size(),
    {
        let dh: usize = self.cfg.head_dim();
        let n: usize = self.k.len();
        let from: usize = self.kv_start(i, kv);
        proof {
            assert(self@.cos[i as int].len() == dh / 2);
            assert(self@.sin[i as int].len() == dh / 2);
        }
        let x = vstd::slice::slice_subrange(self.k, from, from + dh);
        let mut out = zeros(dh);
        rope_apply(x, self.cos[i].as_slice(), self.sin[i].as_slice(), &mut out);
        out
    }

    /// The value of a head at position `i`.
    pub fn value_row(&self, i: usize, kv: usize) -> (r: &'a [u32])
        requires
            self@.wf(),
            i < self.seq,
            kv < self.cfg.kv_heads,
        ensures
            r@ == self@.kv_part(self.v@, i as int, kv as int),
            r@.len() == self.cfg.head_size(),
    {
        let dh: usize = self.cfg.head_dim();
        let n: usize = self.v.len();
        let from: usize = self.kv_start(i, kv);
        vstd::slice::slice_subrange(self.v, from, from + dh)
    }

    /// `1 / sqrt(head_dim)`.
    pub fn scale(&self) -> (r: u32)
        requires
            self@.wf(),
        ensures
            r == self@.scale(),
    {
        let dh: usize = self.cfg.head_dim();
        single::over(single::ONE, single::sqrt(single::from_u64(dh as u64)))
    }

    /// The exponentials of a head at position `t`: the scores against
    /// positions `0..=t`, relative to the largest, handed to `exp`.
    fn exponentials<E: Fn(u32) -> u32>(&self, t: usize, head: usize, exp: &E) -> (r: Vec<u32>)
        requires
            self@.wf(),
            t < self.seq,
            head < self.cfg.heads,
            forall|x: u32| #[trigger] exp.requires((x,)),
        ensures
            r@.len() == t + 1,
            forall|i: int|
                0 <= i <= t ==> call_ensures(
                    *exp,
                    (self@.exponent(t as int, head as int, i),),
                    #[trigger] r@[i],
                ),
    {
        let kv: usize = self.kv_head(head);
        let qr = self.query_row(t, head);
        let scale: u32 = self.scale();
        let mut scores: Vec<u32> = Vec::new();
        let mut max: u32 = single::NEG_INFINITY;
        let mut i: usize = 0;
        while i <= t
            invariant
                i <= t + 1,
                self@.wf(),
                t < self.seq,
                head < self.cfg.heads,
                kv == self.cfg.kv_of(head as int),
                kv < self.cfg.kv_heads,
                qr@ == self@.query(t as int, head as int),
                qr@.len() == self.cfg.head_size(),
                scale == self@.scale(),
                scores@.len() == i,
                max == self@.top(t as int, head as int, i as nat),
                forall|j: int|
                    0 <= j < i ==> #[trigger] scores@[j] == self@.score(t as int, head as int, j),
            decreases t + 1 - i,
        {
            let kr = self.key_row(i, kv);
            let dot: u32 = dot_product(qr.as_slice(), kr.as_slice());
            let s: u32 = single::times(dot, scale);
            proof {
                reveal(AttentionView::score);
            }
            scores.push(s);
            max = single::max(max, s);
            i = i + 1;
        }
        let mut out: Vec<u32> = Vec::new();
        let mut i: usize = 0;
        while i <= t
            invariant
                i <= t + 1,
                t < self.seq,
                scores@.len() == t + 1,
                max == self@.top(t as int, head as int, (t + 1) as nat),
                forall|j: int|
                    0 <= j <= t ==> #[trigger] scores@[j] == self@.score(t as int, head as int, j),
                forall|x: u32| #[trigger] exp.requires((x,)),
                out@.len() == i,
                forall|j: int|
                    0 <= j < i ==> call_ensures(
                        *exp,
                        (self@.exponent(t as int, head as int, j),),
                        #[trigger] out@[j],
                    ),
            decreases t + 1 - i,
        {
            let x: u32 = single::minus(scores[i], max);
            proof {
                reveal(AttentionView::exponent);
                assert(x == self@.exponent(t as int, head as int, i as int));
            }
            let e: u32 = exp(x);
            out.push(e);
            i = i + 1;
        }
        out
    }

    /// Appends the output of a head at position `t`.
    fn mix(&self, row: &[u32], kv: usize, out: &mut Vec<u32>)
        requires
            self@.wf(),
            row@.len() <= self.seq,
            kv < self.cfg.kv_heads,
        ensures
            final(out)@ == old(out)@ + Seq::new(
                self.cfg.head_size() as nat,
                |j: int| self@.mixed(row@, kv as int, j, row@.len()),
            ),
    {
        let ghost out0 = out@;
        let dh: usize = self.cfg.head_dim();
        let weights = shares(row);
        let mut j: usize = 0;
        let ghost want = Seq::new(
            dh as nat,
            |j: int| self@.mixed(row@, kv as int, j, row@.len()),
        );
        while j < dh
            invariant
                j <= dh,
                dh == self.cfg.head_size(),
                self@.wf(),
                row@.len() <= self.seq,
                kv < self.cfg.kv_heads,
                weights@.len() == row@.len(),
                forall|i: int| 0 <= i < weights@.len() ==> #[trigger] weights@[i] == share(row@, i),
                want == Seq::new(
                    dh as nat,
                    |j: int| self@.mixed(row@, kv as int, j, row@.len()),
                ),
                out@ == out0 + want.take(j as int),
            decreases dh - j,
        {
            let mut acc: u32 = 0;
            let mut i: usize = 0;
            while i < row.len()
                invariant
                    i <= row@.len() <= self.seq,
                    j < dh,
                    dh == self.cfg.head_size(),
                    self@.wf(),
                    kv < self.cfg.kv_heads,
                    weights@.len() == row@.len(),
                    forall|i: int|
                        0 <= i < weights@.len() ==> #[trigger] weights@[i] == share(row@, i),
                    acc == self@.mixed(row@, kv as int, j as int, i as nat),
                decreases row@.len() - i,
            {
                let v = self.value_row(i, kv);
                acc = single::plus(acc, single::times(weights[i], v[j]));
                i = i + 1;
            }
            out.push(acc);
            assert(want.take(j + 1) =~= want.take(j as int).push(want[j as int]));
            j = j + 1;
            assert(out@ =~= out0 + want.take(j as int));
        }
        assert(want.take(j as int) =~= want);
    }
}

/// Causal GQA attention with RoPE. `q: (s, heads*dh)`, `k/v: (s, kv*dh)`.
/// Returns `(s, hidden)` (heads concatenated in order) and the exponentials
/// that weigh the values: a row for every position and head.
///
/// `exp` works on binary32 bit patterns.
pub fn attention<E: Fn(u32) -> u32>(a: &Attention, exp: &E) -> (r: (Vec<u32>, Vec<Vec<u32>>))
    requires
        a@.wf(),
        forall|x: u32| #[trigger] exp.requires((x,)),
    ensures
        a@.has_rows(lora::lists(r.1@)),
        a@.answered(*exp, lora::lists(r.1@)),
        r.0@ == a@.output(lora::lists(r.1@)),
{
    let dh: usize = a.cfg.head_dim();
    let h: usize = a.cfg.hidden;
    let heads: usize = a.cfg.heads;
    let mut out: Vec<u32> = Vec::new();
    let mut exps: Vec<Vec<u32>> = Vec::new();
    let mut t: usize = 0;
    proof {
        assert(0 * h == 0 && 0 * heads == 0);
    }
    while t < a.seq
        invariant
            t <= a.seq,
            a@.wf(),
            dh == a.cfg.head_size(),
            h == a.cfg.hidden,
            heads == a.cfg.heads,
            forall|x: u32| #[trigger] exp.requires((x,)),
            exps@.len() == t * heads,
            out@.len() == t * h,
            partly(a@, *exp, lora::lists(exps@), out@),
        decreases a.seq - t,
    {
        let mut head: usize = 0;
        assert(0 * dh == 0);
        while head < heads
            invariant
                head <= heads,
                t < a.seq,
                a@.wf(),
                dh == a.cfg.head_size(),
                h == a.cfg.hidden,
                heads == a.cfg.heads,
                forall|x: u32| #[trigger] exp.requires((x,)),
                exps@.len() == t * heads + head,
                out@.len() == t * h + head * dh,
                partly(a@, *exp, lora::lists(exps@), out@),
            decreases heads - head,
        {
            let kv: usize = a.kv_head(head);
            let row = a.exponentials(t, head, exp);
            let ghost (e0, o0) = (lora::lists(exps@), out@);
            a.mix(row.as_slice(), kv, &mut out);
            let ghost added = row@;
            exps.push(row);
            proof {
                assert(lora::lists(exps@) =~= e0.push(added));
                lemma_add_head(a@, *exp, e0, o0, added, out@, t as int, head as int);
                assert((head + 1) * dh == head * dh + dh) by (nonlinear_arith);
            }
            head = head + 1;
        }
        proof {
            lemma_head_bounds(*a.cfg, a.seq as int, t as int, 0);
            assert((t + 1) * heads == t * heads + heads) by (nonlinear_arith);
            assert((t + 1) * h == t * h + h) by (nonlinear_arith);
        }
        let mut c: usize = heads * dh;
        while c < h
            invariant
                heads * dh <= c <= h,
                t < a.seq,
                a@.wf(),
                dh == a.cfg.head_size(),
                h == a.cfg.hidden,
                heads == a.cfg.heads,
                exps@.len() == t * heads + heads,
                out@.len() == t * h + c,
                partly(a@, *exp, lora::lists(exps@), out@),
            decreases h - c,
        {
            let ghost o0 = out@;
            out.push(0);
            proof {
                lora::lemma_position(t as int, c as int, a.seq as int, h as int);
                assert forall|s: int| 0 <= s < out@.len() implies #[trigger] out@[s] == a@.output(
                    lora::lists(exps@),
                )[s] by {
                    if s < o0.len() {
                        assert(out@[s] == o0[s]);
                    }
                }
            }
            c = c + 1;
        }
        t = t + 1;
    }
    assert(out@ =~= a@.output(lora::lists(exps@)));
    (out, exps)
}

/// How far attention has come: the rows and outputs so far are as they
/// should be.
spec fn partly<E: Fn(u32) -> u32>(
    a: AttentionView,
    exp: E,
    exps: Seq<Seq<u32>>,
    out: Seq<u32>,
) -> bool {
    &&& forall|r: int|
        0 <= r < exps.len() ==> (#[trigger] exps[r]).len() == r / a.cfg.heads as int + 1
    &&& a.answered(exp, exps)
    &&& forall|s: int| 0 <= s < out.len() ==> #[trigger] out[s] == a.output(exps)[s]
}

/// One more head.
proof fn lemma_add_head<E: Fn(u32) -> u32>(
    a: AttentionView,
    exp: E,
    e0: Seq<Seq<u32>>,
    o0: Seq<u32>,
    row: Seq<u32>,
    out: Seq<u32>,
    t: int,
    head: int,
)
    requires
        a.wf(),
        0 <= t < a.seq,
        0 <= head < a.cfg.heads,
        e0.len() == t * a.cfg.heads + head,
        o0.len() == t * a.cfg.hidden + head * a.cfg.head_size(),
        partly(a, exp, e0, o0),
        row.len() == t + 1,
        forall|i: int|
            0 <= i <= t ==> call_ensures(exp, (a.exponent(t, head, i),), #[trigger] row[i]),
        out == o0 + Seq::new(
            a.cfg.head_size() as nat,
            |j: int| a.mixed(row, a.cfg.kv_of(head), j, (t + 1) as nat),
        ),
    ensures
        partly(a, exp, e0.push(row), out),
{
    let exps = e0.push(row);
    let (h, dh, heads) = (a.cfg.hidden as int, a.cfg.head_size(), a.cfg.heads as int);
    let r = t * heads + head;
    lora::lemma_position(t, head, a.seq, heads);
    lemma_head_bounds(a.cfg, a.seq, t, head);
    assert forall|q: int| 0 <= q < exps.len() implies (#[trigger] exps[q]).len() == q / heads
        + 1 by {
        if q < r {
            assert(exps[q] == e0[q]);
        }
    }
    assert forall|q: int, i: int| 0 <= q < exps.len() && 0 <= i < exps[q].len() implies call_ensures(
        exp,
        (a.exponent(q / heads, q % heads, i),),
        #[trigger] exps[q][i],
    ) by {
        if q < r {
            assert(exps[q][i] == e0[q][i]);
        }
    }
    assert forall|s: int| 0 <= s < out.len() implies #[trigger] out[s] == a.output(exps)[s] by {
        if s < o0.len() {
            assert(out[s] == o0[s]);
            assert(s < a.seq * h);
            lora::lemma_cell(s, a.seq, h);
            let (ts, c) = (s / h, s % h);
            if c < heads * dh {
                lemma_heads_before(a.cfg, t, head, ts, c);
                let q = ts * heads + c / dh;
                assert(exps[q] == e0[q]);
            }
        } else {
            let j = s - o0.len();
            let c = head * dh + j;
            lora::lemma_position(t, c, a.seq, h);
            lora::lemma_position(head, j, heads, dh);
            assert(s == t * h + c);
        }
    }
}

/// Elements before a head's part belong to earlier rows of exponentials.
proof fn lemma_heads_before(cfg: LlamaConfig, t: int, head: int, ts: int, c: int)
    requires
        cfg.grouped(),
        0 <= t,
        0 <= head < cfg.heads,
        0 <= ts,
        0 <= c < cfg.hidden,
        c < cfg.heads * cfg.head_size(),
        ts * cfg.hidden + c < t * cfg.hidden + head * cfg.head_size(),
    ensures
        0 <= ts * cfg.heads + c / cfg.head_size() < t * cfg.heads + head,
{
    let (h, dh, heads) = (cfg.hidden as int, cfg.head_size(), cfg.heads as int);
    lemma_head_bounds(cfg, t + 1, t, head);
    lora::lemma_cell(c, heads, dh);
    let (a, b) = (c / dh, c % dh);
    assert(ts <= t) by (nonlinear_arith)
        requires
            ts * h + c < t * h + head * dh,
            head * dh <= h,
            c >= 0,
            h > 0,
    ;
    assert(ts * heads >= 0) by (nonlinear_arith)
        requires
            ts >= 0,
            heads >= 0,
    ;
    if ts < t {
        assert(ts * heads + heads <= t * heads) by (nonlinear_arith)
            requires
                ts + 1 <= t,
                heads >= 0,
        ;
    } else {
        assert(a < head) by (nonlinear_arith)
            requires
                a * dh + b < head * dh,
                b >= 0,
                dh > 0,
        ;
    }
}

/// Causal GQA attention over `seq` positions, with the rotations that the
/// settings call for.
///
/// `powf`, `cosine`, `sine` and `exp` work on binary32 bit patterns.
pub fn attention_with<
    P: Fn(u32, u32) -> u32,
    C: Fn(u32) -> u32,
    S: Fn(u32) -> u32,
    E: Fn(u32) -> u32,
>(
    cfg: &LlamaConfig,
    q: &[u32],
    k: &[u32],
    v: &[u32],
    seq: usize,
    powf: &P,
    cosine: &C,
    sine: &S,
    exp: &E,
) -> (r: Vec<u32>)
    requires
        cfg.grouped(),
        q@.len() == seq * cfg.hidden,
        k@.len() == seq * cfg.kv_size(),
        v@.len() == seq * cfg.kv_size(),
        forall|x: u32, y: u32| #[trigger] powf.requires((x, y)),
        forall|x: u32| #[trigger] cosine.requires((x,)),
        forall|x: u32| #[trigger] sine.requires((x,)),
        forall|x: u32| #[trigger] exp.requires((x,)),
    ensures
        exists|a: AttentionView, exps: Seq<Seq<u32>>|
            {
                &&& #[trigger] a.reads(*cfg, q@, k@, v@, seq as int, *powf, *cosine, *sine)
                &&& a.has_rows(exps)
                &&& #[trigger] a.answered(*exp, exps)
                &&& r@ == a.output(exps)
            },
{
    let (cos, sin) = rope::rope_tables(cfg, seq, powf, cosine, sine);
    let a = Attention { cfg, seq, q, k, v, cos: cos.as_slice(), sin: sin.as_slice() };
    assert(a@.reads(*cfg, q@, k@, v@, seq as int, *powf, *cosine, *sine));
    let (out, exps) = attention(&a, exp);
    assert(a@.answered(*exp, lora::lists(exps@)));
    out
}

} // verus!
