//! The backward pass of attention.
use crate::lora;
use crate::model::attention;
use crate::model::attention::{dot_product, shares, Attention, AttentionView};
use crate::model::config::LlamaConfig;
use crate::model::rope;
use crate::model::rope::add_unrotated;
use crate::model::weights::zeros;
use crate::single;
use vstd::prelude::*;

verus! {

impl AttentionView {
    /// `dL/dp` of the share of position `i`: the upstream gradient times the
    /// value.
    #[verifier::opaque]
    pub open spec fn share_gradient(self, d: Seq<u32>, t: int, head: int, i: int) -> u32 {
        attention::sum_products(
            self.head_part(d, t, head),
            self.kv_part(self.v, i, self.cfg.kv_of(head)),
        )
    }

    /// The sum of `dp * p` over the first `n` positions.
    pub open spec fn gradient_dot(
        self,
        d: Seq<u32>,
        row: Seq<u32>,
        t: int,
        head: int,
        n: nat,
    ) -> u32
        decreases n,
    {
        if n == 0 {
            0
        } else {
            single::sum(
                self.gradient_dot(d, row, t, head, (n - 1) as nat),
                single::product(
                    self.share_gradient(d, t, head, n - 1),
                    attention::share(row, n - 1),
                ),
            )
        }
    }

    /// `dL/ds` of the score of position `i`: `p * (dp - dp.p) * scale`.
    #[verifier::opaque]
    pub open spec fn score_gradient(
        self,
        d: Seq<u32>,
        row: Seq<u32>,
        t: int,
        head: int,
        i: int,
    ) -> u32 {
        single::product(
            single::product(
                attention::share(row, i),
                single::difference(
                    self.share_gradient(d, t, head, i),
                    self.gradient_dot(d, row, t, head, row.len()),
                ),
            ),
            self.scale(),
        )
    }

    /// Element `j` of the gradient of a rotated query over the first `n`
    /// positions: the sum of `ds * key`.
    pub open spec fn query_sum(
        self,
        d: Seq<u32>,
        row: Seq<u32>,
        t: int,
        head: int,
        j: int,
        n: nat,
    ) -> u32
        decreases n,
    {
        if n == 0 {
            0
        } else {
            single::sum(
                self.query_sum(d, row, t, head, j, (n - 1) as nat),
                single::product(
                    self.score_gradient(d, row, t, head, n - 1),
                    self.key(n - 1, self.cfg.kv_of(head))[j],
                ),
            )
        }
    }

    /// The gradient of a rotated query.
    pub open spec fn query_sums(self, d: Seq<u32>, row: Seq<u32>, t: int, head: int) -> Seq<u32> {
        Seq::new(
            self.cfg.head_size() as nat,
            |j: int| self.query_sum(d, row, t, head, j, row.len()),
        )
    }

    /// `dL/dQ`.
    pub open spec fn query_gradient(self, d: Seq<u32>, exps: Seq<Seq<u32>>) -> Seq<u32> {
        let dh = self.cfg.head_size();
        let heads = self.cfg.heads as int;
        lora::matrix(
            self.seq,
            self.cfg.hidden as int,
            |t: int, c: int|
                if c < heads * dh && c % dh < 2 * (dh / 2) {
                    single::sum(
                        0,
                        rope::unrotated_at(
                            self.query_sums(d, exps[t * heads + c / dh], t, c / dh),
                            self.cos[t],
                            self.sin[t],
                            c % dh,
                        ),
                    )
                } else {
                    0
                },
        )
    }

    /// Whether row `r` of exponentials weighs position `i` of a key head.
    pub open spec fn touches(self, r: int, i: int, kv: int) -> bool {
        i <= r / self.cfg.heads as int && self.cfg.kv_of(r % self.cfg.heads as int) == kv
    }

    /// `dL/dV` at row `i`, head `kv` and element `j` after the first `n` rows
    /// of exponentials: the sum of `p * dout`.
    pub open spec fn value_sum(
        self,
        d: Seq<u32>,
        exps: Seq<Seq<u32>>,
        i: int,
        kv: int,
        j: int,
        n: nat,
    ) -> u32
        decreases n,
    {
        if n == 0 {
            0
        } else {
            let r = n - 1;
            let before = self.value_sum(d, exps, i, kv, j, r as nat);
            if self.touches(r, i, kv) {
                let (t, head) = (r / self.cfg.heads as int, r % self.cfg.heads as int);
                single::sum(
                    before,
                    single::product(
                        attention::share(exps[r], i),
                        self.head_part(d, t, head)[j],
                    ),
                )
            } else {
                before
            }
        }
    }

    /// `dL/dV` after the first `n` rows of exponentials.
    pub open spec fn value_gradient(self, d: Seq<u32>, exps: Seq<Seq<u32>>, n: nat) -> Seq<u32> {
        let dh = self.cfg.head_size();
        lora::matrix(
            self.seq,
            self.cfg.kv_size(),
            |i: int, c: int| self.value_sum(d, exps, i, c / dh, c % dh, n),
        )
    }

    /// `ds * query`, element by element.
    pub open spec fn scaled_query(
        self,
        d: Seq<u32>,
        row: Seq<u32>,
        t: int,
        head: int,
        i: int,
    ) -> Seq<u32> {
        let q = self.query(t, head);
        Seq::new(
            q.len(),
            |j: int| single::product(self.score_gradient(d, row, t, head, i), q[j]),
        )
    }

    /// `dL/dK` at row `i`, head `kv` and element `j` after the first `n` rows
    /// of exponentials: the sum of `ds * query`, turned back.
    pub open spec fn key_sum(
        self,
        d: Seq<u32>,
        exps: Seq<Seq<u32>>,
        i: int,
        kv: int,
        j: int,
        n: nat,
    ) -> u32
        decreases n,
    {
        if n == 0 {
            0
        } else {
            let r = n - 1;
            let before = self.key_sum(d, exps, i, kv, j, r as nat);
            if self.touches(r, i, kv) && j < 2 * (self.cfg.head_size() / 2) {
                let (t, head) = (r / self.cfg.heads as int, r % self.cfg.heads as int);
                single::sum(
                    before,
                    rope::unrotated_at(
                        self.scaled_query(d, exps[r], t, head, i),
                        self.cos[i],
                        self.sin[i],
                        j,
                    ),
                )
            } else {
                before
            }
        }
    }

    /// `dL/dK` after the first `n` rows of exponentials.
    pub open spec fn key_gradient(self, d: Seq<u32>, exps: Seq<Seq<u32>>, n: nat) -> Seq<u32> {
        let dh = self.cfg.head_size();
        lora::matrix(
            self.seq,
            self.cfg.kv_size(),
            |i: int, c: int| self.key_sum(d, exps, i, c / dh, c % dh, n),
        )
    }
}

/// Adds `c * src` to the elements of `out` from `base` on.
fn add_scaled(out: &mut Vec<u32>, base: usize, c: u32, src: &[u32])
    requires
        base + src@.len() <= old(out)@.len(),
    ensures
        final(out)@ == Seq::new(
            old(out)@.len(),
            |s: int|
                if base <= s < base + src@.len() {
                    single::sum(old(out)@[s], single::product(c, src@[s - base]))
                } else {
                    old(out)@[s]
                },
        ),
{
    let ghost out0 = out@;
    let n: usize = out.len();
    let mut j: usize = 0;
    while j < src.len()
        invariant
            j <= src@.len(),
            base + src@.len() <= n == out@.len() == out0.len(),
            forall|s: int|
                0 <= s < n ==> #[trigger] out@[s] == (if base <= s < base + j {
                    single::sum(out0[s], single::product(c, src@[s - base]))
                } else {
                    out0[s]
                }),
        decreases src@.len() - j,
    {
        let x: u32 = single::plus(out[base + j], single::times(c, src[j]));
        out.set(base + j, x);
        j = j + 1;
    }
    assert(out@ =~= Seq::new(
        out0.len(),
        |s: int|
            if base <= s < base + src@.len() {
                single::sum(out0[s], single::product(c, src@[s - base]))
            } else {
                out0[s]
            },
    ));
}

/// Gradients of which the rows below `i` count row `n` of exponentials too.
spec fn mended(a: AttentionView, before: Seq<u32>, after: Seq<u32>, i: int) -> Seq<u32> {
    Seq::new(
        before.len(),
        |s: int|
            if s / a.cfg.kv_size() < i {
                after[s]
            } else {
                before[s]
            },
    )
}

/// Row, head and element of a position in a key or value matrix.
proof fn lemma_kv_cell(a: AttentionView, s: int)
    requires
        a.wf(),
        0 <= s < a.seq * a.cfg.kv_size(),
    ensures
        0 <= s / a.cfg.kv_size() < a.seq,
        0 <= s % a.cfg.kv_size() < a.cfg.kv_size(),
        s == (s / a.cfg.kv_size()) * a.cfg.kv_size() + s % a.cfg.kv_size(),
        0 <= (s % a.cfg.kv_size()) / a.cfg.head_size() < a.cfg.kv_heads,
        0 <= (s % a.cfg.kv_size()) % a.cfg.head_size() < a.cfg.head_size(),
        s == (s / a.cfg.kv_size()) * a.cfg.kv_size() + ((s % a.cfg.kv_size())
            / a.cfg.head_size()) * a.cfg.head_size() + (s % a.cfg.kv_size()) % a.cfg.head_size(),
{
    let (w, dh) = (a.cfg.kv_size(), a.cfg.head_size());
    assert(w >= 0) by (nonlinear_arith)
        requires
            w == a.cfg.kv_heads as int * dh,
            dh > 0,
    ;
    lora::lemma_cell(s, a.seq, w);
    lora::lemma_cell(s % w, a.cfg.kv_heads as int, dh);
}

/// Updating a head's part of row `i` mends that row of `dL/dV`.
proof fn lemma_value_step(
    a: AttentionView,
    d: Seq<u32>,
    exps: Seq<Seq<u32>>,
    r: int,
    i: int,
    now: Seq<u32>,
    next: Seq<u32>,
)
    requires
        a.wf(),
        0 <= r,
        0 <= i <= r / a.cfg.heads as int,
        i < a.seq,
        now == mended(
            a,
            a.value_gradient(d, exps, r as nat),
            a.value_gradient(d, exps, (r + 1) as nat),
            i,
        ),
        ({
            let kv = a.cfg.kv_of(r % a.cfg.heads as int);
            let base = i * a.cfg.kv_size() + kv * a.cfg.head_size();
            let src = a.head_part(d, r / a.cfg.heads as int, r % a.cfg.heads as int);
            next == Seq::new(
                now.len(),
                |s: int|
                    if base <= s < base + a.cfg.head_size() {
                        single::sum(
                            now[s],
                            single::product(attention::share(exps[r], i), src[s - base]),
                        )
                    } else {
                        now[s]
                    },
            )
        }),
        0 <= a.cfg.kv_of(r % a.cfg.heads as int) < a.cfg.kv_heads,
    ensures
        next == mended(
            a,
            a.value_gradient(d, exps, r as nat),
            a.value_gradient(d, exps, (r + 1) as nat),
            i + 1,
        ),
{
    let (w, dh) = (a.cfg.kv_size(), a.cfg.head_size());
    let kv = a.cfg.kv_of(r % a.cfg.heads as int);
    let before = a.value_gradient(d, exps, r as nat);
    let after = a.value_gradient(d, exps, (r + 1) as nat);
    let want = mended(a, before, after, i + 1);
    let base = i * w + kv * dh;
    assert forall|s: int| 0 <= s < next.len() implies #[trigger] next[s] == want[s] by {
        lemma_kv_cell(a, s);
        let (row, c) = (s / w, s % w);
        attention::lemma_kv_bounds(a.cfg, a.seq, i, kv);
        if row == i {
            let j = c % dh;
            lemma_part(c / dh, kv, j, dh);
            if c / dh == kv {
                assert(s - base == j);
                assert(a.touches(r, i, kv));
            } else {
                assert(!a.touches(r, i, c / dh));
            }
        } else {
            lemma_part(row, i, c, w);
            assert(!(i * w <= s < i * w + w));
        }
    }
    assert(next =~= want);
}

/// A position lies in the part that it is counted in, and in no other.
proof fn lemma_part(x: int, y: int, j: int, d: int)
    requires
        0 <= j < d,
    ensures
        y * d <= x * d + j < y * d + d <==> x == y,
{
    assert(y * d <= x * d + j < y * d + d <==> x == y) by (nonlinear_arith)
        requires
            0 <= j < d,
    ;
}

/// Updating a head's part of row `i` mends that row of `dL/dK`.
proof fn lemma_key_step(
    a: AttentionView,
    d: Seq<u32>,
    exps: Seq<Seq<u32>>,
    r: int,
    i: int,
    now: Seq<u32>,
    next: Seq<u32>,
)
    requires
        a.wf(),
        0 <= r,
        0 <= i <= r / a.cfg.heads as int,
        i < a.seq,
        now == mended(
            a,
            a.key_gradient(d, exps, r as nat),
            a.key_gradient(d, exps, (r + 1) as nat),
            i,
        ),
        ({
            let (t, head) = (r / a.cfg.heads as int, r % a.cfg.heads as int);
            let kv = a.cfg.kv_of(head);
            let base = i * a.cfg.kv_size() + kv * a.cfg.head_size();
            let y = a.scaled_query(d, exps[r], t, head, i);
            next == Seq::new(
                now.len(),
                |s: int|
                    if base <= s < base + 2 * (a.cfg.head_size() / 2) {
                        single::sum(
                            now[s],
                            rope::unrotated_at(y, a.cos[i], a.sin[i], s - base),
                        )
                    } else {
                        now[s]
                    },
            )
        }),
        0 <= a.cfg.kv_of(r % a.cfg.heads as int) < a.cfg.kv_heads,
    ensures
        next == mended(
            a,
            a.key_gradient(d, exps, r as nat),
            a.key_gradient(d, exps, (r + 1) as nat),
            i + 1,
        ),
{
    let (w, dh) = (a.cfg.kv_size(), a.cfg.head_size());
    let kv = a.cfg.kv_of(r % a.cfg.heads as int);
    let before = a.key_gradient(d, exps, r as nat);
    let after = a.key_gradient(d, exps, (r + 1) as nat);
    let want = mended(a, before, after, i + 1);
    let base = i * w + kv * dh;
    assert forall|s: int| 0 <= s < next.len() implies #[trigger] next[s] == want[s] by {
        lemma_kv_cell(a, s);
        let (row, c) = (s / w, s % w);
        attention::lemma_kv_bounds(a.cfg, a.seq, i, kv);
        if row == i {
            let j = c % dh;
            lemma_part(c / dh, kv, j, dh);
            if c / dh == kv {
                assert(s - base == j);
                assert(a.touches(r, i, kv));
            } else {
                assert(!a.touches(r, i, c / dh));
            }
        } else {
            lemma_part(row, i, c, w);
            assert(!(i * w <= s < i * w + w));
        }
    }
    assert(next =~= want);
}

/// Once all rows up to `t` are mended, all are.
proof fn lemma_mended(
    a: AttentionView,
    d: Seq<u32>,
    exps: Seq<Seq<u32>>,
    r: int,
)
    requires
        a.wf(),
        0 <= r < a.seq * a.cfg.heads,
    ensures
        mended(
            a,
            a.value_gradient(d, exps, r as nat),
            a.value_gradient(d, exps, (r + 1) as nat),
            r / a.cfg.heads as int + 1,
        ) == a.value_gradient(d, exps, (r + 1) as nat),
        mended(
            a,
            a.key_gradient(d, exps, r as nat),
            a.key_gradient(d, exps, (r + 1) as nat),
            r / a.cfg.heads as int + 1,
        ) == a.key_gradient(d, exps, (r + 1) as nat),
        mended(
            a,
            a.value_gradient(d, exps, r as nat),
            a.value_gradient(d, exps, (r + 1) as nat),
            0,
        ) == a.value_gradient(d, exps, r as nat),
        mended(
            a,
            a.key_gradient(d, exps, r as nat),
            a.key_gradient(d, exps, (r + 1) as nat),
            0,
        ) == a.key_gradient(d, exps, r as nat),
{
    let t = r / a.cfg.heads as int;
    let v0 = a.value_gradient(d, exps, r as nat);
    let v1 = a.value_gradient(d, exps, (r + 1) as nat);
    let k0 = a.key_gradient(d, exps, r as nat);
    let k1 = a.key_gradient(d, exps, (r + 1) as nat);
    assert forall|s: int| 0 <= s < v0.len() implies mended(a, v0, v1, t + 1)[s] == #[trigger] v1[s]
        && mended(a, v0, v1, 0)[s] == v0[s] by {
        lemma_kv_cell(a, s);
    }
    assert forall|s: int| 0 <= s < k0.len() implies mended(a, k0, k1, t + 1)[s] == #[trigger] k1[s]
        && mended(a, k0, k1, 0)[s] == k0[s] by {
        lemma_kv_cell(a, s);
    }
    assert(mended(a, v0, v1, t + 1) =~= v1);
    assert(mended(a, k0, k1, t + 1) =~= k1);
    assert(mended(a, v0, v1, 0) =~= v0);
    assert(mended(a, k0, k1, 0) =~= k0);
}

/// What a head at position `t` adds to the gradients.
#[verifier::spinoff_prover]
fn head_backward(
    a: &Attention,
    row: &[u32],
    d: &[u32],
    t: usize,
    head: usize,
    dq: &mut Vec<u32>,
    dk: &mut Vec<u32>,
    dv: &mut Vec<u32>,
    Ghost(exps): Ghost<Seq<Seq<u32>>>,
)
    requires
        a@.wf(),
        t < a.seq,
        head < a.cfg.heads,
        d@.len() == a.seq * a.cfg.hidden,
        row@.len() == t + 1,
        exps[t * a.cfg.heads + head] == row@,
        old(dq)@.len() == a.seq * a.cfg.hidden,
        old(dk)@ == a@.key_gradient(d@, exps, (t * a.cfg.heads + head) as nat),
        old(dv)@ == a@.value_gradient(d@, exps, (t * a.cfg.heads + head) as nat),
    ensures
        final(dk)@ == a@.key_gradient(d@, exps, (t * a.cfg.heads + head + 1) as nat),
        final(dv)@ == a@.value_gradient(d@, exps, (t * a.cfg.heads + head + 1) as nat),
        ({
            let base = t * a.cfg.hidden + head * a.cfg.head_size();
            let y = a@.query_sums(d@, row@, t as int, head as int);
            final(dq)@ == Seq::new(
                old(dq)@.len(),
                |s: int|
                    if base <= s < base + 2 * (a.cfg.head_size() / 2) {
                        single::sum(
                            old(dq)@[s],
                            rope::unrotated_at(y, a@.cos[t as int], a@.sin[t as int], s - base),
                        )
                    } else {
                        old(dq)@[s]
                    },
            )
        }),
{
    let ghost heads = a.cfg.heads as int;
    let ghost r: int = t * heads + head;
    let ghost v0 = a@.value_gradient(d@, exps, r as nat);
    let ghost v1 = a@.value_gradient(d@, exps, (r + 1) as nat);
    let ghost k0 = a@.key_gradient(d@, exps, r as nat);
    let ghost k1 = a@.key_gradient(d@, exps, (r + 1) as nat);
    let dh: usize = a.cfg.head_dim();
    let (ld, lq): (usize, usize) = (d.len(), dq.len());
    proof {
        attention::lemma_head_bounds(*a.cfg, a.seq as int, t as int, head as int);
        lora::lemma_position(t as int, head as int, a.seq as int, heads);
        lemma_mended(a@, d@, exps, r);
        assert(a@.cos[t as int].len() == dh / 2);
        assert(a@.sin[t as int].len() == dh / 2);
    }
    let kv: usize = a.kv_head(head);
    let from: usize = t * a.cfg.hidden + head * dh;
    let part = vstd::slice::slice_subrange(d, from, from + dh);
    assert(part@ == a@.head_part(d@, t as int, head as int));
    let qr = a.query_row(t, head);
    let scale: u32 = a.scale();
    let p = shares(row);
    let mut dp: Vec<u32> = Vec::new();
    let mut dot: u32 = 0;
    let mut i: usize = 0;
    while i <= t
        invariant
            i <= t + 1,
            a@.wf(),
            t < a.seq,
            head < a.cfg.heads,
            heads == a.cfg.heads,
            r == t * heads + head,
            r >= 0,
            r / heads == t,
            r % heads == head,
            kv == a.cfg.kv_of(head as int),
            kv < a.cfg.kv_heads,
            dh == a.cfg.head_size(),
            row@.len() == t + 1,
            exps[r] == row@,
            part@ == a@.head_part(d@, t as int, head as int),
            part@.len() == dh,
            p@.len() == t + 1,
            forall|j: int| 0 <= j <= t ==> #[trigger] p@[j] == attention::share(row@, j),
            dp@.len() == i,
            forall|j: int|
                0 <= j < i ==> #[trigger] dp@[j] == a@.share_gradient(
                    d@,
                    t as int,
                    head as int,
                    j,
                ),
            dot == a@.gradient_dot(d@, row@, t as int, head as int, i as nat),
            v0 == a@.value_gradient(d@, exps, r as nat),
            v1 == a@.value_gradient(d@, exps, (r + 1) as nat),
            dv@ == mended(a@, v0, v1, i as int),
        decreases t + 1 - i,
    {
        let v = a.value_row(i, kv);
        let g: u32 = dot_product(part, v);
        proof {
            reveal(AttentionView::share_gradient);
        }
        dp.push(g);
        dot = single::plus(dot, single::times(g, p[i]));
        let base: usize = a.kv_start(i, kv);
        let ghost before = dv@;
        add_scaled(dv, base, p[i], part);
        proof {
            lemma_value_step(a@, d@, exps, r, i as int, before, dv@);
        }
        i = i + 1;
    }
    let mut dqr = zeros(dh);
    let mut i: usize = 0;
    while i <= t
        invariant
            i <= t + 1,
            a@.wf(),
            t < a.seq,
            head < a.cfg.heads,
            heads == a.cfg.heads,
            r == t * heads + head,
            r >= 0,
            r / heads == t,
            r % heads == head,
            kv == a.cfg.kv_of(head as int),
            kv < a.cfg.kv_heads,
            dh == a.cfg.head_size(),
            row@.len() == t + 1,
            exps[r] == row@,
            scale == a@.scale(),
            p@.len() == t + 1,
            forall|j: int| 0 <= j <= t ==> #[trigger] p@[j] == attention::share(row@, j),
            dp@.len() == t + 1,
            forall|j: int|
                0 <= j <= t ==> #[trigger] dp@[j] == a@.share_gradient(
                    d@,
                    t as int,
                    head as int,
                    j,
                ),
            dot == a@.gradient_dot(d@, row@, t as int, head as int, (t + 1) as nat),
            qr@ == a@.query(t as int, head as int),
            qr@.len() == dh,
            dqr@.len() == dh,
            forall|j: int|
                0 <= j < dh ==> #[trigger] dqr@[j] == a@.query_sum(
                    d@,
                    row@,
                    t as int,
                    head as int,
                    j,
                    i as nat,
                ),
            k0 == a@.key_gradient(d@, exps, r as nat),
            k1 == a@.key_gradient(d@, exps, (r + 1) as nat),
            dk@ == mended(a@, k0, k1, i as int),
        decreases t + 1 - i,
    {
        let ds: u32 = single::times(single::times(p[i], single::minus(dp[i], dot)), scale);
        proof {
            reveal(AttentionView::score_gradient);
            assert(ds == a@.score_gradient(d@, row@, t as int, head as int, i as int));
        }
        let kr = a.key_row(i, kv);
        add_scaled(&mut dqr, 0, ds, kr.as_slice());
        let y = scaled(qr.as_slice(), ds);
        assert(y@ =~= a@.scaled_query(d@, row@, t as int, head as int, i as int));
        let base: usize = a.kv_start(i, kv);
        let ghost before = dk@;
        proof {
            assert(a@.cos[i as int].len() == dh / 2);
            assert(a@.sin[i as int].len() == dh / 2);
        }
        add_unrotated(dk, base, y.as_slice(), a.cos[i].as_slice(), a.sin[i].as_slice());
        proof {
            lemma_key_step(a@, d@, exps, r, i as int, before, dk@);
        }
        i = i + 1;
    }
    assert(dqr@ =~= a@.query_sums(d@, row@, t as int, head as int));
    add_unrotated(dq, from, dqr.as_slice(), a.cos[t].as_slice(), a.sin[t].as_slice());
}

/// `c * x`, element by element.
fn scaled(x: &[u32], c: u32) -> (r: Vec<u32>)
    ensures
        r@ == Seq::new(x@.len(), |j: int| single::product(c, x@[j])),
{
    let mut out: Vec<u32> = Vec::new();
    let mut j: usize = 0;
    while j < x.len()
        invariant
            j <= x@.len(),
            out@.len() == j,
            forall|i: int| 0 <= i < j ==> #[trigger] out@[i] == single::product(c, x@[i]),
        decreases x@.len() - j,
    {
        out.push(single::times(c, x[j]));
        j = j + 1;
    }
    assert(out@ =~= Seq::new(x@.len(), |j: int| single::product(c, x@[j])));
    out
}

/// `dL/dQ` of which the parts before row `r` of exponentials are done.
spec fn queries_done(a: AttentionView, want: Seq<u32>, r: int) -> Seq<u32> {
    let (h, dh, heads) = (a.cfg.hidden as int, a.cfg.head_size(), a.cfg.heads as int);
    Seq::new(
        want.len(),
        |s: int|
            if s % h < heads * dh && (s / h) * heads + (s % h) / dh < r {
                want[s]
            } else {
                0
            },
    )
}

/// A head's part makes one more row done.
proof fn lemma_query_step(
    a: AttentionView,
    d: Seq<u32>,
    exps: Seq<Seq<u32>>,
    t: int,
    head: int,
    next: Seq<u32>,
)
    requires
        a.wf(),
        0 <= t < a.seq,
        0 <= head < a.cfg.heads,
        ({
            let r = t * a.cfg.heads + head;
            let base = t * a.cfg.hidden + head * a.cfg.head_size();
            let now = queries_done(a, a.query_gradient(d, exps), r);
            let y = a.query_sums(d, exps[r], t, head);
            next == Seq::new(
                now.len(),
                |s: int|
                    if base <= s < base + 2 * (a.cfg.head_size() / 2) {
                        single::sum(
                            now[s],
                            rope::unrotated_at(y, a.cos[t], a.sin[t], s - base),
                        )
                    } else {
                        now[s]
                    },
            )
        }),
    ensures
        next == queries_done(a, a.query_gradient(d, exps), t * a.cfg.heads + head + 1),
{
    let (h, dh, heads) = (a.cfg.hidden as int, a.cfg.head_size(), a.cfg.heads as int);
    let r = t * heads + head;
    let base = t * h + head * dh;
    let want = queries_done(a, a.query_gradient(d, exps), r + 1);
    attention::lemma_head_bounds(a.cfg, a.seq, t, head);
    assert forall|s: int| 0 <= s < next.len() implies #[trigger] next[s] == want[s] by {
        lora::lemma_cell(s, a.seq, h);
        let (ts, c) = (s / h, s % h);
        if c < heads * dh {
            lora::lemma_cell(c, heads, dh);
            let (hs, j) = (c / dh, c % dh);
            if ts == t && hs == head {
                assert(s == base + j);
            } else {
                // Another head's part.
                assert(ts * heads + hs != r) by {
                    if ts * heads + hs == r {
                        lora::lemma_position(ts, hs, a.seq, heads);
                        lora::lemma_position(t, head, a.seq, heads);
                    }
                }
                if ts == t {
                    lemma_part(hs, head, j, dh);
                } else {
                    lemma_part(ts, t, c, h);
                }
            }
        } else {
            if ts == t {
                assert(head * dh + dh <= heads * dh) by (nonlinear_arith)
                    requires
                        head + 1 <= heads,
                        dh > 0,
                ;
            } else {
                lemma_part(ts, t, c, h);
            }
        }
    }
    assert(next =~= want);
}

/// Causal GQA attention backward with RoPE, from the upstream gradient `d`
/// and the exponentials of the forward pass.
///
/// Returns `(dQ (s,h), dK (s,kv_dim), dV (s,kv_dim))`.
pub fn attention_backward(a: &Attention, exps: &[Vec<u32>], d: &[u32]) -> (r: (
    Vec<u32>,
    Vec<u32>,
    Vec<u32>,
))
    requires
        a@.wf(),
        a@.has_rows(lora::lists(exps@)),
        d@.len() == a.seq * a.cfg.hidden,
    ensures
        r.0@ == a@.query_gradient(d@, lora::lists(exps@)),
        r.1@ == a@.key_gradient(d@, lora::lists(exps@), exps@.len()),
        r.2@ == a@.value_gradient(d@, lora::lists(exps@), exps@.len()),
{
    let ghost rows = lora::lists(exps@);
    let ghost want = a@.query_gradient(d@, rows);
    let heads: usize = a.cfg.heads;
    let n: usize = d.len();
    let m: usize = a.k.len();
    let mut dq = zeros(n);
    let mut dk = zeros(m);
    let mut dv = zeros(m);
    let mut t: usize = 0;
    proof {
        assert(0 * heads == 0);
        assert(dq@ =~= queries_done(a@, want, 0)) by {
            assert forall|s: int| 0 <= s < n implies #[trigger] queries_done(a@, want, 0)[s] == 0 by {
                let (h, dh) = (a.cfg.hidden as int, a.cfg.head_size());
                lora::lemma_cell(s, a.seq as int, h);
                let (ts, c) = (s / h, s % h);
                if c < heads * dh {
                    lora::lemma_cell(c, heads as int, dh);
                    assert(ts * heads >= 0) by (nonlinear_arith)
                        requires
                            ts >= 0,
                    ;
                }
            }
        }
        assert(dk@ =~= a@.key_gradient(d@, rows, 0));
        assert(dv@ =~= a@.value_gradient(d@, rows, 0));
    }
    while t < a.seq
        invariant
            t <= a.seq,
            a@.wf(),
            heads == a.cfg.heads,
            rows == lora::lists(exps@),
            a@.has_rows(rows),
            n == d@.len() == a.seq * a.cfg.hidden,
            want == a@.query_gradient(d@, rows),
            dq@ == queries_done(a@, want, t * heads),
            dk@ == a@.key_gradient(d@, rows, (t * heads) as nat),
            dv@ == a@.value_gradient(d@, rows, (t * heads) as nat),
        decreases a.seq - t,
    {
        let mut head: usize = 0;
        while head < heads
            invariant
                head <= heads,
                t < a.seq,
                a@.wf(),
                heads == a.cfg.heads,
                rows == lora::lists(exps@),
                a@.has_rows(rows),
                n == d@.len() == a.seq * a.cfg.hidden,
                want == a@.query_gradient(d@, rows),
                dq@ == queries_done(a@, want, t * heads + head),
                dk@ == a@.key_gradient(d@, rows, (t * heads + head) as nat),
                dv@ == a@.value_gradient(d@, rows, (t * heads + head) as nat),
            decreases heads - head,
        {
            proof {
                lora::lemma_position(t as int, head as int, a.seq as int, heads as int);
                assert(rows[t * heads + head].len() == t + 1);
            }
            let count: usize = exps.len();
            let row = &exps[t * heads + head];
            head_backward(
                a,
                row.as_slice(),
                d,
                t,
                head,
                &mut dq,
                &mut dk,
                &mut dv,
                Ghost(rows),
            );
            proof {
                lemma_query_step(a@, d@, rows, t as int, head as int, dq@);
            }
            head = head + 1;
        }
        proof {
            assert((t + 1) * heads == t * heads + heads) by (nonlinear_arith);
        }
        t = t + 1;
    }
    proof {
        assert forall|s: int| 0 <= s < n implies #[trigger] dq@[s] == want[s] by {
            let (h, dh) = (a.cfg.hidden as int, a.cfg.head_size());
            lora::lemma_cell(s, a.seq as int, h);
            let (ts, c) = (s / h, s % h);
            if c < heads * dh {
                lora::lemma_cell(c, heads as int, dh);
                lora::lemma_position(ts, c / dh, a.seq as int, heads as int);
            }
        }
        assert(dq@ =~= want);
    }
    (dq, dk, dv)
}

/// Causal GQA attention backward over `seq` positions, with the rotations that
/// the settings call for; the exponentials are taken anew.
///
/// Returns `(dQ (s,h), dK (s,kv_dim), dV (s,kv_dim))`.
pub fn attention_backward_with<
    P: Fn(u32, u32) -> u32,
    C: Fn(u32) -> u32,
    S: Fn(u32) -> u32,
    E: Fn(u32) -> u32,
>(
    cfg: &LlamaConfig,
    q: &[u32],
    k: &[u32],
    v: &[u32],
    d: &[u32],
    seq: usize,
    powf: &P,
    cosine: &C,
    sine: &S,
    exp: &E,
) -> (r: (Vec<u32>, Vec<u32>, Vec<u32>))
    requires
        cfg.grouped(),
        q@.len() == seq * cfg.hidden,
        k@.len() == seq * cfg.kv_size(),
        v@.len() == seq * cfg.kv_size(),
        d@.len() == seq * cfg.hidden,
        forall|x: u32, y: u32| #[trigger] powf.requires((x, y)),
        forall|x: u32| #[trigger] cosine.requires((x,)),
        forall|x: u32| #[trigger] sine.requires((x,)),
        forall|x: u32| #[trigger] exp.requires((x,)),
    ensures
        exists|a: AttentionView, exps: Seq<Seq<u32>>|
            {
                &&& #[trigger] a.reads(*cfg, q@, k@, v@, seq as int, *powf, *cosine, *sine)
                &&& a.has_rows(exps)
                &&& #[trigger] a.answered(*exp, exps)
                &&& r.0@ == a.query_gradient(d@, exps)
                &&& r.1@ == a.key_gradient(d@, exps, exps.len())
                &&& r.2@ == a.value_gradient(d@, exps, exps.len())
            },
{
    let (cos, sin) = rope::rope_tables(cfg, seq, powf, cosine, sine);
    let a = Attention { cfg, seq, q, k, v, cos: cos.as_slice(), sin: sin.as_slice() };
    assert(a@.reads(*cfg, q@, k@, v@, seq as int, *powf, *cosine, *sine));
    let (_, exps) = attention::attention(&a, exp);
    assert(a@.answered(*exp, lora::lists(exps@)));
    attention_backward(&a, exps.as_slice(), d)
}

} // verus!
