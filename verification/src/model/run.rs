//! The forward and backward pass of the whole model.
use crate::lora;
use crate::lora::{matmul, matmul_trans_b};
use crate::model::block;
use crate::model::block::{block_forward, BlockCache, CacheView, Tables, TablesView};
use crate::model::block_grad;
use crate::model::block_grad::{block_backward, AdapterGrad, AdapterGradView};
use crate::model::llama::{LlamaModel, ModelView};
use crate::model::norm;
use crate::model::norm::{rmsnorm_backward, rmsnorm_in_place};
use crate::model::rope;
use vstd::prelude::*;

verus! {

impl ModelView {
    /// The embeddings of token ids, row by row.
    pub open spec fn embedded(self, ids: Seq<u32>) -> Seq<u32> {
        let h = self.cfg.hidden as int;
        lora::matrix(ids.len() as int, h, |t: int, c: int| self.embed[ids[t] * h + c])
    }

    /// What the first `n` blocks make of the embeddings.
    pub open spec fn hidden(self, ids: Seq<u32>, caches: Seq<CacheView>, n: int) -> Seq<u32> {
        if n == 0 {
            self.embedded(ids)
        } else {
            caches[n - 1].output(self.cfg, self.layers[n - 1], ids.len() as int)
        }
    }

    /// Whether the records are those of the blocks, one after the other, with
    /// exponentials as `exp` gives them.
    pub open spec fn traced<E: Fn(u32) -> u32>(
        self,
        ids: Seq<u32>,
        t: TablesView,
        exp: E,
        caches: Seq<CacheView>,
    ) -> bool {
        &&& caches.len() <= self.layers.len()
        &&& forall|i: int|
            0 <= i < caches.len() ==> (#[trigger] caches[i]).x_in == self.hidden(ids, caches, i)
                && caches[i].recorded(self.cfg, self.layers[i], ids.len() as int, t, exp)
    }

    /// The logits: `H . E^T` with the normalized last hidden state `H`.
    pub open spec fn logits(self, ids: Seq<u32>, caches: Seq<CacheView>) -> Seq<u32> {
        lora::product_of_right(
            norm::normalized(
                self.hidden(ids, caches, self.layers.len() as int),
                self.final_norm,
                self.cfg.rms_eps,
            ),
            self.embed,
            ids.len() as int,
            self.cfg.hidden as int,
            self.cfg.vocab as int,
        )
    }

    /// `dL/dx` of the last block's output, through the tied head.
    pub open spec fn head_gradient(
        self,
        ids: Seq<u32>,
        caches: Seq<CacheView>,
        dlogits: Seq<u32>,
    ) -> Seq<u32> {
        let dx_head = lora::product_of(
            dlogits,
            self.embed,
            ids.len() as int,
            self.cfg.vocab as int,
            self.cfg.hidden as int,
        );
        norm::input_gradient(
            self.hidden(ids, caches, self.layers.len() as int),
            self.final_norm,
            dx_head,
            self.cfg.rms_eps,
        )
    }

    /// The adapter gradients of the first `n` layers, last layer first, added
    /// to `grads`.
    pub open spec fn layer_gradients(
        self,
        caches: Seq<CacheView>,
        seq: int,
        t: TablesView,
        n: nat,
        dx: Seq<u32>,
        grads: Seq<AdapterGradView>,
    ) -> Seq<AdapterGradView>
        decreases n,
    {
        if n == 0 {
            grads
        } else {
            let i = n - 1;
            let b = block_grad::block_gradients(
                caches[i],
                self.cfg,
                self.layers[i],
                seq,
                t,
                i as usize,
                dx,
                grads,
            );
            self.layer_gradients(caches, seq, t, i as nat, b.0, b.1)
        }
    }

    /// One gradient per attached adapter, last layer first.
    pub open spec fn gradients(
        self,
        ids: Seq<u32>,
        t: TablesView,
        caches: Seq<CacheView>,
        dlogits: Seq<u32>,
    ) -> Seq<AdapterGradView> {
        self.layer_gradients(
            caches,
            ids.len() as int,
            t,
            self.layers.len(),
            self.head_gradient(ids, caches, dlogits),
            seq![],
        )
    }

    /// Whether the model runs on such ids and rotations on this machine.
    pub open spec fn runs(self, ids: Seq<u32>, t: TablesView) -> bool {
        &&& self.takes(ids)
        &&& self.layers.len() > 0 ==> block::tables_for(t, self.cfg, ids.len() as int)
    }

    /// Whether `t` holds the rotations that `powf`, `cosine` and `sine` give
    /// for the positions of the ids, where any are needed.
    pub open spec fn rotates<P: Fn(u32, u32) -> u32, C: Fn(u32) -> u32, S: Fn(u32) -> u32>(
        self,
        ids: Seq<u32>,
        t: TablesView,
        powf: P,
        cosine: C,
        sine: S,
    ) -> bool {
        self.layers.len() > 0 ==> rope::is_built(
            self.cfg,
            powf,
            cosine,
            sine,
            ids.len() as int,
            t.cos,
            t.sin,
        )
    }

    /// Whether the model runs on such ids on this machine.
    pub open spec fn takes(self, ids: Seq<u32>) -> bool {
        let seq = ids.len() as int;
        &&& self.wf()
        &&& self.cfg.hidden > 0
        &&& seq * self.cfg.hidden <= usize::MAX
        &&& seq * self.cfg.vocab <= usize::MAX
        &&& forall|i: int| 0 <= i < seq ==> #[trigger] ids[i] < self.cfg.vocab
        &&& forall|i: int|
            0 <= i < self.layers.len() ==> block::block_runs(
                self.cfg,
                #[trigger] self.layers[i],
                seq,
            )
    }
}

/// The models of block records.
pub open spec fn cache_views(caches: Seq<BlockCache>) -> Seq<CacheView> {
    Seq::new(caches.len(), |i: int| caches[i]@)
}

/// One more block.
proof fn lemma_traced_more<E: Fn(u32) -> u32>(
    m: ModelView,
    ids: Seq<u32>,
    t: TablesView,
    exp: E,
    caches: Seq<CacheView>,
    c: CacheView,
)
    requires
        m.traced(ids, t, exp, caches),
        caches.len() < m.layers.len(),
        c.x_in == m.hidden(ids, caches, caches.len() as int),
        c.recorded(m.cfg, m.layers[caches.len() as int], ids.len() as int, t, exp),
    ensures
        m.traced(ids, t, exp, caches.push(c)),
        m.hidden(ids, caches.push(c), (caches.len() + 1) as int) == c.output(
            m.cfg,
            m.layers[caches.len() as int],
            ids.len() as int,
        ),
{
    let next = caches.push(c);
    assert forall|i: int| 0 <= i < next.len() implies (#[trigger] next[i]).x_in == m.hidden(
        ids,
        next,
        i,
    ) && next[i].recorded(m.cfg, m.layers[i], ids.len() as int, t, exp) by {
        assert(m.hidden(ids, next, i) == m.hidden(ids, caches, i)) by {
            if i > 0 {
                assert(next[i - 1] == caches[i - 1]);
            }
        }
        if i < caches.len() {
            assert(next[i] == caches[i]);
        }
    }
}

impl LlamaModel {
    /// Embedding gather.
    fn embed_ids(&self, ids: &[u32]) -> (r: Vec<u32>)
        requires
            self@.wf(),
            self.cfg.hidden > 0,
            forall|i: int| 0 <= i < ids@.len() ==> #[trigger] ids@[i] < self.cfg.vocab,
        ensures
            r@ == self@.embedded(ids@),
            forall|t: int|
                0 <= t < ids@.len() ==> r@.subrange(
                    t * self.cfg.hidden,
                    t * self.cfg.hidden + self.cfg.hidden,
                ) == self.embed@.subrange(
                    #[trigger] ids@[t] * self.cfg.hidden,
                    ids@[t] * self.cfg.hidden + self.cfg.hidden,
                ),
    {
        let h: usize = self.cfg.hidden;
        let size: usize = self.embed.len();
        let ghost want = self@.embedded(ids@);
        let mut x: Vec<u32> = Vec::new();
        let mut t: usize = 0;
        assert(0 * h == 0);
        while t < ids.len()
            invariant
                t <= ids@.len(),
                h == self.cfg.hidden,
                h > 0,
                self@.wf(),
                size == self.embed@.len(),
                forall|i: int| 0 <= i < ids@.len() ==> #[trigger] ids@[i] < self.cfg.vocab,
                want == self@.embedded(ids@),
                x@.len() == t * h,
                forall|s: int| 0 <= s < x@.len() ==> #[trigger] x@[s] == want[s],
            decreases ids@.len() - t,
        {
            let id: usize = ids[t] as usize;
            let ghost x0 = x@;
            proof {
                assert(ids@[t as int] < self.cfg.vocab);
                lora::lemma_position(id as int, 0, self.cfg.vocab as int, h as int);
                lora::lemma_position(id as int, h - 1, self.cfg.vocab as int, h as int);
                assert((t + 1) * h == t * h + h) by (nonlinear_arith);
            }
            let base: usize = id * h;
            let mut c: usize = 0;
            while c < h
                invariant
                    c <= h,
                    h == self.cfg.hidden,
                    self@.wf(),
                    t < ids@.len(),
                    id == ids@[t as int],
                    base == id * h,
                    base + h <= size,
                    size == self.embed@.len(),
                    want == self@.embedded(ids@),
                    x@.len() == t * h + c,
                    forall|s: int| 0 <= s < x@.len() ==> #[trigger] x@[s] == want[s],
                decreases h - c,
            {
                proof {
                    lora::lemma_position(t as int, c as int, ids@.len() as int, h as int);
                }
                x.push(self.embed[base + c]);
                c = c + 1;
            }
            t = t + 1;
        }
        assert(x@ =~= want);
        proof {
            assert forall|t: int| 0 <= t < ids@.len() implies x@.subrange(t * h, t * h + h)
                == self.embed@.subrange(#[trigger] ids@[t] * h, ids@[t] * h + h) by {
                let n = ids@.len() as int;
                lora::lemma_position(t, h - 1, n, h as int);
                lora::lemma_position(ids@[t] as int, h - 1, self.cfg.vocab as int, h as int);
                let (a, b) = (
                    x@.subrange(t * h, t * h + h),
                    self.embed@.subrange(ids@[t] * h, ids@[t] * h + h),
                );
                assert forall|c: int| 0 <= c < h implies a[c] == b[c] by {
                    lora::lemma_position(t, c, n, h as int);
                }
                assert(a =~= b);
            }
        }
        x
    }

    /// Runs the blocks, returning their records and the last hidden state.
    pub fn record<E: Fn(u32) -> u32>(&self, ids: &[u32], tables: &Tables, exp: &E) -> (r: (
        Vec<BlockCache>,
        Vec<u32>,
    ))
        requires
            self@.runs(ids@, tables@),
            forall|x: u32| #[trigger] exp.requires((x,)),
        ensures
            r.0@.len() == self.layers@.len(),
            self@.traced(ids@, tables@, *exp, cache_views(r.0@)),
            r.1@ == self@.hidden(ids@, cache_views(r.0@), r.0@.len() as int),
            r.1@.len() == ids@.len() * self.cfg.hidden,
    {
        let seq: usize = ids.len();
        let mut x = self.embed_ids(ids);
        let mut caches: Vec<BlockCache> = Vec::new();
        let mut i: usize = 0;
        while i < self.layers.len()
            invariant
                i <= self.layers@.len(),
                seq == ids@.len(),
                self@.runs(ids@, tables@),
                forall|x: u32| #[trigger] exp.requires((x,)),
                caches@.len() == i,
                self@.traced(ids@, tables@, *exp, cache_views(caches@)),
                x@ == self@.hidden(ids@, cache_views(caches@), i as int),
                x@.len() == seq * self.cfg.hidden,
            decreases self.layers@.len() - i,
        {
            let ghost before = cache_views(caches@);
            assert(self@.layers[i as int] == self.layers@[i as int]@);
            let c = block_forward(&self.cfg, &self.layers[i], &mut x, seq, tables, exp);
            let ghost v = c@;
            caches.push(c);
            proof {
                assert(cache_views(caches@) =~= before.push(v));
                lemma_traced_more(self@, ids@, tables@, *exp, before, v);
            }
            i = i + 1;
        }
        (caches, x)
    }

    /// Forward over `ids`, returning row-major `(seq, vocab)` logits.
    ///
    /// `exp` works on binary32 bit patterns.
    pub fn forward<E: Fn(u32) -> u32>(&self, ids: &[u32], tables: &Tables, exp: &E) -> (r: Vec<u32>)
        requires
            self@.runs(ids@, tables@),
            forall|x: u32| #[trigger] exp.requires((x,)),
        ensures
            exists|caches: Seq<CacheView>|
                {
                    &&& caches.len() == self@.layers.len()
                    &&& #[trigger] self@.traced(ids@, tables@, *exp, caches)
                    &&& r@ == self@.logits(ids@, caches)
                },
            r@.len() == ids@.len() * self.cfg.vocab,
    {
        let cfg = &self.cfg;
        let seq: usize = ids.len();
        let (caches, mut x) = self.record(ids, tables, exp);
        rmsnorm_in_place(&mut x, self.final_norm.as_slice(), cfg.rms_eps);
        // Tied head: logits = H . E^T.
        let r = matmul_trans_b(x.as_slice(), self.embed.as_slice(), seq, cfg.hidden, cfg.vocab);
        assert(self@.traced(ids@, tables@, *exp, cache_views(caches@)));
        r
    }

    /// Backward pass returning one [`AdapterGrad`] per attached adapter.
    ///
    /// Runs forward with recording, then backpropagates `dlogits`
    /// (`(seq, vocab)`, e.g. from
    /// [`softmax_cross_entropy`](crate::model::loss::softmax_cross_entropy))
    /// through the tied head, all blocks, and into every adapter. Base weights
    /// stay frozen (only adapter `dA`/`dB` are produced).
    pub fn backward<E: Fn(u32) -> u32>(
        &self,
        ids: &[u32],
        dlogits: &[u32],
        tables: &Tables,
        exp: &E,
    ) -> (r: Vec<AdapterGrad>)
        requires
            self@.runs(ids@, tables@),
            dlogits@.len() == ids@.len() * self.cfg.vocab,
            forall|x: u32| #[trigger] exp.requires((x,)),
        ensures
            exists|caches: Seq<CacheView>|
                {
                    &&& caches.len() == self@.layers.len()
                    &&& #[trigger] self@.traced(ids@, tables@, *exp, caches)
                    &&& block_grad::grad_views(r@) == self@.gradients(
                        ids@,
                        tables@,
                        caches,
                        dlogits@,
                    )
                },
    {
        let (caches, x) = self.record(ids, tables, exp);
        proof {
            assert(self@.traced(ids@, tables@, *exp, cache_views(caches@)));
            assert forall|i: int| 0 <= i < caches@.len() implies #[trigger] block_grad::sized(
                cache_views(caches@)[i],
                self.cfg,
                ids@.len() as int,
                tables@,
            ) by {
                lemma_sizes(self@, ids@, tables@, *exp, cache_views(caches@), i);
            }
        }
        self.backward_from(ids, dlogits, tables, &caches, x.as_slice())
    }

    /// Backward from the records of a forward pass and its last hidden state.
    pub fn backward_from(
        &self,
        ids: &[u32],
        dlogits: &[u32],
        tables: &Tables,
        caches: &Vec<BlockCache>,
        x: &[u32],
    ) -> (r: Vec<AdapterGrad>)
        requires
            self@.runs(ids@, tables@),
            dlogits@.len() == ids@.len() * self.cfg.vocab,
            caches@.len() == self.layers@.len(),
            x@ == self@.hidden(ids@, cache_views(caches@), caches@.len() as int),
            x@.len() == ids@.len() * self.cfg.hidden,
            forall|i: int|
                0 <= i < caches@.len() ==> #[trigger] block_grad::sized(
                    cache_views(caches@)[i],
                    self.cfg,
                    ids@.len() as int,
                    tables@,
                ),
        ensures
            block_grad::grad_views(r@) == self@.gradients(
                ids@,
                tables@,
                cache_views(caches@),
                dlogits@,
            ),
    {
        let cfg = &self.cfg;
        let seq: usize = ids.len();
        let h: usize = cfg.hidden;
        let ghost all = cache_views(caches@);
        let ghost want = self@.gradients(ids@, tables@, all, dlogits@);
        // Tied head backward (embedding grads discarded: frozen).
        let dx_head = matmul(dlogits, self.embed.as_slice(), seq, cfg.vocab, h);
        let (mut dx, _) = rmsnorm_backward(
            x,
            self.final_norm.as_slice(),
            dx_head.as_slice(),
            cfg.rms_eps,
        );
        let mut grads: Vec<AdapterGrad> = Vec::new();
        let mut i: usize = self.layers.len();
        assert(block_grad::grad_views(grads@) =~= seq![]);
        while i > 0
            invariant
                i <= self.layers@.len() == caches@.len(),
                *cfg == self.cfg,
                seq == ids@.len(),
                h == cfg.hidden,
                self@.runs(ids@, tables@),
                all == cache_views(caches@),
                forall|i: int|
                    0 <= i < caches@.len() ==> #[trigger] block_grad::sized(
                        all[i],
                        self.cfg,
                        seq as int,
                        tables@,
                    ),
                dx@.len() == seq * h,
                want == self@.layer_gradients(
                    all,
                    seq as int,
                    tables@,
                    i as nat,
                    dx@,
                    block_grad::grad_views(grads@),
                ),
            decreases i,
        {
            i = i - 1;
            proof {
                assert(self@.layers[i as int] == self.layers@[i as int]@);
                assert(block_grad::sized(all[i as int], self.cfg, seq as int, tables@));
                assert(all[i as int] == caches@[i as int]@);
            }
            dx = block_backward(
                cfg,
                &self.layers[i],
                &caches[i],
                seq,
                tables,
                dx.as_slice(),
                i,
                &mut grads,
            );
        }
        grads
    }
}

/// The sizes of recorded tensors.
proof fn lemma_sizes<E: Fn(u32) -> u32>(
    m: ModelView,
    ids: Seq<u32>,
    t: TablesView,
    exp: E,
    caches: Seq<CacheView>,
    i: int,
)
    requires
        m.runs(ids, t),
        m.traced(ids, t, exp, caches),
        0 <= i < caches.len(),
    ensures
        block_grad::sized(caches[i], m.cfg, ids.len() as int, t),
    decreases i,
{
    let seq = ids.len() as int;
    assert(block::block_runs(m.cfg, m.layers[i], seq));
    assert(caches[i].x_in == m.hidden(ids, caches, i));
    if i > 0 {
        lemma_sizes(m, ids, t, exp, caches, i - 1);
        assert(block::block_runs(m.cfg, m.layers[i - 1], seq));
        assert(caches[i - 1].x_in == m.hidden(ids, caches, i - 1));
        block::lemma_recorded_sizes(caches[i - 1], m.cfg, m.layers[i - 1], seq, t, exp);
    } else {
        let h = m.cfg.hidden as int;
        assert(seq * h >= 0) by (nonlinear_arith)
            requires
                seq >= 0,
                h >= 0,
        ;
    }
    block::lemma_recorded_sizes(caches[i], m.cfg, m.layers[i], seq, t, exp);
}

impl LlamaModel {
    /// The rotations for the positions of the ids, none for a model without
    /// layers.
    fn rotations<P: Fn(u32, u32) -> u32, C: Fn(u32) -> u32, S: Fn(u32) -> u32>(
        &self,
        ids: &[u32],
        powf: &P,
        cosine: &C,
        sine: &S,
    ) -> (r: (Vec<Vec<u32>>, Vec<Vec<u32>>))
        requires
            self@.takes(ids@),
            forall|x: u32, y: u32| #[trigger] powf.requires((x, y)),
            forall|x: u32| #[trigger] cosine.requires((x,)),
            forall|x: u32| #[trigger] sine.requires((x,)),
        ensures
            ({
                let t = TablesView { cos: lora::lists(r.0@), sin: lora::lists(r.1@) };
                self@.rotates(ids@, t, *powf, *cosine, *sine) && self@.runs(ids@, t)
            }),
    {
        if self.layers.len() == 0 {
            (Vec::new(), Vec::new())
        } else {
            assert(block::block_runs(self@.cfg, self@.layers[0], ids@.len() as int));
            rope::rope_tables(&self.cfg, ids.len(), powf, cosine, sine)
        }
    }

    /// Forward over `ids`, returning row-major `(seq, vocab)` logits, with the
    /// rotations that the settings call for.
    ///
    /// `powf`, `cosine`, `sine` and `exp` work on binary32 bit patterns.
    pub fn forward_with<
        P: Fn(u32, u32) -> u32,
        C: Fn(u32) -> u32,
        S: Fn(u32) -> u32,
        E: Fn(u32) -> u32,
    >(&self, ids: &[u32], powf: &P, cosine: &C, sine: &S, exp: &E) -> (r: Vec<u32>)
        requires
            self@.takes(ids@),
            forall|x: u32, y: u32| #[trigger] powf.requires((x, y)),
            forall|x: u32| #[trigger] cosine.requires((x,)),
            forall|x: u32| #[trigger] sine.requires((x,)),
            forall|x: u32| #[trigger] exp.requires((x,)),
        ensures
            exists|t: TablesView, caches: Seq<CacheView>|
                {
                    &&& #[trigger] self@.rotates(ids@, t, *powf, *cosine, *sine)
                    &&& caches.len() == self@.layers.len()
                    &&& #[trigger] self@.traced(ids@, t, *exp, caches)
                    &&& r@ == self@.logits(ids@, caches)
                },
            r@.len() == ids@.len() * self.cfg.vocab,
    {
        let (cos, sin) = self.rotations(ids, powf, cosine, sine);
        let tables = Tables { cos: cos.as_slice(), sin: sin.as_slice() };
        assert(self@.rotates(ids@, tables@, *powf, *cosine, *sine));
        self.forward(ids, &tables, exp)
    }

    /// Backward pass returning one [`AdapterGrad`] per attached adapter, with
    /// the rotations that the settings call for.
    pub fn backward_with<
        P: Fn(u32, u32) -> u32,
        C: Fn(u32) -> u32,
        S: Fn(u32) -> u32,
        E: Fn(u32) -> u32,
    >(
        &self,
        ids: &[u32],
        dlogits: &[u32],
        powf: &P,
        cosine: &C,
        sine: &S,
        exp: &E,
    ) -> (r: Vec<AdapterGrad>)
        requires
            self@.takes(ids@),
            dlogits@.len() == ids@.len() * self.cfg.vocab,
            forall|x: u32, y: u32| #[trigger] powf.requires((x, y)),
            forall|x: u32| #[trigger] cosine.requires((x,)),
            forall|x: u32| #[trigger] sine.requires((x,)),
            forall|x: u32| #[trigger] exp.requires((x,)),
        ensures
            exists|t: TablesView, caches: Seq<CacheView>|
                {
                    &&& #[trigger] self@.rotates(ids@, t, *powf, *cosine, *sine)
                    &&& caches.len() == self@.layers.len()
                    &&& #[trigger] self@.traced(ids@, t, *exp, caches)
                    &&& block_grad::grad_views(r@) == self@.gradients(ids@, t, caches, dlogits@)
                },
    {
        let (cos, sin) = self.rotations(ids, powf, cosine, sine);
        let tables = Tables { cos: cos.as_slice(), sin: sin.as_slice() };
        assert(self@.rotates(ids@, tables@, *powf, *cosine, *sine));
        self.backward(ids, dlogits, &tables, exp)
    }
}

} // verus!
