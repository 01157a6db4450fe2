//! Handing adapters to an optimizer and back.
use crate::lora;
use crate::lora::copied;
use crate::model::block_grad;
use crate::model::block_grad::{AdapterGrad, AdapterGradView};
use crate::model::config::LoadError;
use crate::model::llama;
use crate::model::llama::{LlamaModel, ModelView};
use vstd::prelude::*;

verus! {

/// Whether every gradient belongs to an adapter of the model.
pub open spec fn all_attached(m: ModelView, grads: Seq<AdapterGradView>) -> bool {
    forall|i: int|
        0 <= i < grads.len() ==> llama::adapter_at(
            m,
            (#[trigger] grads[i]).layer as int,
            grads[i].kind,
        ) is Some
}

/// The matrices `[A, B, A, B, ...]` in the order of the gradients.
pub open spec fn matrices(m: ModelView, grads: Seq<AdapterGradView>) -> Seq<Seq<u32>> {
    Seq::new(
        2 * grads.len(),
        |i: int|
            {
                let g = grads[i / 2];
                let ad = llama::adapter_at(m, g.layer as int, g.kind)->0;
                if i % 2 == 0 {
                    ad.a
                } else {
                    ad.b
                }
            },
    )
}

/// The gradients `[dA, dB, dA, dB, ...]`.
pub open spec fn flattened(grads: Seq<AdapterGradView>) -> Seq<Seq<u32>> {
    Seq::new(
        2 * grads.len(),
        |i: int|
            if i % 2 == 0 {
                grads[i / 2].grad_a
            } else {
                grads[i / 2].grad_b
            },
    )
}

/// The model after the first `n` adapters were written, as far as they could
/// be, and what stopped the first that could not.
pub open spec fn written(
    m: ModelView,
    grads: Seq<AdapterGradView>,
    params: Seq<Seq<u32>>,
    n: nat,
) -> (ModelView, Option<Seq<char>>)
    decreases n,
{
    if n == 0 {
        (m, None)
    } else {
        let before = written(m, grads, params, (n - 1) as nat);
        let g = grads[n - 1];
        let (a, b) = (params[2 * n - 2], params[2 * n - 1]);
        if before.1 is Some {
            before
        } else {
            match llama::write_fault(before.0, g.layer as nat, g.kind, a, b) {
                Some(e) => (before.0, Some(e)),
                None => (llama::with_adapter(before.0, g.layer as int, g.kind, a, b), None),
            }
        }
    }
}

impl LlamaModel {
    /// Parameters and gradients for an optimizer, as `[A, B, A, B, ...]` in
    /// the order of the gradients; `None` where a gradient has no adapter.
    pub fn parameters(&self, grads: &[AdapterGrad]) -> (r: Option<(Vec<Vec<u32>>, Vec<Vec<u32>>)>)
        ensures
            match r {
                Some(p) => {
                    &&& all_attached(self@, block_grad::grad_views(grads@))
                    &&& lora::lists(p.0@) == matrices(self@, block_grad::grad_views(grads@))
                    &&& lora::lists(p.1@) == flattened(block_grad::grad_views(grads@))
                },
                None => !all_attached(self@, block_grad::grad_views(grads@)),
            },
    {
        let ghost all = block_grad::grad_views(grads@);
        let mut params: Vec<Vec<u32>> = Vec::new();
        let mut gs: Vec<Vec<u32>> = Vec::new();
        let mut i: usize = 0;
        while i < grads.len()
            invariant
                i <= grads@.len(),
                all == block_grad::grad_views(grads@),
                params@.len() == 2 * i,
                gs@.len() == 2 * i,
                forall|j: int|
                    0 <= j < i ==> llama::adapter_at(
                        self@,
                        (#[trigger] all[j]).layer as int,
                        all[j].kind,
                    ) is Some,
                forall|j: int|
                    0 <= j < 2 * i ==> #[trigger] params@[j]@ == matrices(self@, all)[j],
                forall|j: int| 0 <= j < 2 * i ==> #[trigger] gs@[j]@ == flattened(all)[j],
            decreases grads@.len() - i,
        {
            assert(all[i as int] == grads@[i as int]@);
            match self.adapter_ab(grads[i].layer, grads[i].kind) {
                None => {
                    return None;
                },
                Some((a, b)) => {
                    params.push(a);
                    params.push(b);
                    gs.push(copied(grads[i].grad_a.as_slice()));
                    gs.push(copied(grads[i].grad_b.as_slice()));
                },
            }
            i = i + 1;
        }
        assert(lora::lists(params@) =~= matrices(self@, all));
        assert(lora::lists(gs@) =~= flattened(all));
        Some((params, gs))
    }

    /// Writes updated parameters, in the order that [`Self::parameters`] gave
    /// them in, back into the adapters. Where one does not fit, those before
    /// it have been written.
    pub fn write_back(&mut self, grads: &[AdapterGrad], params: &[Vec<u32>]) -> (r: Result<
        (),
        LoadError,
    >)
        requires
            params@.len() == 2 * grads@.len(),
        ensures
            ({
                let w = written(
                    old(self)@,
                    block_grad::grad_views(grads@),
                    lora::lists(params@),
                    grads@.len(),
                );
                &&& final(self)@ == w.0
                &&& match w.1 {
                    Some(m) => r matches Err(e) && e@ == m,
                    None => r is Ok,
                }
            }),
    {
        let ghost all = block_grad::grad_views(grads@);
        let ghost lists = lora::lists(params@);
        let ghost me = self@;
        let count: usize = params.len();
        let mut i: usize = 0;
        while i < grads.len()
            invariant
                i <= grads@.len(),
                count == params@.len() == 2 * grads@.len(),
                all == block_grad::grad_views(grads@),
                lists == lora::lists(params@),
                me == old(self)@,
                written(me, all, lists, i as nat) == (self@, None::<Seq<char>>),
            decreases grads@.len() - i,
        {
            let g = &grads[i];
            assert(all[i as int] == g@);
            assert(lists[2 * i] == params@[2 * i]@);
            assert(lists[2 * i + 1] == params@[2 * i + 1]@);
            match self.set_adapter_weights(
                g.layer,
                g.kind,
                params[2 * i].as_slice(),
                params[2 * i + 1].as_slice(),
            ) {
                Ok(_) => {},
                Err(e) => {
                    proof {
                        lemma_stopped(me, all, lists, (i + 1) as nat, grads@.len());
                    }
                    return Err(e);
                },
            }
            i = i + 1;
        }
        Ok(())
    }
}

/// Nothing is written behind a fault.
proof fn lemma_stopped(
    m: ModelView,
    grads: Seq<AdapterGradView>,
    params: Seq<Seq<u32>>,
    i: nat,
    n: nat,
)
    requires
        i <= n,
        written(m, grads, params, i).1 is Some,
    ensures
        written(m, grads, params, n) == written(m, grads, params, i),
    decreases n - i,
{
    if i < n {
        lemma_stopped(m, grads, params, i, (n - 1) as nat);
    }
}

} // verus!
