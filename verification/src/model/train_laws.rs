//! Parameters handed out and written back are those of the same adapters.
use crate::model::block_grad::AdapterGradView;
use crate::model::config::ProjKind;
use crate::model::laws;
use crate::model::llama;
use crate::model::llama::ModelView;
use crate::model::train;
use vstd::prelude::*;

verus! {

/// Whether no adapter occurs twice among the first `n` gradients.
pub open spec fn distinct(grads: Seq<AdapterGradView>, n: int) -> bool {
    forall|i: int, j: int|
        0 <= i < j < n ==> (#[trigger] grads[i]).layer != (#[trigger] grads[j]).layer
            || grads[i].kind != grads[j].kind
}

/// Whether there is a gradient for this place among the first `n`.
pub open spec fn has_place(
    grads: Seq<AdapterGradView>,
    n: int,
    layer: int,
    kind: ProjKind,
) -> bool {
    exists|i: int| 0 <= i < n && (#[trigger] grads[i]).layer == layer && grads[i].kind == kind
}

/// For each gradient the optimizer gets the matrices `A` and `B` of the adapter
/// that the gradient belongs to, and the gradients of both in the same places.
pub proof fn lemma_handed_out(m: ModelView, grads: Seq<AdapterGradView>, i: int)
    requires
        train::all_attached(m, grads),
        0 <= i < grads.len(),
    ensures
        ({
            let ad = llama::adapter_at(m, grads[i].layer as int, grads[i].kind);
            let (ps, gs) = (train::matrices(m, grads), train::flattened(grads));
            &&& ps.len() == 2 * grads.len()
            &&& gs.len() == 2 * grads.len()
            &&& ad is Some
            &&& ps[2 * i] == ad->0.a
            &&& ps[2 * i + 1] == ad->0.b
            &&& gs[2 * i] == grads[i].grad_a
            &&& gs[2 * i + 1] == grads[i].grad_b
        }),
{
    assert(llama::adapter_at(m, grads[i].layer as int, grads[i].kind) is Some);
    assert((2 * i) / 2 == i && (2 * i + 1) / 2 == i);
}

/// Writing back gives each adapter the two matrices in its place of the list and
/// leaves every other weight as it was.
pub proof fn lemma_written_back(
    m: ModelView,
    grads: Seq<AdapterGradView>,
    params: Seq<Seq<u32>>,
    n: nat,
)
    requires
        n <= grads.len(),
        params.len() == 2 * grads.len(),
        distinct(grads, n as int),
        train::written(m, grads, params, n).1 is None,
    ensures
        ({
            let after = train::written(m, grads, params, n).0;
            &&& forall|i: int| 0 <= i < n ==> #[trigger] holds_new(m, after, grads, params, i)
            &&& after.layers.len() == m.layers.len()
            &&& forall|l: int, k: ProjKind|
                0 <= l < m.layers.len() && !has_place(grads, n as int, l, k) ==> #[trigger]
                    after.layers[l].proj(k) == m.layers[l].proj(k)
            &&& forall|l: int|
                0 <= l < m.layers.len() ==> (#[trigger] after.layers[l]).attn_norm
                    == m.layers[l].attn_norm && after.layers[l].mlp_norm == m.layers[l].mlp_norm
            &&& after.cfg == m.cfg && after.embed == m.embed && after.final_norm == m.final_norm
        }),
    decreases n,
{
    if n > 0 {
        let prev = (n - 1) as nat;
        let before = train::written(m, grads, params, prev).0;
        let after = train::written(m, grads, params, n).0;
        let g = grads[n - 1];
        let (a, b) = (params[2 * n - 2], params[2 * n - 1]);
        lemma_written_back(m, grads, params, prev);
        laws::lemma_adapter_written(before, g.layer as nat, g.kind, a, b);
        assert(!has_place(grads, prev as int, g.layer as int, g.kind)) by {
            assert forall|i: int| 0 <= i < prev implies !((#[trigger] grads[i]).layer == g.layer
                && grads[i].kind == g.kind) by {
                assert(grads[n - 1] == g);
            }
        }
        assert(before.layers[g.layer as int].proj(g.kind) == m.layers[g.layer as int].proj(g.kind));
        assert forall|i: int| 0 <= i < n implies #[trigger] holds_new(m, after, grads, params, i) by {
            if i < prev {
                assert(holds_new(m, before, grads, params, i));
                let h = grads[i];
                assert(h.layer != g.layer || h.kind != g.kind);
                assert(after.layers[h.layer as int].proj(h.kind)
                    == before.layers[h.layer as int].proj(h.kind));
            }
        }
        assert forall|l: int, k: ProjKind|
            0 <= l < m.layers.len() && !has_place(grads, n as int, l, k) implies #[trigger]
                after.layers[l].proj(k) == m.layers[l].proj(k) by {
            assert(!has_place(grads, prev as int, l, k));
            assert(!(grads[n - 1].layer == l && grads[n - 1].kind == k));
            assert(after.layers[l].proj(k) == before.layers[l].proj(k));
        }
        assert forall|l: int| 0 <= l < m.layers.len() implies (#[trigger] after.layers[l]).attn_norm
            == m.layers[l].attn_norm && after.layers[l].mlp_norm == m.layers[l].mlp_norm by {
            assert(before.layers[l].attn_norm == m.layers[l].attn_norm);
        }
    }
}

/// Whether the adapter of gradient `i` was there and has the matrices in its
/// place of the list now; its sizes and scale are the old ones.
pub open spec fn holds_new(
    m: ModelView,
    after: ModelView,
    grads: Seq<AdapterGradView>,
    params: Seq<Seq<u32>>,
    i: int,
) -> bool {
    let (l, k) = (grads[i].layer as int, grads[i].kind);
    let (x, y) = (llama::adapter_at(m, l, k), llama::adapter_at(after, l, k));
    &&& l < m.layers.len()
    &&& x is Some
    &&& y is Some
    &&& y->0.a == params[2 * i]
    &&& y->0.b == params[2 * i + 1]
    &&& y->0.in_dim == x->0.in_dim
    &&& y->0.out_dim == x->0.out_dim
    &&& y->0.r == x->0.r
    &&& y->0.alpha == x->0.alpha
    &&& y->0.a.len() == x->0.a.len()
    &&& y->0.b.len() == x->0.b.len()
}

/// What is written back is what is handed out next.
pub proof fn lemma_read_after_write(
    m: ModelView,
    grads: Seq<AdapterGradView>,
    params: Seq<Seq<u32>>,
)
    requires
        params.len() == 2 * grads.len(),
        distinct(grads, grads.len() as int),
        train::written(m, grads, params, grads.len()).1 is None,
    ensures
        ({
            let after = train::written(m, grads, params, grads.len()).0;
            train::all_attached(after, grads) && train::matrices(after, grads) == params
        }),
{
    let after = train::written(m, grads, params, grads.len()).0;
    lemma_written_back(m, grads, params, grads.len());
    assert forall|i: int| 0 <= i < grads.len() implies llama::adapter_at(
        after,
        (#[trigger] grads[i]).layer as int,
        grads[i].kind,
    ) is Some by {
        assert(holds_new(m, after, grads, params, i));
    }
    let ps = train::matrices(after, grads);
    assert forall|j: int| 0 <= j < ps.len() implies ps[j] == params[j] by {
        let i = j / 2;
        assert(holds_new(m, after, grads, params, i));
        assert(j == 2 * i || j == 2 * i + 1);
    }
    assert(ps =~= params);
}

} // verus!
