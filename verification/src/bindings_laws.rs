//! A layer rebuilt from its exported parts is the layer that was exported.
use crate::bindings;
use crate::bindings::WeightView;
use crate::ieee;
use crate::lora::AdapterView;
use crate::quant;
use crate::quant::QuantConfig;
use crate::single;
use vstd::prelude::*;

verus! {

/// Whether these are the parts of quantized weights.
pub open spec fn is_export(
    w: WeightView,
    weights: Seq<u32>,
    rows: usize,
    cols: usize,
    config: QuantConfig,
) -> bool {
    &&& config.block_size > 0
    &&& rows * cols <= usize::MAX
    &&& weights.len() == rows * cols
    &&& w == bindings::exported(quant::quantized(weights, rows as nat, cols as nat, config))
}

/// A weight that was exported and matrices of rank `r` make up a layer with the
/// same values, these matrices and the given scale; without a scale it is the
/// rank, so the adapter's term is taken once. Without matrices there is no
/// adapter.
pub proof fn lemma_rebuilt(
    w: WeightView,
    weights: Seq<u32>,
    rows: usize,
    cols: usize,
    config: QuantConfig,
    r: nat,
    a: Seq<u32>,
    b: Seq<u32>,
    alpha: Option<u32>,
)
    requires
        is_export(w, weights, rows, cols, config),
        cols > 0,
        r > 0,
        a.len() == r * cols,
        b.len() == rows * r,
    ensures
        ({
            let q = quant::quantized(weights, rows as nat, cols as nat, config);
            &&& bindings::rebuilt(w, Some(a), Some(b), alpha) matches Ok(l) && {
                &&& l.weight.rows == rows
                &&& l.weight.cols == cols
                &&& l.weight.values() == q.values()
                &&& l.adapter == Some(
                    AdapterView {
                        in_dim: cols as nat,
                        out_dim: rows as nat,
                        r,
                        alpha: match alpha {
                            Some(x) => x,
                            None => single::of_integer(r as int),
                        },
                        a,
                        b,
                    },
                )
            }
            &&& bindings::rebuilt(w, None, None, alpha) matches Ok(l) && l.adapter is None
                && l.weight.values() == q.values()
        }),
{
    bindings::lemma_exported_values(weights, rows, cols, config);
    quant::lemma_quantized_wf(weights, rows as nat, cols as nat, config);
    let k = cols as nat;
    assert(a.len() == k * r + 0) by (nonlinear_arith)
        requires
            a.len() == r * k,
    ;
    ieee::lemma_div_unique(a.len(), k, r, 0);
    assert(rows * r == b.len());
}

/// One matrix without the other, an `A` without whole rows, and a `B` of another
/// rank are refused.
pub proof fn lemma_refused(w: WeightView, a: Seq<u32>, b: Seq<u32>, alpha: Option<u32>)
    requires
        w.cols > 0,
    ensures
        bindings::rebuilt(w, Some(a), None, alpha) is Err,
        bindings::rebuilt(w, None, Some(b), alpha) is Err,
        a.len() % w.cols as nat != 0 ==> bindings::rebuilt(w, Some(a), Some(b), alpha) is Err,
        b.len() != w.rows * (a.len() / w.cols as nat) ==> bindings::rebuilt(
            w,
            Some(a),
            Some(b),
            alpha,
        ) is Err,
{
}

} // verus!
