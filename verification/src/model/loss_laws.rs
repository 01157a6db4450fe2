//! What the loss and its gradient are, position by position.
use crate::lora;
use crate::model::attention_laws;
use crate::model::attention_laws::{added_up, highest};
use crate::model::loss;
use crate::model::loss::LossView;
use crate::single;
use vstd::prelude::*;

verus! {

proof fn lemma_largest(x: Seq<u32>, f: spec_fn(int) -> u32)
    requires
        forall|p: int| 0 <= p < x.len() ==> #[trigger] f(p) == x[p],
    ensures
        loss::largest(x) == highest(f, x.len()),
    decreases x.len(),
{
    if x.len() > 0 {
        let n = x.len() - 1;
        lemma_largest(x.drop_last(), f);
        assert(f(n) == x[n]);
    }
}

/// The highest logit at position `t`.
pub open spec fn top_logit(l: LossView, t: int) -> u32 {
    highest(|v: int| l.logits[t * l.vocab + v], l.vocab as nat)
}

/// The sum of the exponentials at position `t`.
pub open spec fn exp_sum(l: LossView, t: int) -> u32 {
    added_up(|v: int| l.exps[t * l.vocab + v], l.vocab as nat)
}

/// `ln(softmax(target))` at position `t`: the target's logit less the highest
/// and less the logarithm of the sum.
pub open spec fn log_share(l: LossView, t: int) -> u32 {
    single::difference(
        single::difference(l.logits[t * l.vocab + l.targets[t]], top_logit(l, t)),
        l.logs[t],
    )
}

/// The exponentials and logarithms: of each logit less the highest of its
/// position, and of the sum of these exponentials over the position.
pub proof fn lemma_answers<E: Fn(u32) -> u32, L: Fn(u32) -> u32>(
    l: LossView,
    exp: E,
    ln: L,
    t: int,
    v: int,
)
    requires
        l.answered(exp, ln),
        l.vocab > 0,
        0 <= t < l.seq,
        0 <= v < l.vocab,
    ensures
        l.exps.len() == l.seq * l.vocab,
        l.logs.len() == l.seq,
        0 <= t * l.vocab + v < l.seq * l.vocab,
        call_ensures(
            exp,
            (single::difference(l.logits[t * l.vocab + v], top_logit(l, t)),),
            l.exps[t * l.vocab + v],
        ),
        call_ensures(ln, (exp_sum(l, t),), l.logs[t]),
{
    lora::lemma_position(t, v, l.seq, l.vocab);
    let s = t * l.vocab + v;
    lemma_rows(l, t);
    assert(call_ensures(exp, (l.exponent(s),), l.exps[s]));
    assert(call_ensures(ln, (l.sum(t),), l.logs[t]));
}

proof fn lemma_rows(l: LossView, t: int)
    requires
        l.vocab > 0,
    ensures
        l.top(t) == top_logit(l, t),
        l.sum(t) == exp_sum(l, t),
{
    lemma_largest(lora::row(l.logits, t, l.vocab), |v: int| l.logits[t * l.vocab + v]);
    attention_laws::lemma_total(
        lora::row(l.exps, t, l.vocab),
        |v: int| l.exps[t * l.vocab + v],
    );
}

/// One more position takes its share of the mean away from the loss so far.
pub proof fn lemma_loss(l: LossView, n: nat)
    requires
        l.vocab > 0,
    ensures
        l.loss(0) == 0,
        l.loss(n + 1) == single::difference(
            l.loss(n),
            single::quotient(log_share(l, n as int), single::of_integer(l.seq)),
        ),
{
    lemma_rows(l, n as int);
    reveal(LossView::part);
    assert(l.loss(n + 1) == single::difference(l.loss(n), l.part(n as int)));
}

/// The gradient of the logit of token `v` at position `t`: its share of the
/// exponentials there over the number of positions, and for the target one over
/// that number less.
pub proof fn lemma_gradient(l: LossView, t: int, v: int)
    requires
        l.vocab > 0,
        0 <= t < l.seq,
        0 <= v < l.vocab,
    ensures
        l.gradient().len() == l.seq * l.vocab,
        0 <= t * l.vocab + v < l.seq * l.vocab,
        ({
            let n = single::of_integer(l.seq);
            let p = single::quotient(
                single::quotient(l.exps[t * l.vocab + v], exp_sum(l, t)),
                n,
            );
            l.gradient()[t * l.vocab + v] == if v == l.targets[t] {
                single::difference(p, single::quotient(single::ONE, n))
            } else {
                p
            }
        }),
{
    lora::lemma_position(t, v, l.seq, l.vocab);
    lemma_rows(l, t);
}

} // verus!
