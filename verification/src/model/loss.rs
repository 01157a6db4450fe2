//! Softmax cross-entropy.
use crate::lora;
use crate::model::attention;
use crate::single;
use vstd::prelude::*;

verus! {

/// The largest element.
pub open spec fn largest(s: Seq<u32>) -> u32
    decreases s.len(),
{
    if s.len() == 0 {
        single::NEG_INFINITY
    } else {
        single::larger(largest(s.drop_last()), s.last())
    }
}

/// What was computed on the way to a loss: an exponential per logit and a
/// logarithm per position.
#[verifier::ext_equal]
pub struct LossView {
    pub logits: Seq<u32>,
    pub targets: Seq<u32>,
    pub seq: int,
    pub vocab: int,
    pub exps: Seq<u32>,
    pub logs: Seq<u32>,
}

impl LossView {
    /// The largest logit at position `t`.
    pub open spec fn top(self, t: int) -> u32 {
        largest(lora::row(self.logits, t, self.vocab))
    }

    /// What the exponential is taken of.
    pub open spec fn exponent(self, s: int) -> u32 {
        single::difference(self.logits[s], self.top(s / self.vocab))
    }

    /// The sum of the exponentials at position `t`.
    pub open spec fn sum(self, t: int) -> u32 {
        attention::total(lora::row(self.exps, t, self.vocab))
    }

    /// Whether the exponentials and logarithms are what `exp` and `ln` give.
    pub open spec fn answered<E: Fn(u32) -> u32, L: Fn(u32) -> u32>(self, exp: E, ln: L) -> bool {
        &&& self.exps.len() == self.seq * self.vocab
        &&& self.logs.len() == self.seq
        &&& forall|s: int|
            0 <= s < self.exps.len() ==> call_ensures(
                exp,
                (self.exponent(s),),
                #[trigger] self.exps[s],
            )
        &&& forall|t: int|
            0 <= t < self.seq ==> call_ensures(ln, (self.sum(t),), #[trigger] self.logs[t])
    }

    /// The loss of position `t`, negated: `(logit - max - ln(sum)) / seq`.
    #[verifier::opaque]
    pub open spec fn part(self, t: int) -> u32 {
        single::quotient(
            single::difference(
                single::difference(
                    self.logits[t * self.vocab + self.targets[t]],
                    self.top(t),
                ),
                self.logs[t],
            ),
            single::of_integer(self.seq),
        )
    }

    /// The loss over the first `n` positions.
    pub open spec fn loss(self, n: nat) -> u32
        decreases n,
    {
        if n == 0 {
            0
        } else {
            single::difference(self.loss((n - 1) as nat), self.part(n - 1))
        }
    }

    /// `dL/dlogits`: `(p - onehot) / seq`.
    pub open spec fn gradient(self) -> Seq<u32> {
        lora::matrix(
            self.seq,
            self.vocab,
            |t: int, v: int|
                {
                    let p = single::quotient(
                        single::quotient(self.exps[t * self.vocab + v], self.sum(t)),
                        single::of_integer(self.seq),
                    );
                    if v == self.targets[t] {
                        single::difference(
                            p,
                            single::quotient(single::ONE, single::of_integer(self.seq)),
                        )
                    } else {
                        p
                    }
                },
        )
    }
}

/// One position: the exponentials relative to the largest logit, which is
/// returned too.
fn row_exponentials<E: Fn(u32) -> u32>(row: &[u32], exp: &E) -> (r: (u32, Vec<u32>))
    requires
        forall|x: u32| #[trigger] exp.requires((x,)),
    ensures
        r.0 == largest(row@),
        r.1@.len() == row@.len(),
        forall|v: int|
            0 <= v < row@.len() ==> call_ensures(
                *exp,
                (single::difference(row@[v], largest(row@)),),
                #[trigger] r.1@[v],
            ),
{
    let mut max: u32 = single::NEG_INFINITY;
    let mut v: usize = 0;
    assert(row@.take(0) =~= seq![]);
    while v < row.len()
        invariant
            v <= row@.len(),
            max == largest(row@.take(v as int)),
        decreases row@.len() - v,
    {
        assert(row@.take(v + 1).drop_last() =~= row@.take(v as int));
        max = single::max(max, row[v]);
        v = v + 1;
    }
    assert(row@.take(v as int) =~= row@);
    let mut out: Vec<u32> = Vec::new();
    let mut v: usize = 0;
    while v < row.len()
        invariant
            v <= row@.len(),
            max == largest(row@),
            forall|x: u32| #[trigger] exp.requires((x,)),
            out@.len() == v,
            forall|j: int|
                0 <= j < v ==> call_ensures(
                    *exp,
                    (single::difference(row@[j], largest(row@)),),
                    #[trigger] out@[j],
                ),
        decreases row@.len() - v,
    {
        let e: u32 = exp(single::minus(row[v], max));
        out.push(e);
        v = v + 1;
    }
    (max, out)
}

/// The sum of a slice.
fn add_up(s: &[u32]) -> (r: u32)
    ensures
        r == attention::total(s@),
{
    let mut acc: u32 = 0;
    let mut i: usize = 0;
    assert(s@.take(0) =~= seq![]);
    while i < s.len()
        invariant
            i <= s@.len(),
            acc == attention::total(s@.take(i as int)),
        decreases s@.len() - i,
    {
        assert(s@.take(i + 1).drop_last() =~= s@.take(i as int));
        acc = single::plus(acc, s[i]);
        i = i + 1;
    }
    assert(s@.take(i as int) =~= s@);
    acc
}

/// The loss and its gradient, with the exponentials and logarithms that they
/// were computed from.
pub fn recorded_cross_entropy<E: Fn(u32) -> u32, L: Fn(u32) -> u32>(
    logits: &[u32],
    targets: &[u32],
    seq: usize,
    vocab: usize,
    exp: &E,
    ln: &L,
) -> (r: (u32, Vec<u32>, Vec<u32>, Vec<u32>))
    requires
        seq * vocab <= logits@.len(),
        seq <= targets@.len(),
        forall|t: int| 0 <= t < seq ==> #[trigger] targets@[t] < vocab,
        forall|x: u32| #[trigger] exp.requires((x,)),
        forall|x: u32| #[trigger] ln.requires((x,)),
    ensures
        ({
            let l = LossView {
                logits: logits@,
                targets: targets@,
                seq: seq as int,
                vocab: vocab as int,
                exps: r.2@,
                logs: r.3@,
            };
            &&& l.answered(*exp, *ln)
            &&& r.0 == l.loss(seq as nat)
            &&& r.1@ == l.gradient()
        }),
{
    let count: u32 = single::from_u64(seq as u64);
    let one: u32 = single::over(single::ONE, count);
    let mut loss: u32 = 0;
    let mut grad: Vec<u32> = Vec::new();
    let mut exps: Vec<u32> = Vec::new();
    let mut logs: Vec<u32> = Vec::new();
    let mut t: usize = 0;
    let size: usize = logits.len();
    assert(0 * vocab == 0);
    while t < seq
        invariant
            t <= seq,
            seq * vocab <= size == logits@.len(),
            seq <= targets@.len(),
            forall|t: int| 0 <= t < seq ==> #[trigger] targets@[t] < vocab,
            forall|x: u32| #[trigger] exp.requires((x,)),
            forall|x: u32| #[trigger] ln.requires((x,)),
            count == single::of_integer(seq as int),
            one == single::quotient(single::ONE, count),
            exps@.len() == t * vocab,
            grad@.len() == t * vocab,
            logs@.len() == t,
            loss_so_far(
                LossView {
                    logits: logits@,
                    targets: targets@,
                    seq: seq as int,
                    vocab: vocab as int,
                    exps: exps@,
                    logs: logs@,
                },
                *exp,
                *ln,
                loss,
                grad@,
                t as int,
            ),
        decreases seq - t,
    {
        let ghost l0 = LossView {
            logits: logits@,
            targets: targets@,
            seq: seq as int,
            vocab: vocab as int,
            exps: exps@,
            logs: logs@,
        };
        let ghost grad0 = grad@;
        let ghost loss0 = loss;
        proof {
            assert((t + 1) * vocab == t * vocab + vocab) by (nonlinear_arith);
            assert((t + 1) * vocab <= seq * vocab) by (nonlinear_arith)
                requires
                    t + 1 <= seq,
                    vocab >= 0,
            ;
            assert(t * vocab >= 0) by (nonlinear_arith)
                requires
                    t >= 0,
                    vocab >= 0,
            ;
            assert(targets@[t as int] < vocab);
        }
        let base: usize = t * vocab;
        let target: usize = targets[t] as usize;
        let row = vstd::slice::slice_subrange(logits, base, base + vocab);
        assert(row@ =~= lora::row(logits@, t as int, vocab as int));
        let (max, es) = row_exponentials(row, exp);
        let sum: u32 = add_up(es.as_slice());
        let log: u32 = ln(sum);
        let part: u32 = single::over(single::minus(single::minus(row[target], max), log), count);
        loss = single::minus(loss, part);
        let mut v: usize = 0;
        while v < vocab
            invariant
                v <= vocab,
                es@.len() == vocab,
                count == single::of_integer(seq as int),
                one == single::quotient(single::ONE, count),
                grad@.len() == grad0.len() + v,
                forall|s: int| 0 <= s < grad0.len() ==> #[trigger] grad@[s] == grad0[s],
                forall|j: int|
                    0 <= j < v ==> #[trigger] grad@[grad0.len() + j] == slope(
                        es@[j],
                        sum,
                        seq as int,
                        j == target,
                    ),
            decreases vocab - v,
        {
            let p: u32 = single::over(single::over(es[v], sum), count);
            if v == target {
                grad.push(single::minus(p, one));
            } else {
                grad.push(p);
            }
            v = v + 1;
        }
        let mut v: usize = 0;
        while v < vocab
            invariant
                v <= vocab,
                es@.len() == vocab,
                exps@ == l0.exps + es@.take(v as int),
            decreases vocab - v,
        {
            exps.push(es[v]);
            assert(es@.take(v + 1) =~= es@.take(v as int).push(es@[v as int]));
            v = v + 1;
            assert(exps@ =~= l0.exps + es@.take(v as int));
        }
        assert(es@.take(v as int) =~= es@);
        logs.push(log);
        proof {
            lemma_one_more(l0, *exp, *ln, loss0, grad0, t as int, es@, log, loss, grad@);
        }
        t = t + 1;
    }
    proof {
        let l = LossView {
            logits: logits@,
            targets: targets@,
            seq: seq as int,
            vocab: vocab as int,
            exps: exps@,
            logs: logs@,
        };
        assert forall|s: int| 0 <= s < grad@.len() implies #[trigger] grad@[s] == l.gradient()[s] by {
            lora::lemma_cell(s, seq as int, vocab as int);
        }
        assert(grad@ =~= l.gradient());
    }
    (loss, grad, exps, logs)
}

/// The gradient of one logit.
spec fn slope(e: u32, sum: u32, seq: int, hit: bool) -> u32 {
    let p = single::quotient(single::quotient(e, sum), single::of_integer(seq));
    if hit {
        single::difference(p, single::quotient(single::ONE, single::of_integer(seq)))
    } else {
        p
    }
}

/// How far the loss has come: the first `n` positions are done.
spec fn loss_so_far<E: Fn(u32) -> u32, L: Fn(u32) -> u32>(
    l: LossView,
    exp: E,
    ln: L,
    loss: u32,
    grad: Seq<u32>,
    n: int,
) -> bool {
    &&& l.exps.len() == n * l.vocab
    &&& l.logs.len() == n
    &&& grad.len() == n * l.vocab
    &&& forall|s: int|
        0 <= s < l.exps.len() ==> call_ensures(exp, (l.exponent(s),), #[trigger] l.exps[s])
    &&& forall|t: int| 0 <= t < n ==> call_ensures(ln, (l.sum(t),), #[trigger] l.logs[t])
    &&& loss == l.loss(n as nat)
    &&& forall|s: int|
        0 <= s < grad.len() ==> #[trigger] grad[s] == slope(
            l.exps[s],
            l.sum(s / l.vocab),
            l.seq,
            s % l.vocab == l.targets[s / l.vocab],
        )
}

/// Positions that are done do not change.
proof fn lemma_loss_prefix(a: LossView, b: LossView, n: nat)
    requires
        b.logits == a.logits,
        b.targets == a.targets,
        b.seq == a.seq,
        b.vocab == a.vocab,
        n <= a.logs.len() <= b.logs.len(),
        forall|t: int| 0 <= t < n ==> #[trigger] b.logs[t] == a.logs[t],
    ensures
        a.loss(n) == b.loss(n),
    decreases n,
{
    if n > 0 {
        lemma_loss_prefix(a, b, (n - 1) as nat);
        reveal(LossView::part);
        assert(b.logs[n - 1] == a.logs[n - 1]);
    }
}

/// One more position.
proof fn lemma_one_more<E: Fn(u32) -> u32, L: Fn(u32) -> u32>(
    l0: LossView,
    exp: E,
    ln: L,
    loss0: u32,
    grad0: Seq<u32>,
    t: int,
    es: Seq<u32>,
    log: u32,
    loss: u32,
    grad: Seq<u32>,
)
    requires
        0 <= t < l0.seq,
        l0.vocab > 0,
        loss_so_far(l0, exp, ln, loss0, grad0, t),
        es.len() == l0.vocab,
        forall|v: int|
            0 <= v < es.len() ==> call_ensures(
                exp,
                (single::difference(lora::row(l0.logits, t, l0.vocab)[v], l0.top(t)),),
                #[trigger] es[v],
            ),
        call_ensures(ln, (attention::total(es),), log),
        0 <= l0.targets[t] < l0.vocab,
        loss == single::difference(
            loss0,
            single::quotient(
                single::difference(
                    single::difference(
                        lora::row(l0.logits, t, l0.vocab)[l0.targets[t] as int],
                        l0.top(t),
                    ),
                    log,
                ),
                single::of_integer(l0.seq),
            ),
        ),
        grad.len() == grad0.len() + l0.vocab,
        forall|s: int| 0 <= s < grad0.len() ==> #[trigger] grad[s] == grad0[s],
        forall|j: int|
            0 <= j < l0.vocab ==> #[trigger] grad[grad0.len() + j] == slope(
                es[j],
                attention::total(es),
                l0.seq,
                j == l0.targets[t],
            ),
    ensures
        loss_so_far(
            LossView { exps: l0.exps + es, logs: l0.logs.push(log), ..l0 },
            exp,
            ln,
            loss,
            grad,
            t + 1,
        ),
{
    let l = LossView { exps: l0.exps + es, logs: l0.logs.push(log), ..l0 };
    let n = l.vocab;
    assert((t + 1) * n == t * n + n) by (nonlinear_arith);
    assert forall|p: int| 0 <= p < t implies #[trigger] l.sum(p) == l0.sum(p) by {
        assert forall|v: int| 0 <= v < n implies #[trigger] lora::row(l.exps, p, n)[v]
            == lora::row(l0.exps, p, n)[v] by {
            lora::lemma_position(p, v, t, n);
        }
        assert(lora::row(l.exps, p, n) =~= lora::row(l0.exps, p, n));
    }
    assert(lora::row(l.exps, t, n) =~= es);
    assert(l.sum(t) == attention::total(es));
    assert forall|s: int| 0 <= s < l.exps.len() implies call_ensures(
        exp,
        (l.exponent(s),),
        #[trigger] l.exps[s],
    ) by {
        if s < l0.exps.len() {
            assert(l.exps[s] == l0.exps[s]);
            assert(l.exponent(s) == l0.exponent(s));
        } else {
            let v = s - t * n;
            lora::lemma_position(t, v, t + 1, n);
            assert(s == t * n + v);
            assert(l.exps[s] == es[v]);
            assert(l.exponent(s) == single::difference(
                lora::row(l0.logits, t, n)[v],
                l0.top(t),
            ));
        }
    }
    assert forall|p: int| 0 <= p < t + 1 implies call_ensures(
        ln,
        (l.sum(p),),
        #[trigger] l.logs[p],
    ) by {
        if p < t {
            assert(l.logs[p] == l0.logs[p]);
            assert(l.sum(p) == l0.sum(p));
        }
    }
    lemma_loss_prefix(l0, l, t as nat);
    reveal(LossView::part);
    assert forall|s: int| 0 <= s < grad.len() implies #[trigger] grad[s] == slope(
        l.exps[s],
        l.sum(s / n),
        l.seq,
        s % n == l.targets[s / n],
    ) by {
        if s < grad0.len() {
            lora::lemma_cell(s, t, n);
            assert(grad[s] == grad0[s]);
            assert(l.sum(s / n) == l0.sum(s / n));
        } else {
            let j = s - grad0.len();
            lora::lemma_position(t, j, t + 1, n);
            assert(grad[grad0.len() + j] == slope(es[j], attention::total(es), l0.seq, j == l0.targets[t]));
        }
    }
}

/// Mean softmax cross-entropy over `seq` positions plus `dlogits`
/// (`(p - onehot) / seq`, row-major `(seq, vocab)`).
///
/// `exp` and `ln` work on binary32 bit patterns.
pub fn softmax_cross_entropy<E: Fn(u32) -> u32, L: Fn(u32) -> u32>(
    logits: &[u32],
    targets: &[u32],
    seq: usize,
    vocab: usize,
    exp: &E,
    ln: &L,
) -> (r: (u32, Vec<u32>))
    requires
        seq * vocab <= logits@.len(),
        seq <= targets@.len(),
        forall|t: int| 0 <= t < seq ==> #[trigger] targets@[t] < vocab,
        forall|x: u32| #[trigger] exp.requires((x,)),
        forall|x: u32| #[trigger] ln.requires((x,)),
    ensures
        exists|l: LossView|
            {
                &&& l.logits == logits@ && l.targets == targets@ && l.seq == seq && l.vocab == vocab
                &&& #[trigger] l.answered(*exp, *ln)
                &&& r.0 == l.loss(seq as nat)
                &&& r.1@ == l.gradient()
            },
{
    let (loss, grad, exps, logs) = recorded_cross_entropy(logits, targets, seq, vocab, exp, ln);
    proof {
        let l = LossView {
            logits: logits@,
            targets: targets@,
            seq: seq as int,
            vocab: vocab as int,
            exps: exps@,
            logs: logs@,
        };
        assert(l.answered(*exp, *ln));
    }
    (loss, grad)
}

} // verus!
