//! What attention computes, head by head and position by position, forward and
//! backward.
use crate::lora;
use crate::lora_laws::inner;
use crate::model::attention;
use crate::model::attention::AttentionView;
use crate::model::config::LlamaConfig;
use crate::model::rope;
use crate::single;
use vstd::prelude::*;

verus! {

/// `f(0) * g(0) + ...`, `n` products added from left to right, beginning with
/// negative zero.
pub open spec fn dot(f: spec_fn(int) -> u32, g: spec_fn(int) -> u32, n: nat) -> u32
    decreases n,
{
    if n == 0 {
        single::SIGN
    } else {
        single::sum(dot(f, g, (n - 1) as nat), single::product(f(n - 1), g(n - 1)))
    }
}

/// `f(0) + f(1) + ...`, `n` numbers added from left to right, beginning with
/// zero.
pub open spec fn added_up(f: spec_fn(int) -> u32, n: nat) -> u32
    decreases n,
{
    if n == 0 {
        0
    } else {
        single::sum(added_up(f, (n - 1) as nat), f(n - 1))
    }
}

/// The sum over the numbers below `n` that `chosen` accepts, in ascending
/// order, beginning with zero.
pub open spec fn gathered(chosen: spec_fn(int) -> bool, f: spec_fn(int) -> u32, n: nat) -> u32
    decreases n,
{
    if n == 0 {
        0
    } else if chosen(n - 1) {
        single::sum(gathered(chosen, f, (n - 1) as nat), f(n - 1))
    } else {
        gathered(chosen, f, (n - 1) as nat)
    }
}

/// The largest of `n` numbers, negative infinity for none.
pub open spec fn highest(f: spec_fn(int) -> u32, n: nat) -> u32
    decreases n,
{
    if n == 0 {
        single::NEG_INFINITY
    } else {
        single::larger(highest(f, (n - 1) as nat), f(n - 1))
    }
}

/// Elements per head.
pub open spec fn head_size(cfg: LlamaConfig) -> int {
    cfg.hidden as int / cfg.heads as int
}

/// The key head of a query head: heads in a row share one.
pub open spec fn shared_head(cfg: LlamaConfig, head: int) -> int {
    head / (cfg.heads as int / cfg.kv_heads as int)
}

/// Element `j` of a vector `x` turned by a position's angles: the first half
/// becomes `x1 * cos - x2 * sin`, the second `x2 * cos + x1 * sin`.
pub open spec fn turned(
    x: spec_fn(int) -> u32,
    cos: Seq<u32>,
    sin: Seq<u32>,
    half: int,
    j: int,
) -> u32 {
    if j < half {
        single::difference(
            single::product(x(j), cos[j]),
            single::product(x(j + half), sin[j]),
        )
    } else if j < 2 * half {
        single::sum(
            single::product(x(j), cos[j - half]),
            single::product(x(j - half), sin[j - half]),
        )
    } else {
        0
    }
}

/// Element `j` of a vector turned back by the same angles.
pub open spec fn turned_back(
    y: spec_fn(int) -> u32,
    cos: Seq<u32>,
    sin: Seq<u32>,
    half: int,
    j: int,
) -> u32 {
    if j < half {
        single::sum(single::product(y(j), cos[j]), single::product(y(j + half), sin[j]))
    } else {
        single::sum(
            single::product(single::negation(y(j - half)), sin[j - half]),
            single::product(y(j), cos[j - half]),
        )
    }
}

/// Element `j` of the query of a head at position `t`, turned by the angles of
/// `t`.
pub open spec fn query_at(a: AttentionView, t: int, head: int, j: int) -> u32 {
    let dh = head_size(a.cfg);
    turned(
        |e: int| a.q[t * a.cfg.hidden + head * dh + e],
        a.cos[t],
        a.sin[t],
        dh / 2,
        j,
    )
}

/// Element `j` of the key that a head reads at position `s`, turned by the
/// angles of `s`.
pub open spec fn key_at(a: AttentionView, s: int, kv: int, j: int) -> u32 {
    let dh = head_size(a.cfg);
    turned(
        |e: int| a.k[s * (a.cfg.kv_heads * dh) + kv * dh + e],
        a.cos[s],
        a.sin[s],
        dh / 2,
        j,
    )
}

/// Element `j` of the value of a key head at position `s`.
pub open spec fn value_at(a: AttentionView, s: int, kv: int, j: int) -> u32 {
    let dh = head_size(a.cfg);
    a.v[s * (a.cfg.kv_heads * dh) + kv * dh + j]
}

/// `1 / sqrt(head_size)`.
pub open spec fn damping(cfg: LlamaConfig) -> u32 {
    single::quotient(single::ONE, single::root(single::of_integer(head_size(cfg))))
}

/// How well the query of a head at `t` matches the key at `s`.
pub open spec fn match_at(a: AttentionView, t: int, head: int, s: int) -> u32 {
    single::product(
        dot(
            |j: int| query_at(a, t, head, j),
            |j: int| key_at(a, s, shared_head(a.cfg, head), j),
            head_size(a.cfg) as nat,
        ),
        damping(a.cfg),
    )
}

/// The row of exponentials of a head at position `t`.
pub open spec fn row_at(a: AttentionView, exps: Seq<Seq<u32>>, t: int, head: int) -> Seq<u32> {
    exps[t * a.cfg.heads + head]
}

/// What position `s` weighs for a head at position `t`: its exponential over
/// the sum of those of the positions up to `t`.
pub open spec fn weight_at(
    a: AttentionView,
    exps: Seq<Seq<u32>>,
    t: int,
    head: int,
    s: int,
) -> u32 {
    let row = row_at(a, exps, t, head);
    single::quotient(row[s], added_up(|i: int| row[i], (t + 1) as nat))
}

/// Equal factors give equal sums.
pub proof fn lemma_dot_same(
    f: spec_fn(int) -> u32,
    g: spec_fn(int) -> u32,
    u: spec_fn(int) -> u32,
    v: spec_fn(int) -> u32,
    n: nat,
)
    requires
        forall|p: int| 0 <= p < n ==> #[trigger] f(p) == u(p),
        forall|p: int| 0 <= p < n ==> #[trigger] g(p) == v(p),
    ensures
        dot(f, g, n) == dot(u, v, n),
    decreases n,
{
    if n > 0 {
        lemma_dot_same(f, g, u, v, (n - 1) as nat);
        assert(f(n - 1) == u(n - 1) && g(n - 1) == v(n - 1));
    }
}

proof fn lemma_sum_products(
    x: Seq<u32>,
    y: Seq<u32>,
    f: spec_fn(int) -> u32,
    g: spec_fn(int) -> u32,
)
    requires
        x.len() == y.len(),
        forall|p: int| 0 <= p < x.len() ==> #[trigger] f(p) == x[p],
        forall|p: int| 0 <= p < x.len() ==> #[trigger] g(p) == y[p],
    ensures
        attention::sum_products(x, y) == dot(f, g, x.len()),
    decreases x.len(),
{
    if x.len() > 0 {
        let n = x.len() - 1;
        lemma_sum_products(x.drop_last(), y.drop_last(), f, g);
        assert(f(n) == x[n] && g(n) == y[n]);
    }
}

/// The sum of the elements of a list.
pub proof fn lemma_total(x: Seq<u32>, f: spec_fn(int) -> u32)
    requires
        forall|p: int| 0 <= p < x.len() ==> #[trigger] f(p) == x[p],
    ensures
        attention::total(x) == added_up(f, x.len()),
    decreases x.len(),
{
    if x.len() > 0 {
        let n = x.len() - 1;
        lemma_total(x.drop_last(), f);
        assert(f(n) == x[n]);
    }
}

proof fn lemma_turned(x: Seq<u32>, cos: Seq<u32>, sin: Seq<u32>, f: spec_fn(int) -> u32, j: int)
    requires
        cos.len() == x.len() as int / 2,
        sin.len() == cos.len(),
        0 <= j < x.len(),
        forall|p: int| 0 <= p < x.len() ==> #[trigger] f(p) == x[p],
    ensures
        rope::rotated(x, cos, sin).len() == x.len(),
        rope::rotated(x, cos, sin)[j] == turned(f, cos, sin, x.len() as int / 2, j),
{
    reveal(rope::rotated_at);
    let half = x.len() as int / 2;
    assert(f(j) == x[j]);
    if j < half {
        assert(f(j + half) == x[j + half]);
    } else if j < 2 * half {
        assert(f(j - half) == x[j - half]);
    }
}

proof fn lemma_query(a: AttentionView, t: int, head: int, j: int)
    requires
        a.wf(),
        0 <= t < a.seq,
        0 <= head < a.cfg.heads,
        0 <= j < a.cfg.head_size(),
    ensures
        a.query(t, head).len() == a.cfg.head_size(),
        a.query(t, head)[j] == query_at(a, t, head, j),
{
    attention::lemma_head_bounds(a.cfg, a.seq, t, head);
    let dh = a.cfg.head_size();
    let part = a.head_part(a.q, t, head);
    assert(part.len() == dh);
    assert(a.cos[t].len() == dh / 2 && a.sin[t].len() == dh / 2);
    lemma_turned(part, a.cos[t], a.sin[t], |e: int| a.q[t * a.cfg.hidden + head * dh + e], j);
}

proof fn lemma_key(a: AttentionView, s: int, kv: int, j: int)
    requires
        a.wf(),
        0 <= s < a.seq,
        0 <= kv < a.cfg.kv_heads,
        0 <= j < a.cfg.head_size(),
    ensures
        a.key(s, kv).len() == a.cfg.head_size(),
        a.key(s, kv)[j] == key_at(a, s, kv, j),
        a.kv_part(a.v, s, kv).len() == a.cfg.head_size(),
        a.kv_part(a.v, s, kv)[j] == value_at(a, s, kv, j),
{
    attention::lemma_kv_bounds(a.cfg, a.seq, s, kv);
    let dh = a.cfg.head_size();
    let part = a.kv_part(a.k, s, kv);
    assert(part.len() == dh);
    assert(a.cos[s].len() == dh / 2 && a.sin[s].len() == dh / 2);
    lemma_turned(
        part,
        a.cos[s],
        a.sin[s],
        |e: int| a.k[s * (a.cfg.kv_heads * dh) + kv * dh + e],
        j,
    );
}

/// The score of a key.
pub proof fn lemma_match(a: AttentionView, t: int, head: int, s: int)
    requires
        a.wf(),
        0 <= t < a.seq,
        0 <= head < a.cfg.heads,
        0 <= s < a.seq,
    ensures
        a.score(t, head, s) == match_at(a, t, head, s),
{
    reveal(AttentionView::score);
    attention::lemma_head_bounds(a.cfg, a.seq, t, head);
    let kv = a.cfg.kv_of(head);
    let (x, y) = (a.query(t, head), a.key(s, kv));
    lemma_query(a, t, head, 0);
    lemma_key(a, s, kv, 0);
    let f = |j: int| query_at(a, t, head, j);
    let g = |j: int| key_at(a, s, shared_head(a.cfg, head), j);
    assert forall|j: int| 0 <= j < x.len() implies #[trigger] f(j) == x[j] by {
        lemma_query(a, t, head, j);
    }
    assert forall|j: int| 0 <= j < x.len() implies #[trigger] g(j) == y[j] by {
        lemma_key(a, s, kv, j);
    }
    lemma_sum_products(x, y, f, g);
}

proof fn lemma_highest(a: AttentionView, t: int, head: int, n: nat)
    requires
        a.wf(),
        0 <= t < a.seq,
        0 <= head < a.cfg.heads,
        n <= a.seq,
    ensures
        a.top(t, head, n) == highest(|s: int| match_at(a, t, head, s), n),
    decreases n,
{
    if n > 0 {
        lemma_highest(a, t, head, (n - 1) as nat);
        lemma_match(a, t, head, n - 1);
    }
}

/// A head at position `t` looks at the positions up to `t`: there is one
/// exponential for each of them, of its score less the highest of these scores.
pub proof fn lemma_exponential<E: Fn(u32) -> u32>(
    a: AttentionView,
    exp: E,
    exps: Seq<Seq<u32>>,
    t: int,
    head: int,
    s: int,
)
    requires
        a.wf(),
        a.has_rows(exps),
        a.answered(exp, exps),
        0 <= t < a.seq,
        0 <= head < a.cfg.heads,
        0 <= s <= t,
    ensures
        row_at(a, exps, t, head).len() == t + 1,
        call_ensures(
            exp,
            (single::difference(
                match_at(a, t, head, s),
                highest(|i: int| match_at(a, t, head, i), (t + 1) as nat),
            ),),
            row_at(a, exps, t, head)[s],
        ),
{
    let r = t * a.cfg.heads + head;
    lemma_row(a, exps, t, head);
    reveal(AttentionView::exponent);
    lemma_match(a, t, head, s);
    lemma_highest(a, t, head, (t + 1) as nat);
    assert(call_ensures(exp, (a.exponent(t, head, s),), exps[r][s]));
}

proof fn lemma_row(a: AttentionView, exps: Seq<Seq<u32>>, t: int, head: int)
    requires
        a.wf(),
        a.has_rows(exps),
        0 <= t < a.seq,
        0 <= head < a.cfg.heads,
    ensures
        0 <= t * a.cfg.heads + head < exps.len(),
        (t * a.cfg.heads + head) / (a.cfg.heads as int) == t,
        (t * a.cfg.heads + head) % (a.cfg.heads as int) == head,
        row_at(a, exps, t, head).len() == t + 1,
{
    let heads = a.cfg.heads as int;
    lora::lemma_position(t, head, a.seq, heads);
    assert(exps[t * heads + head].len() == t + 1);
}

proof fn lemma_share(a: AttentionView, exps: Seq<Seq<u32>>, t: int, head: int, s: int)
    requires
        a.wf(),
        a.has_rows(exps),
        0 <= t < a.seq,
        0 <= head < a.cfg.heads,
    ensures
        attention::share(row_at(a, exps, t, head), s) == weight_at(a, exps, t, head, s),
{
    lemma_row(a, exps, t, head);
    reveal(attention::share);
    let row = row_at(a, exps, t, head);
    lemma_total(row, |i: int| row[i]);
}

proof fn lemma_mixed(
    a: AttentionView,
    exps: Seq<Seq<u32>>,
    t: int,
    head: int,
    kv: int,
    j: int,
    n: nat,
)
    requires
        a.wf(),
        a.has_rows(exps),
        0 <= t < a.seq,
        0 <= head < a.cfg.heads,
        0 <= kv < a.cfg.kv_heads,
        0 <= j < a.cfg.head_size(),
        n <= a.seq,
    ensures
        a.mixed(row_at(a, exps, t, head), kv, j, n) == inner(
            |s: int| weight_at(a, exps, t, head, s),
            |s: int| value_at(a, s, kv, j),
            n,
        ),
    decreases n,
{
    if n > 0 {
        lemma_mixed(a, exps, t, head, kv, j, (n - 1) as nat);
        lemma_share(a, exps, t, head, n - 1);
        lemma_key(a, n - 1, kv, j);
    }
}

/// What a head gives out at position `t` are the values of its key head, up to
/// position `t`, each weighed with its share; heads lie side by side.
pub proof fn lemma_output(a: AttentionView, exps: Seq<Seq<u32>>, t: int, head: int, j: int)
    requires
        a.wf(),
        a.has_rows(exps),
        0 <= t < a.seq,
        0 <= head < a.cfg.heads,
        0 <= j < head_size(a.cfg),
    ensures
        ({
            let dh = head_size(a.cfg);
            let kv = shared_head(a.cfg, head);
            let c = head * dh + j;
            &&& a.output(exps).len() == a.seq * a.cfg.hidden
            &&& 0 <= t * a.cfg.hidden + c < a.seq * a.cfg.hidden
            &&& a.output(exps)[t * a.cfg.hidden + c] == inner(
                |s: int| weight_at(a, exps, t, head, s),
                |s: int| value_at(a, s, kv, j),
                (t + 1) as nat,
            )
        }),
{
    let dh = a.cfg.head_size();
    let kv = a.cfg.kv_of(head);
    let c = head * dh + j;
    attention::lemma_head_bounds(a.cfg, a.seq, t, head);
    lora::lemma_position(head, j, a.cfg.heads as int, dh);
    lora::lemma_position(t, c, a.seq, a.cfg.hidden as int);
    lemma_mixed(a, exps, t, head, kv, j, (t + 1) as nat);
}

/// `dL/dp` of the share of position `s`: the upstream gradient of the head
/// times the value.
pub open spec fn weight_back(a: AttentionView, d: Seq<u32>, t: int, head: int, s: int) -> u32 {
    let dh = head_size(a.cfg);
    dot(
        |j: int| d[t * a.cfg.hidden + head * dh + j],
        |j: int| value_at(a, s, shared_head(a.cfg, head), j),
        dh as nat,
    )
}

/// `dL/ds` of the score of position `s`: `p * (dp - sum(dp * p)) * scale`.
pub open spec fn match_back(
    a: AttentionView,
    d: Seq<u32>,
    exps: Seq<Seq<u32>>,
    t: int,
    head: int,
    s: int,
) -> u32 {
    single::product(
        single::product(
            weight_at(a, exps, t, head, s),
            single::difference(
                weight_back(a, d, t, head, s),
                inner(
                    |i: int| weight_back(a, d, t, head, i),
                    |i: int| weight_at(a, exps, t, head, i),
                    (t + 1) as nat,
                ),
            ),
        ),
        damping(a.cfg),
    )
}

proof fn lemma_weight_back(a: AttentionView, d: Seq<u32>, t: int, head: int, s: int)
    requires
        a.wf(),
        d.len() == a.seq * a.cfg.hidden,
        0 <= t < a.seq,
        0 <= head < a.cfg.heads,
        0 <= s < a.seq,
    ensures
        a.share_gradient(d, t, head, s) == weight_back(a, d, t, head, s),
{
    reveal(AttentionView::share_gradient);
    attention::lemma_head_bounds(a.cfg, a.seq, t, head);
    let dh = a.cfg.head_size();
    let kv = a.cfg.kv_of(head);
    let (x, y) = (a.head_part(d, t, head), a.kv_part(a.v, s, kv));
    lemma_key(a, s, kv, 0);
    let f = |j: int| d[t * a.cfg.hidden + head * dh + j];
    let g = |j: int| value_at(a, s, kv, j);
    assert forall|j: int| 0 <= j < x.len() implies #[trigger] g(j) == y[j] by {
        lemma_key(a, s, kv, j);
    }
    lemma_sum_products(x, y, f, g);
    lemma_dot_same(
        f,
        g,
        |j: int| d[t * a.cfg.hidden + head * head_size(a.cfg) + j],
        |j: int| value_at(a, s, shared_head(a.cfg, head), j),
        dh as nat,
    );
}

proof fn lemma_gradient_dot(
    a: AttentionView,
    d: Seq<u32>,
    exps: Seq<Seq<u32>>,
    t: int,
    head: int,
    n: nat,
)
    requires
        a.wf(),
        a.has_rows(exps),
        d.len() == a.seq * a.cfg.hidden,
        0 <= t < a.seq,
        0 <= head < a.cfg.heads,
        n <= a.seq,
    ensures
        a.gradient_dot(d, row_at(a, exps, t, head), t, head, n) == inner(
            |i: int| weight_back(a, d, t, head, i),
            |i: int| weight_at(a, exps, t, head, i),
            n,
        ),
    decreases n,
{
    if n > 0 {
        lemma_gradient_dot(a, d, exps, t, head, (n - 1) as nat);
        lemma_weight_back(a, d, t, head, n - 1);
        lemma_share(a, exps, t, head, n - 1);
    }
}

proof fn lemma_match_back(
    a: AttentionView,
    d: Seq<u32>,
    exps: Seq<Seq<u32>>,
    t: int,
    head: int,
    s: int,
)
    requires
        a.wf(),
        a.has_rows(exps),
        d.len() == a.seq * a.cfg.hidden,
        0 <= t < a.seq,
        0 <= head < a.cfg.heads,
        0 <= s < a.seq,
    ensures
        a.score_gradient(d, row_at(a, exps, t, head), t, head, s) == match_back(
            a,
            d,
            exps,
            t,
            head,
            s,
        ),
{
    reveal(AttentionView::score_gradient);
    lemma_row(a, exps, t, head);
    lemma_share(a, exps, t, head, s);
    lemma_weight_back(a, d, t, head, s);
    lemma_gradient_dot(a, d, exps, t, head, (t + 1) as nat);
}

proof fn lemma_query_sum(
    a: AttentionView,
    d: Seq<u32>,
    exps: Seq<Seq<u32>>,
    t: int,
    head: int,
    j: int,
    n: nat,
)
    requires
        a.wf(),
        a.has_rows(exps),
        d.len() == a.seq * a.cfg.hidden,
        0 <= t < a.seq,
        0 <= head < a.cfg.heads,
        0 <= j < a.cfg.head_size(),
        n <= a.seq,
    ensures
        a.query_sum(d, row_at(a, exps, t, head), t, head, j, n) == inner(
            |s: int| match_back(a, d, exps, t, head, s),
            |s: int| key_at(a, s, shared_head(a.cfg, head), j),
            n,
        ),
    decreases n,
{
    if n > 0 {
        attention::lemma_head_bounds(a.cfg, a.seq, t, head);
        lemma_query_sum(a, d, exps, t, head, j, (n - 1) as nat);
        lemma_match_back(a, d, exps, t, head, n - 1);
        lemma_key(a, n - 1, a.cfg.kv_of(head), j);
    }
}

proof fn lemma_turned_back(
    y: Seq<u32>,
    cos: Seq<u32>,
    sin: Seq<u32>,
    f: spec_fn(int) -> u32,
    j: int,
)
    requires
        cos.len() == y.len() as int / 2,
        sin.len() == cos.len(),
        0 <= j < 2 * cos.len(),
        forall|p: int| 0 <= p < y.len() ==> #[trigger] f(p) == y[p],
    ensures
        rope::unrotated_at(y, cos, sin, j) == turned_back(f, cos, sin, y.len() as int / 2, j),
{
    reveal(rope::unrotated_at);
    let half = y.len() as int / 2;
    assert(f(j) == y[j]);
    if j < half {
        assert(f(j + half) == y[j + half]);
    } else {
        assert(f(j - half) == y[j - half]);
    }
}

/// What comes back to the query of a head at position `t`: the keys up to `t`,
/// each weighed with the gradient of its score, turned back by the angles of
/// `t`.
pub proof fn lemma_query_back(
    a: AttentionView,
    d: Seq<u32>,
    exps: Seq<Seq<u32>>,
    t: int,
    head: int,
    j: int,
)
    requires
        a.wf(),
        a.has_rows(exps),
        d.len() == a.seq * a.cfg.hidden,
        0 <= t < a.seq,
        0 <= head < a.cfg.heads,
        0 <= j < 2 * (head_size(a.cfg) / 2),
    ensures
        ({
            let dh = head_size(a.cfg);
            let c = head * dh + j;
            &&& a.query_gradient(d, exps).len() == a.seq * a.cfg.hidden
            &&& 0 <= t * a.cfg.hidden + c < a.seq * a.cfg.hidden
            &&& a.query_gradient(d, exps)[t * a.cfg.hidden + c] == single::sum(
                0,
                turned_back(
                    |e: int|
                        inner(
                            |s: int| match_back(a, d, exps, t, head, s),
                            |s: int| key_at(a, s, shared_head(a.cfg, head), e),
                            (t + 1) as nat,
                        ),
                    a.cos[t],
                    a.sin[t],
                    dh / 2,
                    j,
                ),
            )
        }),
{
    let dh = a.cfg.head_size();
    let c = head * dh + j;
    attention::lemma_head_bounds(a.cfg, a.seq, t, head);
    lora::lemma_position(head, j, a.cfg.heads as int, dh);
    lora::lemma_position(t, c, a.seq, a.cfg.hidden as int);
    lemma_row(a, exps, t, head);
    let y = a.query_sums(d, row_at(a, exps, t, head), t, head);
    let f = |e: int|
        inner(
            |s: int| match_back(a, d, exps, t, head, s),
            |s: int| key_at(a, s, shared_head(a.cfg, head), e),
            (t + 1) as nat,
        );
    assert forall|e: int| 0 <= e < y.len() implies #[trigger] f(e) == y[e] by {
        lemma_query_sum(a, d, exps, t, head, e, (t + 1) as nat);
    }
    assert(a.cos[t].len() == dh / 2 && a.sin[t].len() == dh / 2);
    lemma_turned_back(y, a.cos[t], a.sin[t], f, j);
}

/// Whether row `r` of exponentials, of position `r / heads` and head
/// `r % heads`, reads position `s` of a key head.
pub open spec fn reads_from(cfg: LlamaConfig, r: int, s: int, kv: int) -> bool {
    s <= r / (cfg.heads as int) && shared_head(cfg, r % (cfg.heads as int)) == kv
}

proof fn lemma_value_sum(
    a: AttentionView,
    d: Seq<u32>,
    exps: Seq<Seq<u32>>,
    s: int,
    kv: int,
    j: int,
    n: nat,
)
    requires
        a.wf(),
        a.has_rows(exps),
        d.len() == a.seq * a.cfg.hidden,
        0 <= s < a.seq,
        0 <= kv < a.cfg.kv_heads,
        0 <= j < a.cfg.head_size(),
        n <= exps.len(),
    ensures
        ({
            let (heads, dh) = (a.cfg.heads as int, head_size(a.cfg));
            a.value_sum(d, exps, s, kv, j, n) == gathered(
                |r: int| reads_from(a.cfg, r, s, kv),
                |r: int|
                    single::product(
                        weight_at(a, exps, r / heads, r % heads, s),
                        d[(r / heads) * a.cfg.hidden + (r % heads) * dh + j],
                    ),
                n,
            )
        }),
    decreases n,
{
    if n > 0 {
        let r = n - 1;
        let heads = a.cfg.heads as int;
        lemma_value_sum(a, d, exps, s, kv, j, (n - 1) as nat);
        lora::lemma_cell(r, a.seq, heads);
        let (t, head) = (r / heads, r % heads);
        attention::lemma_head_bounds(a.cfg, a.seq, t, head);
        lemma_share(a, exps, t, head, s);
    }
}

/// What comes back to a value: from every position that reads it and every head
/// of its group, in ascending order, the upstream gradient weighed with the
/// share.
pub proof fn lemma_value_back(
    a: AttentionView,
    d: Seq<u32>,
    exps: Seq<Seq<u32>>,
    s: int,
    kv: int,
    j: int,
)
    requires
        a.wf(),
        a.has_rows(exps),
        d.len() == a.seq * a.cfg.hidden,
        0 <= s < a.seq,
        0 <= kv < a.cfg.kv_heads,
        0 <= j < head_size(a.cfg),
    ensures
        ({
            let (heads, dh) = (a.cfg.heads as int, head_size(a.cfg));
            let w = a.cfg.kv_heads * dh;
            let c = kv * dh + j;
            let g = a.value_gradient(d, exps, exps.len());
            &&& g.len() == a.seq * w
            &&& 0 <= s * w + c < a.seq * w
            &&& g[s * w + c] == gathered(
                |r: int| reads_from(a.cfg, r, s, kv),
                |r: int|
                    single::product(
                        weight_at(a, exps, r / heads, r % heads, s),
                        d[(r / heads) * a.cfg.hidden + (r % heads) * dh + j],
                    ),
                (a.seq * heads) as nat,
            )
        }),
{
    let dh = a.cfg.head_size();
    let c = kv * dh + j;
    attention::lemma_kv_bounds(a.cfg, a.seq, s, kv);
    lora::lemma_position(kv, j, a.cfg.kv_heads as int, dh);
    lora::lemma_position(s, c, a.seq, a.cfg.kv_size());
    lemma_value_sum(a, d, exps, s, kv, j, exps.len());
}

proof fn lemma_key_sum(
    a: AttentionView,
    d: Seq<u32>,
    exps: Seq<Seq<u32>>,
    s: int,
    kv: int,
    j: int,
    n: nat,
)
    requires
        a.wf(),
        a.has_rows(exps),
        d.len() == a.seq * a.cfg.hidden,
        0 <= s < a.seq,
        0 <= kv < a.cfg.kv_heads,
        0 <= j < 2 * (a.cfg.head_size() / 2),
        n <= exps.len(),
    ensures
        ({
            let (heads, dh) = (a.cfg.heads as int, head_size(a.cfg));
            a.key_sum(d, exps, s, kv, j, n) == gathered(
                |r: int| reads_from(a.cfg, r, s, kv),
                |r: int|
                    turned_back(
                        |e: int|
                            single::product(
                                match_back(a, d, exps, r / heads, r % heads, s),
                                query_at(a, r / heads, r % heads, e),
                            ),
                        a.cos[s],
                        a.sin[s],
                        dh / 2,
                        j,
                    ),
                n,
            )
        }),
    decreases n,
{
    if n > 0 {
        let r = n - 1;
        let (heads, dh) = (a.cfg.heads as int, a.cfg.head_size());
        lemma_key_sum(a, d, exps, s, kv, j, (n - 1) as nat);
        lora::lemma_cell(r, a.seq, heads);
        let (t, head) = (r / heads, r % heads);
        lemma_match_back(a, d, exps, t, head, s);
        lemma_query(a, t, head, 0);
        let y = a.scaled_query(d, exps[r], t, head, s);
        let f = |e: int|
            single::product(
                match_back(a, d, exps, r / heads, r % heads, s),
                query_at(a, r / heads, r % heads, e),
            );
        assert forall|e: int| 0 <= e < y.len() implies #[trigger] f(e) == y[e] by {
            lemma_query(a, t, head, e);
        }
        assert(a.cos[s].len() == dh / 2 && a.sin[s].len() == dh / 2);
        lemma_turned_back(y, a.cos[s], a.sin[s], f, j);
    }
}

/// What comes back to a key: from every position that reads it and every head
/// of its group, in ascending order, the query weighed with the gradient of
/// the score, turned back by the angles of the key's position.
pub proof fn lemma_key_back(
    a: AttentionView,
    d: Seq<u32>,
    exps: Seq<Seq<u32>>,
    s: int,
    kv: int,
    j: int,
)
    requires
        a.wf(),
        a.has_rows(exps),
        d.len() == a.seq * a.cfg.hidden,
        0 <= s < a.seq,
        0 <= kv < a.cfg.kv_heads,
        0 <= j < 2 * (head_size(a.cfg) / 2),
    ensures
        ({
            let (heads, dh) = (a.cfg.heads as int, head_size(a.cfg));
            let w = a.cfg.kv_heads * dh;
            let c = kv * dh + j;
            let g = a.key_gradient(d, exps, exps.len());
            &&& g.len() == a.seq * w
            &&& 0 <= s * w + c < a.seq * w
            &&& g[s * w + c] == gathered(
                |r: int| reads_from(a.cfg, r, s, kv),
                |r: int|
                    turned_back(
                        |e: int|
                            single::product(
                                match_back(a, d, exps, r / heads, r % heads, s),
                                query_at(a, r / heads, r % heads, e),
                            ),
                        a.cos[s],
                        a.sin[s],
                        dh / 2,
                        j,
                    ),
                (a.seq * heads) as nat,
            )
        }),
{
    let dh = a.cfg.head_size();
    let c = kv * dh + j;
    attention::lemma_kv_bounds(a.cfg, a.seq, s, kv);
    lora::lemma_position(kv, j, a.cfg.kv_heads as int, dh);
    lora::lemma_position(s, c, a.seq, a.cfg.kv_size());
    lemma_key_sum(a, d, exps, s, kv, j, exps.len());
}

} // verus!
