//! What the forward pass computes, position by position and element by
//! element, from token ids to logits.
use crate::lora;
use crate::lora_laws;
use crate::lora_laws::inner;
use crate::model::attention::AttentionView;
use crate::model::attention_laws;
use crate::model::block;
use crate::model::block::{CacheView, TablesView};
use crate::model::llama::ModelView;
use crate::model::norm;
use crate::model::rope;
use crate::model::weights::{ProjView, WeightsView};
use crate::quant;
use crate::single;
use vstd::prelude::*;

verus! {

/// `f(0)^2 + f(1)^2 + ...`, `n` squares added from left to right, beginning
/// with negative zero.
pub open spec fn squares(f: spec_fn(int) -> u32, n: nat) -> u32
    decreases n,
{
    if n == 0 {
        single::SIGN
    } else {
        single::sum(squares(f, (n - 1) as nat), single::product(f(n - 1), f(n - 1)))
    }
}

/// `1 / sqrt(mean(f^2) + eps)` over `n` elements.
pub open spec fn inverse_rms(f: spec_fn(int) -> u32, n: nat, eps: u32) -> u32 {
    single::quotient(
        single::ONE,
        single::root(
            single::sum(single::quotient(squares(f, n), single::of_integer(n as int)), eps),
        ),
    )
}

pub proof fn lemma_squares(s: Seq<u32>, f: spec_fn(int) -> u32)
    requires
        forall|j: int| 0 <= j < s.len() ==> #[trigger] f(j) == s[j],
    ensures
        norm::square_sum(s) == squares(f, s.len()),
    decreases s.len(),
{
    if s.len() > 0 {
        lemma_squares(s.drop_last(), f);
        assert(f(s.len() - 1) == s[s.len() - 1]);
    }
}

/// Each element of a row is divided by the root mean square of its row and
/// weighed by the weight of its column.
pub proof fn lemma_norm_element(x: Seq<u32>, w: Seq<u32>, eps: u32, t: int, c: int)
    requires
        0 <= t,
        0 <= c < w.len(),
        t * w.len() + w.len() <= x.len(),
    ensures
        norm::normalized(x, w, eps).len() == x.len(),
        0 <= t * w.len() + c < x.len(),
        norm::normalized(x, w, eps)[t * w.len() + c] == single::product(
            single::product(
                x[t * w.len() + c],
                inverse_rms(|j: int| x[t * w.len() + j], w.len(), eps),
            ),
            w[c],
        ),
{
    let h = w.len() as int;
    lora::lemma_position(t, c, t + 1, h);
    assert((t + 1) * h == t * h + h) by (nonlinear_arith);
    let f = |j: int| x[t * h + j];
    lemma_squares(quant::block(x, t, h), f);
    lemma_same_squares(f, |j: int| x[t * w.len() + j], w.len());
    reveal(norm::row_scale);
}

pub proof fn lemma_same_squares(f: spec_fn(int) -> u32, g: spec_fn(int) -> u32, n: nat)
    requires
        forall|j: int| 0 <= j < n ==> #[trigger] f(j) == g(j),
    ensures
        squares(f, n) == squares(g, n),
    decreases n,
{
    if n > 0 {
        lemma_same_squares(f, g, (n - 1) as nat);
        assert(f(n - 1) == g(n - 1));
    }
}

/// Output `o` of a projection with `cols` inputs for row `t` of `x`: the sum of
/// the inputs times the weights of row `o`, and the term of an adapter.
pub open spec fn through(p: ProjView, x: Seq<u32>, cols: nat, t: int, o: int) -> u32 {
    match p {
        ProjView::Raw(w) => inner(|i: int| x[t * cols + i], |i: int| w[o * cols + i], cols),
        ProjView::Qlora(l) => {
            let w = l.weight.values();
            let base = inner(|i: int| x[t * cols + i], |i: int| w[o * cols + i], cols);
            match l.adapter {
                None => base,
                Some(ad) => single::sum(
                    base,
                    single::product(
                        inner(
                            |q: int| lora_laws::reduced(ad, x, t, q),
                            |q: int| ad.b[o * ad.r + q],
                            ad.r,
                        ),
                        single::quotient(ad.alpha, single::of_integer(ad.r as int)),
                    ),
                ),
            }
        },
    }
}

/// A projection turns each row of its input into one of its output.
pub proof fn lemma_proj_element(
    p: ProjView,
    x: Seq<u32>,
    batch: int,
    rows: nat,
    cols: nat,
    t: int,
    o: int,
)
    requires
        p.wf(rows as int, cols as int),
        0 <= t < batch,
        0 <= o < rows,
    ensures
        p.output(x, batch, rows as int).len() == batch * rows,
        0 <= t * rows + o < batch * rows,
        p.output(x, batch, rows as int)[t * rows + o] == through(p, x, cols, t, o),
{
    block::lemma_in_size(p, rows as int, cols as int);
    lora::lemma_position(t, o, batch, rows as int);
    match p {
        ProjView::Raw(w) => {
            lora_laws::lemma_product_right(x, w, batch, cols as int, rows as int, t, o);
            lora_laws::lemma_inner_same(
                |p: int| x[t * (cols as int) + p],
                |p: int| w[o * (cols as int) + p],
                |i: int| x[t * cols + i],
                |i: int| w[o * cols + i],
                cols,
            );
        },
        ProjView::Qlora(l) => {
            lora_laws::lemma_layer_output(l, x, batch as nat, t, o);
        },
    }
}

/// What enters the first block at position `t` is the embedding of the id
/// there.
pub proof fn lemma_first_input<E: Fn(u32) -> u32>(
    m: ModelView,
    ids: Seq<u32>,
    tables: TablesView,
    exp: E,
    caches: Seq<CacheView>,
    t: int,
    c: int,
)
    requires
        m.traced(ids, tables, exp, caches),
        0 <= t < ids.len(),
        0 <= c < m.cfg.hidden,
    ensures
        ({
            let h = m.cfg.hidden;
            let x = if m.layers.len() > 0 && caches.len() > 0 {
                caches[0].x_in
            } else {
                m.hidden(ids, caches, 0)
            };
            &&& x.len() == ids.len() * h
            &&& 0 <= t * h + c < ids.len() * h
            &&& x[t * h + c] == m.embed[ids[t] * h + c]
        }),
{
    let h = m.cfg.hidden as int;
    lora::lemma_position(t, c, ids.len() as int, h);
    if caches.len() > 0 {
        assert(caches[0].x_in == m.hidden(ids, caches, 0));
    }
    assert(m.embedded(ids)[t * h + c] == m.embed[ids[t] * h + c]);
}

/// Changing one number of the embedding, in row `r` and column `k`, changes the
/// input of the first block in that column of exactly the positions that hold
/// the id `r`.
pub proof fn lemma_embedding_change(
    m: ModelView,
    ids: Seq<u32>,
    caches: Seq<CacheView>,
    r: int,
    k: int,
    x: u32,
    t: int,
    c: int,
)
    requires
        0 <= r < m.cfg.vocab,
        0 <= k < m.cfg.hidden,
        m.embed.len() == m.cfg.vocab * m.cfg.hidden,
        forall|i: int| 0 <= i < ids.len() ==> #[trigger] ids[i] < m.cfg.vocab,
        x != m.embed[r * m.cfg.hidden + k],
        0 <= t < ids.len(),
        0 <= c < m.cfg.hidden,
    ensures
        ({
            let h = m.cfg.hidden;
            let other = ModelView { embed: m.embed.update(r * h + k, x), ..m };
            (other.hidden(ids, caches, 0)[t * h + c] != m.hidden(ids, caches, 0)[t * h + c]) <==> (
            ids[t] == r && c == k)
        }),
{
    let h = m.cfg.hidden as int;
    let v = m.cfg.vocab as int;
    lora::lemma_position(t, c, ids.len() as int, h);
    lora::lemma_position(r, k, v, h);
    assert(ids[t] < m.cfg.vocab);
    lora::lemma_position(ids[t] as int, c, v, h);
    let other = ModelView { embed: m.embed.update(r * h + k, x), ..m };
    assert(m.hidden(ids, caches, 0)[t * h + c] == m.embed[ids[t] * h + c]);
    assert(other.hidden(ids, caches, 0)[t * h + c] == other.embed[ids[t] * h + c]);
}

/// What leaves block `i` at position `t`.
pub open spec fn block_out(w: WeightsView, b: CacheView, inter: nat, h: nat, t: int, c: int) -> u32 {
    single::sum(b.x_mid[t * h + c], through(w.down, b.act, inter, t, c))
}

/// The attention half of block `i` at position `t`: queries, keys and values
/// are projections of the normalized input, and the projected attention is
/// added to the input. Where a block follows, it gets what this one gives out.
pub proof fn lemma_block_attention<E: Fn(u32) -> u32>(
    m: ModelView,
    ids: Seq<u32>,
    tables: TablesView,
    exp: E,
    caches: Seq<CacheView>,
    i: int,
    t: int,
    c: int,
    e: int,
)
    requires
        m.runs(ids, tables),
        m.traced(ids, tables, exp, caches),
        0 <= i < caches.len(),
        0 <= t < ids.len(),
        0 <= c < m.cfg.hidden,
        0 <= e < m.cfg.kv_size(),
    ensures
        ({
            let (h, kv) = (m.cfg.hidden as nat, m.cfg.kv_size() as nat);
            let (w, b) = (m.layers[i], caches[i]);
            &&& b.xn_attn[t * h + c] == single::product(
                single::product(
                    b.x_in[t * h + c],
                    inverse_rms(|j: int| b.x_in[t * h + j], h, m.cfg.rms_eps),
                ),
                w.attn_norm[c],
            )
            &&& b.q[t * h + c] == through(w.q, b.xn_attn, h, t, c)
            &&& b.k[t * kv + e] == through(w.k, b.xn_attn, h, t, e)
            &&& b.v[t * kv + e] == through(w.v, b.xn_attn, h, t, e)
            &&& b.x_mid[t * h + c] == single::sum(
                b.x_in[t * h + c],
                through(w.o, b.attn_out, h, t, c),
            )
        }),
{
    lemma_block_sizes(m, ids, tables, exp, caches, i);
    let (h, kv) = (m.cfg.hidden as nat, m.cfg.kv_size() as nat);
    let (w, b) = (m.layers[i], caches[i]);
    let seq = ids.len() as int;
    block::lemma_kind_wf(w, m.cfg);
    lora::lemma_position(t, c, seq, h as int);
    lora::lemma_position(t, e, seq, kv as int);
    lora::lemma_position(t, h - 1, seq, h as int);
    lemma_norm_element(b.x_in, w.attn_norm, m.cfg.rms_eps, t, c);
    lemma_same_squares(
        |j: int| b.x_in[t * w.attn_norm.len() + j],
        |j: int| b.x_in[t * h + j],
        h,
    );
    lemma_proj_element(w.q, b.xn_attn, seq, h, h, t, c);
    lemma_proj_element(w.k, b.xn_attn, seq, kv, h, t, e);
    lemma_proj_element(w.v, b.xn_attn, seq, kv, h, t, e);
    lemma_proj_element(w.o, b.attn_out, seq, h, h, t, c);
}

/// The heads of block `i` at position `t`: the exponentials are those of the
/// scores of the recorded queries and keys at the positions up to `t`, and a
/// head gives out the recorded values of these positions, weighed with their
/// shares.
pub proof fn lemma_block_heads<E: Fn(u32) -> u32>(
    m: ModelView,
    ids: Seq<u32>,
    tables: TablesView,
    exp: E,
    caches: Seq<CacheView>,
    i: int,
    t: int,
    head: int,
    j: int,
    s: int,
)
    requires
        m.runs(ids, tables),
        m.traced(ids, tables, exp, caches),
        0 <= i < caches.len(),
        0 <= t < ids.len(),
        0 <= head < m.cfg.heads,
        0 <= j < attention_laws::head_size(m.cfg),
        0 <= s <= t,
    ensures
        ({
            let b = caches[i];
            let a = AttentionView {
                cfg: m.cfg,
                seq: ids.len() as int,
                q: b.q,
                k: b.k,
                v: b.v,
                cos: tables.cos,
                sin: tables.sin,
            };
            let c = head * attention_laws::head_size(m.cfg) + j;
            let row = attention_laws::row_at(a, b.exps, t, head);
            &&& row.len() == t + 1
            &&& call_ensures(
                exp,
                (single::difference(
                    attention_laws::match_at(a, t, head, s),
                    attention_laws::highest(
                        |p: int| attention_laws::match_at(a, t, head, p),
                        (t + 1) as nat,
                    ),
                ),),
                row[s],
            )
            &&& b.attn_out[t * m.cfg.hidden + c] == inner(
                |p: int| attention_laws::weight_at(a, b.exps, t, head, p),
                |p: int|
                    attention_laws::value_at(
                        a,
                        p,
                        attention_laws::shared_head(m.cfg, head),
                        j,
                    ),
                (t + 1) as nat,
            )
        }),
{
    lemma_block_sizes(m, ids, tables, exp, caches, i);
    let b = caches[i];
    let a = b.attention(m.cfg, ids.len() as int, tables);
    assert(a.wf());
    attention_laws::lemma_exponential(a, exp, b.exps, t, head, s);
    attention_laws::lemma_output(a, b.exps, t, head, j);
}

/// The rotation of pair `k` at position `p`: the angle is `p` times the
/// frequency `theta^(-2k / head_size)`.
pub proof fn lemma_rotation<P: Fn(u32, u32) -> u32, C: Fn(u32) -> u32, S: Fn(u32) -> u32>(
    m: ModelView,
    ids: Seq<u32>,
    tables: TablesView,
    powf: P,
    cosine: C,
    sine: S,
    p: int,
    k: int,
) -> (freq: u32)
    requires
        m.rotates(ids, tables, powf, cosine, sine),
        m.layers.len() > 0,
        0 <= p < ids.len(),
        0 <= k < attention_laws::head_size(m.cfg) / 2,
    ensures
        tables.cos.len() == ids.len(),
        tables.sin.len() == ids.len(),
        tables.cos[p].len() == attention_laws::head_size(m.cfg) / 2,
        tables.sin[p].len() == attention_laws::head_size(m.cfg) / 2,
        call_ensures(
            powf,
            (
                m.cfg.rope_theta,
                single::quotient(
                    single::negation(single::of_integer(2 * k)),
                    single::of_integer(attention_laws::head_size(m.cfg)),
                ),
            ),
            freq,
        ),
        call_ensures(
            cosine,
            (single::product(single::of_integer(p), freq),),
            tables.cos[p][k],
        ),
        call_ensures(sine, (single::product(single::of_integer(p), freq),), tables.sin[p][k]),
{
    let (c, s) = (tables.cos[p][k], tables.sin[p][k]);
    assert(rope::is_entry(m.cfg, powf, cosine, sine, p, k, c, s));
    choose|freq: u32|
        {
            &&& #[trigger] call_ensures(
                powf,
                (m.cfg.rope_theta, rope::frequency_power(m.cfg, k)),
                freq,
            )
            &&& call_ensures(cosine, (rope::angle(p, freq),), c)
            &&& call_ensures(sine, (rope::angle(p, freq),), s)
        }
}

/// The MLP half of block `i` at position `t`: the normalized sum is projected by
/// `gate` and `up`, `silu(gate) * up` goes through the down projection, and that
/// is added to what came in; the next block, or the head, gets the result.
pub proof fn lemma_block_mlp<E: Fn(u32) -> u32>(
    m: ModelView,
    ids: Seq<u32>,
    tables: TablesView,
    exp: E,
    caches: Seq<CacheView>,
    i: int,
    t: int,
    c: int,
    e: int,
)
    requires
        m.runs(ids, tables),
        m.traced(ids, tables, exp, caches),
        0 <= i < caches.len(),
        0 <= t < ids.len(),
        0 <= c < m.cfg.hidden,
        0 <= e < m.cfg.intermediate,
    ensures
        ({
            let (h, inter) = (m.cfg.hidden as nat, m.cfg.intermediate as nat);
            let (w, b) = (m.layers[i], caches[i]);
            let g = b.gate[t * inter + e];
            let a = b.gate_exps[t * inter + e];
            &&& b.xn_mlp[t * h + c] == single::product(
                single::product(
                    b.x_mid[t * h + c],
                    inverse_rms(|j: int| b.x_mid[t * h + j], h, m.cfg.rms_eps),
                ),
                w.mlp_norm[c],
            )
            &&& g == through(w.gate, b.xn_mlp, h, t, e)
            &&& b.up[t * inter + e] == through(w.up, b.xn_mlp, h, t, e)
            &&& call_ensures(exp, (single::negation(g),), a)
            &&& b.act[t * inter + e] == single::product(
                single::quotient(g, single::sum(single::ONE, a)),
                b.up[t * inter + e],
            )
            &&& m.hidden(ids, caches, i + 1)[t * h + c] == block_out(w, b, inter, h, t, c)
            &&& i + 1 < caches.len() ==> caches[i + 1].x_in[t * h + c] == block_out(
                w,
                b,
                inter,
                h,
                t,
                c,
            )
        }),
{
    lemma_block_sizes(m, ids, tables, exp, caches, i);
    let (h, inter) = (m.cfg.hidden as nat, m.cfg.intermediate as nat);
    let (w, b) = (m.layers[i], caches[i]);
    let seq = ids.len() as int;
    block::lemma_kind_wf(w, m.cfg);
    lora::lemma_position(t, c, seq, h as int);
    lora::lemma_position(t, e, seq, inter as int);
    lora::lemma_position(t, h - 1, seq, h as int);
    lemma_norm_element(b.x_mid, w.mlp_norm, m.cfg.rms_eps, t, c);
    lemma_same_squares(
        |j: int| b.x_mid[t * w.mlp_norm.len() + j],
        |j: int| b.x_mid[t * h + j],
        h,
    );
    lemma_proj_element(w.gate, b.xn_mlp, seq, inter, h, t, e);
    lemma_proj_element(w.up, b.xn_mlp, seq, inter, h, t, e);
    lemma_proj_element(w.down, b.act, seq, h, inter, t, c);
    reveal(block::silu_value);
    if i + 1 < caches.len() {
        assert(caches[i + 1].x_in == m.hidden(ids, caches, i + 1));
    }
}

/// The sizes of what block `i` records.
pub proof fn lemma_block_sizes<E: Fn(u32) -> u32>(
    m: ModelView,
    ids: Seq<u32>,
    tables: TablesView,
    exp: E,
    caches: Seq<CacheView>,
    i: int,
)
    requires
        m.runs(ids, tables),
        m.traced(ids, tables, exp, caches),
        0 <= i < caches.len(),
    ensures
        block::block_runs(m.cfg, m.layers[i], ids.len() as int),
        caches[i].recorded(m.cfg, m.layers[i], ids.len() as int, tables, exp),
        caches[i].x_in.len() == ids.len() * m.cfg.hidden,
        caches[i].xn_attn.len() == ids.len() * m.cfg.hidden,
        caches[i].q.len() == ids.len() * m.cfg.hidden,
        caches[i].k.len() == ids.len() * m.cfg.kv_size(),
        caches[i].v.len() == ids.len() * m.cfg.kv_size(),
        caches[i].attn_out.len() == ids.len() * m.cfg.hidden,
        caches[i].x_mid.len() == ids.len() * m.cfg.hidden,
        caches[i].xn_mlp.len() == ids.len() * m.cfg.hidden,
        caches[i].gate.len() == ids.len() * m.cfg.intermediate,
        caches[i].up.len() == ids.len() * m.cfg.intermediate,
        caches[i].act.len() == ids.len() * m.cfg.intermediate,
        m.cfg.hidden > 0,
        m.cfg.kv_size() > 0,
        m.hidden(ids, caches, i + 1).len() == ids.len() * m.cfg.hidden,
    decreases i,
{
    let seq = ids.len() as int;
    assert(block::block_runs(m.cfg, m.layers[i], seq));
    assert(caches[i].x_in == m.hidden(ids, caches, i));
    block::lemma_block_sizes(m.cfg);
    if i > 0 {
        lemma_block_sizes(m, ids, tables, exp, caches, i - 1);
    } else {
        let h = m.cfg.hidden as int;
        assert(seq * h >= 0) by (nonlinear_arith)
            requires
                seq >= 0,
                h >= 0,
        ;
    }
    block::lemma_recorded_sizes(caches[i], m.cfg, m.layers[i], seq, tables, exp);
}

/// The size of the last hidden state.
pub proof fn lemma_hidden_size<E: Fn(u32) -> u32>(
    m: ModelView,
    ids: Seq<u32>,
    tables: TablesView,
    exp: E,
    caches: Seq<CacheView>,
)
    requires
        m.runs(ids, tables),
        m.traced(ids, tables, exp, caches),
        caches.len() == m.layers.len(),
    ensures
        m.hidden(ids, caches, caches.len() as int).len() == ids.len() * m.cfg.hidden,
{
    if caches.len() > 0 {
        lemma_block_sizes(m, ids, tables, exp, caches, caches.len() - 1);
    } else {
        let (s, h) = (ids.len() as int, m.cfg.hidden as int);
        assert(s * h >= 0) by (nonlinear_arith)
            requires
                s >= 0,
                h >= 0,
        ;
    }
}

/// The logit of token `v` at position `t` is the product of the normalized last
/// hidden state there with the embedding of `v`.
pub proof fn lemma_logit<E: Fn(u32) -> u32>(
    m: ModelView,
    ids: Seq<u32>,
    tables: TablesView,
    exp: E,
    caches: Seq<CacheView>,
    t: int,
    v: int,
)
    requires
        m.runs(ids, tables),
        m.traced(ids, tables, exp, caches),
        caches.len() == m.layers.len(),
        0 <= t < ids.len(),
        0 <= v < m.cfg.vocab,
    ensures
        ({
            let h = m.cfg.hidden as nat;
            let x = m.hidden(ids, caches, m.layers.len() as int);
            &&& m.logits(ids, caches).len() == ids.len() * m.cfg.vocab
            &&& 0 <= t * m.cfg.vocab + v < ids.len() * m.cfg.vocab
            &&& m.logits(ids, caches)[t * m.cfg.vocab + v] == inner(
                |c: int|
                    single::product(
                        single::product(
                            x[t * h + c],
                            inverse_rms(|j: int| x[t * h + j], h, m.cfg.rms_eps),
                        ),
                        m.final_norm[c],
                    ),
                |c: int| m.embed[v * h + c],
                h,
            )
        }),
{
    lemma_hidden_size(m, ids, tables, exp, caches);
    let h = m.cfg.hidden as nat;
    let seq = ids.len() as int;
    let x = m.hidden(ids, caches, m.layers.len() as int);
    let y = norm::normalized(x, m.final_norm, m.cfg.rms_eps);
    lora_laws::lemma_product_right(y, m.embed, seq, h as int, m.cfg.vocab as int, t, v);
    let scale = inverse_rms(|j: int| x[t * h + j], h, m.cfg.rms_eps);
    let f = |p: int| y[t * (h as int) + p];
    let g = |c: int| single::product(single::product(x[t * h + c], scale), m.final_norm[c]);
    assert forall|c: int| 0 <= c < h implies #[trigger] f(c) == g(c) by {
        lora::lemma_position(t, c, seq, h as int);
        lora::lemma_position(t, h - 1, seq, h as int);
        lemma_norm_element(x, m.final_norm, m.cfg.rms_eps, t, c);
        lemma_same_squares(
            |j: int| x[t * m.final_norm.len() + j],
            |j: int| x[t * h + j],
            h,
        );
    }
    lora_laws::lemma_inner_same(
        f,
        |p: int| m.embed[v * (h as int) + p],
        |c: int|
            single::product(
                single::product(
                    x[t * h + c],
                    inverse_rms(|j: int| x[t * h + j], h, m.cfg.rms_eps),
                ),
                m.final_norm[c],
            ),
        |c: int| m.embed[v * h + c],
        h,
    );
}

} // verus!
