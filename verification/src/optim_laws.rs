//! What a step of the optimizer does to each element of each parameter.
use crate::error::QloraError;
use crate::float_laws;
use crate::ieee;
use crate::optim;
use crate::optim::{AdamConfig, AdamStats, AdamView};
use crate::quant;
use crate::quant_laws;
use crate::single;
use vstd::prelude::*;

verus! {

/// Whether the parameters up to and with `i` have gradients of their own
/// lengths.
pub open spec fn paired(params: Seq<Seq<u32>>, grads: Seq<Seq<u32>>, i: int) -> bool {
    &&& params.len() == grads.len()
    &&& 0 <= i < params.len()
    &&& forall|k: int| 0 <= k <= i ==> (#[trigger] params[k]).len() == grads[k].len()
}

/// The first moment that the optimizer keeps for element `j` of parameter `i`
/// with `n` elements; zero where it keeps none.
pub open spec fn kept_m(a: AdamView, i: int, n: nat, j: int) -> u32 {
    if i < a.states.len() && a.states[i].numel == n {
        quant::decoded_scale(
            a.states[i].m_codes[j],
            a.states[i].m_scales[j / (a.config.block_size as int)],
        )
    } else {
        0
    }
}

/// The square root of the second moment, in the same way.
pub open spec fn kept_s(a: AdamView, i: int, n: nat, j: int) -> u32 {
    if i < a.states.len() && a.states[i].numel == n {
        quant::decoded_scale(
            a.states[i].v_codes[j],
            a.states[i].v_scales[j / (a.config.block_size as int)],
        )
    } else {
        0
    }
}

/// `beta * m + (1 - beta) * g`.
pub open spec fn mixed(beta: u32, m: u32, g: u32) -> u32 {
    single::sum(
        single::product(beta, m),
        single::product(single::difference(single::ONE, beta), g),
    )
}

/// `beta * s * s + (1 - beta) * g * g`.
pub open spec fn mixed_squares(beta: u32, s: u32, g: u32) -> u32 {
    single::sum(
        single::product(single::product(beta, s), s),
        single::product(single::product(single::difference(single::ONE, beta), g), g),
    )
}

/// `lr * m_hat / (sqrt(v_hat) + eps)` with `m_hat = m / (1 - beta1^t)` and
/// `v_hat = v / (1 - beta2^t)`.
pub open spec fn update(lr: u32, eps: u32, m: u32, v: u32, powers: (u32, u32)) -> u32 {
    single::quotient(
        single::product(lr, single::quotient(m, single::difference(single::ONE, powers.0))),
        single::sum(
            single::root(single::quotient(v, single::difference(single::ONE, powers.1))),
            eps,
        ),
    )
}

proof fn lemma_reach(params: Seq<Seq<u32>>, grads: Seq<Seq<u32>>, from: int, i: int)
    requires
        paired(params, grads, i),
        0 <= from <= i + 1,
    ensures
        optim::agreeing(params, grads, from) > i,
        optim::agreeing(params, grads, from) <= params.len(),
    decreases params.len() - from,
{
    if from <= i {
        assert(params[from].len() == grads[from].len());
        lemma_reach(params, grads, from + 1, i);
    } else {
        lemma_past(params, grads, from);
    }
}

proof fn lemma_past(params: Seq<Seq<u32>>, grads: Seq<Seq<u32>>, from: int)
    requires
        0 <= from <= params.len(),
    ensures
        from <= optim::agreeing(params, grads, from) <= params.len(),
    decreases params.len() - from,
{
    if from < params.len() && params[from].len() == grads[from].len() {
        lemma_past(params, grads, from + 1);
    }
}

/// What a state keeps of its elements before the first step is zero.
proof fn lemma_fresh(n: nat, d: nat, j: int)
    requires
        d > 0,
        0 <= j < n,
    ensures
        optim::StateView::fresh(n, d).m(j, d as int) == 0,
        optim::StateView::fresh(n, d).s(j, d as int) == 0,
{
    quant::lemma_block_of(n, d, j as nat);
    quant::lemma_decoded_nothing();
}

/// Every element of a parameter that makes its step, whichever block it lies
/// in, gets `p - lr * m_hat / (sqrt(v_hat) + eps)` from its own gradient and
/// moments.
pub proof fn lemma_element(
    a: AdamView,
    params: Seq<Seq<u32>>,
    grads: Seq<Seq<u32>>,
    powers: Seq<(u32, u32)>,
    next: Seq<Seq<u32>>,
    later: AdamView,
    r: Result<AdamStats, QloraError>,
    i: int,
    j: int,
)
    requires
        a.makes_step(params, grads, powers, next, later, r),
        a.config.block_size > 0,
        paired(params, grads, i),
        0 <= j < params[i].len(),
    ensures
        ({
            let c = a.config;
            let g = grads[i][j];
            let n = params[i].len();
            &&& next.len() == params.len()
            &&& next[i].len() == n
            &&& next[i][j] == single::difference(
                params[i][j],
                update(
                    c.lr,
                    c.eps,
                    mixed(c.beta1, kept_m(a, i, n, j), g),
                    mixed_squares(c.beta2, kept_s(a, i, n, j), g),
                    powers[i],
                ),
            )
        }),
{
    let c = a.config;
    let n = params[i].len();
    lemma_reach(params, grads, 0, i);
    reveal(optim::moment);
    reveal(optim::second_moment);
    reveal(optim::moved);
    lemma_fresh(n, c.block_size as nat, j);
}

/// An element's place does not matter: elements with the same value, gradient
/// and kept moments, whatever their parameters and blocks and whatever the
/// block sizes, get the same value.
pub proof fn lemma_same_elements(
    a: AdamView,
    params: Seq<Seq<u32>>,
    grads: Seq<Seq<u32>>,
    powers: Seq<(u32, u32)>,
    next: Seq<Seq<u32>>,
    later: AdamView,
    r: Result<AdamStats, QloraError>,
    b: AdamView,
    params2: Seq<Seq<u32>>,
    grads2: Seq<Seq<u32>>,
    powers2: Seq<(u32, u32)>,
    next2: Seq<Seq<u32>>,
    later2: AdamView,
    r2: Result<AdamStats, QloraError>,
    i: int,
    j: int,
    k: int,
    l: int,
)
    requires
        a.makes_step(params, grads, powers, next, later, r),
        b.makes_step(params2, grads2, powers2, next2, later2, r2),
        a.config.block_size > 0,
        b.config.block_size > 0,
        a.config.lr == b.config.lr,
        a.config.beta1 == b.config.beta1,
        a.config.beta2 == b.config.beta2,
        a.config.eps == b.config.eps,
        paired(params, grads, i),
        paired(params2, grads2, k),
        0 <= j < params[i].len(),
        0 <= l < params2[k].len(),
        powers[i] == powers2[k],
        params[i][j] == params2[k][l],
        grads[i][j] == grads2[k][l],
        kept_m(a, i, params[i].len(), j) == kept_m(b, k, params2[k].len(), l),
        kept_s(a, i, params[i].len(), j) == kept_s(b, k, params2[k].len(), l),
    ensures
        next[i][j] == next2[k][l],
{
    lemma_element(a, params, grads, powers, next, later, r, i, j);
    lemma_element(b, params2, grads2, powers2, next2, later2, r2, k, l);
}

/// The first step of a parameter gives the same values for any block size and
/// any number of resident pages.
pub proof fn lemma_first_step(
    a: AdamView,
    b: AdamView,
    params: Seq<Seq<u32>>,
    grads: Seq<Seq<u32>>,
    powers: Seq<(u32, u32)>,
    next: Seq<Seq<u32>>,
    later: AdamView,
    r: Result<AdamStats, QloraError>,
    next2: Seq<Seq<u32>>,
    later2: AdamView,
    r2: Result<AdamStats, QloraError>,
    i: int,
)
    requires
        a.makes_step(params, grads, powers, next, later, r),
        b.makes_step(params, grads, powers, next2, later2, r2),
        a.config.block_size > 0,
        b.config.block_size > 0,
        b.config == (AdamConfig {
            block_size: b.config.block_size,
            max_resident_pages: b.config.max_resident_pages,
            ..a.config
        }),
        paired(params, grads, i),
        i >= a.states.len() || a.states[i].numel != params[i].len(),
        i >= b.states.len() || b.states[i].numel != params[i].len(),
    ensures
        next[i] == next2[i],
{
    lemma_reach(params, grads, 0, i);
    assert forall|j: int| 0 <= j < params[i].len() implies next[i][j] == next2[i][j] by {
        lemma_element(a, params, grads, powers, next, later, r, i, j);
        lemma_element(b, params, grads, powers, next2, later2, r2, i, j);
    }
    assert(next[i] =~= next2[i]);
}

/// A step goes against the gradient: where the kept first moment is zero, as
/// before the first step, or on the side of the gradient, an element with a
/// positive gradient does not grow, and one with a negative gradient does not
/// shrink.
pub proof fn lemma_direction(
    a: AdamView,
    params: Seq<Seq<u32>>,
    grads: Seq<Seq<u32>>,
    powers: Seq<(u32, u32)>,
    next: Seq<Seq<u32>>,
    later: AdamView,
    r: Result<AdamStats, QloraError>,
    i: int,
    j: int,
)
    requires
        a.makes_step(params, grads, powers, next, later, r),
        a.config.fault() is None,
        single::order_key(a.config.eps) > 0,
        optim::is_decay(powers[i].0),
        optim::is_decay(powers[i].1),
        paired(params, grads, i),
        0 <= j < params[i].len(),
        single::is_finite(params[i][j]),
        !single::is_nan(next[i][j]),
    ensures
        ({
            let m = single::order_key(kept_m(a, i, params[i].len(), j));
            let g = single::order_key(grads[i][j]);
            let (p, q) = (single::order_key(params[i][j]), single::order_key(next[i][j]));
            (m >= 0 && g >= 0 ==> q <= p) && (m <= 0 && g <= 0 ==> q >= p)
        }),
{
    lemma_element(a, params, grads, powers, next, later, r, i, j);
    let c = a.config;
    let n = params[i].len();
    let g = grads[i][j];
    let m0 = kept_m(a, i, n, j);
    let s0 = kept_s(a, i, n, j);
    let m = mixed(c.beta1, m0, g);
    let v = mixed_squares(c.beta2, s0, g);
    let u = update(c.lr, c.eps, m, v, powers[i]);
    float_laws::lemma_difference_side(params[i][j], u);
    lemma_update_side(c, m0, s0, g, powers[i]);
}

/// The update is on the side of the gradient.
pub proof fn lemma_update_side(c: AdamConfig, m0: u32, s0: u32, g: u32, powers: (u32, u32))
    requires
        c.fault() is None,
        single::order_key(c.eps) > 0,
        optim::is_decay(powers.0),
        optim::is_decay(powers.1),
        !single::is_nan(
            update(
                c.lr,
                c.eps,
                mixed(c.beta1, m0, g),
                mixed_squares(c.beta2, s0, g),
                powers,
            ),
        ),
    ensures
        ({
            let u = single::order_key(
                update(
                    c.lr,
                    c.eps,
                    mixed(c.beta1, m0, g),
                    mixed_squares(c.beta2, s0, g),
                    powers,
                ),
            );
            let (m, x) = (single::order_key(m0), single::order_key(g));
            (m >= 0 && x >= 0 ==> u >= 0) && (m <= 0 && x <= 0 ==> u <= 0)
        }),
{
    let m = mixed(c.beta1, m0, g);
    let v = mixed_squares(c.beta2, s0, g);
    let top = single::product(
        c.lr,
        single::quotient(m, single::difference(single::ONE, powers.0)),
    );
    let bottom = single::sum(
        single::root(single::quotient(v, single::difference(single::ONE, powers.1))),
        c.eps,
    );
    float_laws::lemma_quotient_numbers(top, bottom);
    lemma_bottom_side(v, c.eps, powers.1);
    lemma_top_side(c.lr, m, powers.0);
    lemma_moment_side(c.beta1, m0, g);
    float_laws::lemma_quotient_side(top, bottom);
}

proof fn lemma_bottom_side(v: u32, eps: u32, power: u32)
    requires
        single::order_key(eps) > 0,
        !single::is_nan(
            single::sum(
                single::root(single::quotient(v, single::difference(single::ONE, power))),
                eps,
            ),
        ),
    ensures
        single::order_key(
            single::sum(
                single::root(single::quotient(v, single::difference(single::ONE, power))),
                eps,
            ),
        ) > 0,
{
    let vh = single::quotient(v, single::difference(single::ONE, power));
    float_laws::lemma_sum_side(single::root(vh), eps);
    float_laws::lemma_root_side(vh);
}

proof fn lemma_top_side(lr: u32, m: u32, power: u32)
    requires
        single::order_key(lr) >= 0,
        optim::is_decay(power),
        !single::is_nan(
            single::product(lr, single::quotient(m, single::difference(single::ONE, power))),
        ),
    ensures
        ({
            let t = single::order_key(
                single::product(lr, single::quotient(m, single::difference(single::ONE, power))),
            );
            let k = single::order_key(m);
            !single::is_nan(m) && (k >= 0 ==> t >= 0) && (k <= 0 ==> t <= 0)
        }),
{
    let left = single::difference(single::ONE, power);
    let mh = single::quotient(m, left);
    float_laws::lemma_one_minus(power);
    float_laws::lemma_product_sign(lr, mh);
    float_laws::lemma_product_side(lr, mh);
    float_laws::lemma_quotient_side(m, left);
}

proof fn lemma_moment_side(beta: u32, m0: u32, g: u32)
    requires
        optim::is_decay(beta),
        !single::is_nan(mixed(beta, m0, g)),
    ensures
        ({
            let k = single::order_key(mixed(beta, m0, g));
            let (m, x) = (single::order_key(m0), single::order_key(g));
            (m >= 0 && x >= 0 ==> k >= 0) && (m <= 0 && x <= 0 ==> k <= 0)
        }),
{
    let keep = single::difference(single::ONE, beta);
    float_laws::lemma_one_minus(beta);
    float_laws::lemma_sum_side(single::product(beta, m0), single::product(keep, g));
    float_laws::lemma_product_side(beta, m0);
    float_laws::lemma_product_side(keep, g);
}

/// The new moments of a parameter.
proof fn lemma_new_moments(
    a: AdamView,
    params: Seq<Seq<u32>>,
    grads: Seq<Seq<u32>>,
    i: int,
    j: int,
    top_m: int,
    top_s: int,
)
    requires
        a.config.block_size > 0,
        paired(params, grads, i),
        0 <= j < params[i].len(),
        forall|k: int|
            0 <= k < params[i].len() && k / (a.config.block_size as int) == j / (
            a.config.block_size as int) ==> #[trigger] bounded_moments(
                a,
                params,
                grads,
                i,
                k,
                top_m,
                top_s,
            ),
    ensures
        ({
            let c = a.config;
            let d = c.block_size as int;
            let n = params[i].len();
            let st = optim::state_for(a.states, i, n, d as nat);
            let ms = st.next_ms(c, grads[i]);
            let roots = st.next_roots(c, grads[i]);
            &&& ms.len() == n
            &&& roots.len() == n
            &&& ms[j] == mixed(c.beta1, kept_m(a, i, n, j), grads[i][j])
            &&& roots[j] == single::root(mixed_squares(c.beta2, kept_s(a, i, n, j), grads[i][j]))
            &&& quant_laws::group_within(ms, d, j, top_m)
            &&& quant_laws::group_within(roots, d, j, top_s)
        }),
{
    let c = a.config;
    let d = c.block_size as int;
    let n = params[i].len();
    let st = optim::state_for(a.states, i, n, d as nat);
    let ms = st.next_ms(c, grads[i]);
    let roots = st.next_roots(c, grads[i]);
    assert forall|k: int| 0 <= k < n implies #[trigger] ms[k] == mixed(
        c.beta1,
        kept_m(a, i, n, k),
        grads[i][k],
    ) by {
        reveal(optim::moment);
        lemma_fresh(n, d as nat, k);
    }
    assert forall|k: int| 0 <= k < n implies #[trigger] roots[k] == single::root(
        mixed_squares(c.beta2, kept_s(a, i, n, k), grads[i][k]),
    ) by {
        reveal(optim::second_moment);
        lemma_fresh(n, d as nat, k);
    }
    assert forall|k: int| 0 <= k < n && k / d == j / d implies single::is_finite(#[trigger] ms[k])
        && single::magnitude(ms[k]) <= top_m by {
        assert(bounded_moments(a, params, grads, i, k, top_m, top_s));
    }
    assert forall|k: int| 0 <= k < n && k / d == j / d implies single::is_finite(
        #[trigger] roots[k],
    ) && single::magnitude(roots[k]) <= top_s by {
        assert(bounded_moments(a, params, grads, i, k, top_m, top_s));
    }
}

/// What the optimizer keeps after a step: the moments of every element, to
/// within the error of an 8-bit code relative to the largest of its own block.
pub proof fn lemma_kept_moments(
    a: AdamView,
    params: Seq<Seq<u32>>,
    grads: Seq<Seq<u32>>,
    powers: Seq<(u32, u32)>,
    next: Seq<Seq<u32>>,
    later: AdamView,
    r: Result<AdamStats, QloraError>,
    i: int,
    j: int,
    top_m: int,
    top_s: int,
)
    requires
        a.makes_step(params, grads, powers, next, later, r),
        a.config.block_size > 0,
        paired(params, grads, i),
        0 <= j < params[i].len(),
        forall|k: int|
            0 <= k < params[i].len() && k / (a.config.block_size as int) == j / (
            a.config.block_size as int) ==> #[trigger] bounded_moments(a, params, grads, i, k, top_m, top_s),
    ensures
        ({
            let c = a.config;
            let n = params[i].len();
            let m = mixed(c.beta1, kept_m(a, i, n, j), grads[i][j]);
            let s = single::root(mixed_squares(c.beta2, kept_s(a, i, n, j), grads[i][j]));
            let em = ieee::apart(single::value(kept_m(later, i, n, j)), single::value(m));
            let es = ieee::apart(single::value(kept_s(later, i, n, j)), single::value(s));
            &&& later.config == c
            &&& i < later.states.len()
            &&& later.states[i].numel == n
            &&& later.states[i].step == a.next_step(params, i)
            &&& 254 * 0x100_0000 * em <= (0x100_0000 + 636) * top_m + 127 * 0x100_0000
            &&& 254 * 0x100_0000 * es <= (0x100_0000 + 636) * top_s + 127 * 0x100_0000
        }),
{
    let c = a.config;
    let d = c.block_size as int;
    let n = params[i].len();
    lemma_reach(params, grads, 0, i);
    let st = optim::state_for(a.states, i, n, d as nat);
    let after = st.next(c, grads[i]);
    assert(later.states[i] == after);
    lemma_new_moments(a, params, grads, i, j, top_m, top_s);
    let ms = st.next_ms(c, grads[i]);
    let roots = st.next_roots(c, grads[i]);
    quant_laws::lemma_block_code(ms, d, j, top_m);
    quant_laws::lemma_block_code(roots, d, j, top_s);
}

/// Whether the new moments of element `k` are finite and no larger than
/// `top_m` and `top_s`, in the smallest units.
pub open spec fn bounded_moments(
    a: AdamView,
    params: Seq<Seq<u32>>,
    grads: Seq<Seq<u32>>,
    i: int,
    k: int,
    top_m: int,
    top_s: int,
) -> bool {
    let c = a.config;
    let n = params[i].len();
    let m = mixed(c.beta1, kept_m(a, i, n, k), grads[i][k]);
    let s = single::root(mixed_squares(c.beta2, kept_s(a, i, n, k), grads[i][k]));
    &&& single::is_finite(m)
    &&& single::is_finite(s)
    &&& single::magnitude(m) <= top_m
    &&& single::magnitude(s) <= top_s
}

/// The sum of `f(0)` to `f(n - 1)`.
pub open spec fn count_up(f: spec_fn(int) -> int, n: nat) -> int
    decreases n,
{
    if n == 0 {
        0
    } else {
        count_up(f, (n - 1) as nat) + f(n - 1)
    }
}

proof fn lemma_blocks(params: Seq<Seq<u32>>, d: nat, n: nat)
    requires
        n <= params.len(),
    ensures
        optim::total_blocks(params.take(n as int), d) == count_up(
            |i: int| quant::ceil_div(params[i].len(), d) as int,
            n,
        ),
    decreases n,
{
    if n > 0 {
        lemma_blocks(params, d, (n - 1) as nat);
        assert(params.take(n as int).drop_last() =~= params.take(n - 1));
    }
}

/// How many steps parameter `i` has made: none before it has a state of its
/// length.
pub open spec fn steps_made(a: AdamView, i: int, n: nat) -> nat {
    if i < a.states.len() && a.states[i].numel == n {
        a.states[i].step
    } else {
        0
    }
}

/// A step over parameters and gradients of equal lengths succeeds: every
/// parameter has made one step more, and the report counts the blocks of all of
/// them.
pub proof fn lemma_whole_step(
    a: AdamView,
    params: Seq<Seq<u32>>,
    grads: Seq<Seq<u32>>,
    powers: Seq<(u32, u32)>,
    next: Seq<Seq<u32>>,
    later: AdamView,
    r: Result<AdamStats, QloraError>,
    i: int,
)
    requires
        a.makes_step(params, grads, powers, next, later, r),
        params.len() == grads.len(),
        params.len() > 0 ==> paired(params, grads, params.len() - 1),
        0 <= i < params.len(),
    ensures
        r is Ok,
        r->Ok_0.pages_streamed == count_up(
            |k: int| quant::ceil_div(params[k].len(), a.config.block_size as nat) as int,
            params.len(),
        ),
        later.config == a.config,
        later.states.len() >= params.len(),
        later.states[i].numel == params[i].len(),
        later.states[i].step == steps_made(a, i, params[i].len()) + 1,
{
    lemma_reach(params, grads, 0, params.len() - 1);
    assert(params.take(params.len() as int) =~= params);
    lemma_blocks(params, a.config.block_size as nat, params.len());
}

/// Where the gradients of parameter `k` are the first of another length, the
/// step fails, and parameter `k` and those behind it, with their states, stay as
/// they were; where there are more or fewer gradients than parameters, all do.
pub proof fn lemma_failed_step(
    a: AdamView,
    params: Seq<Seq<u32>>,
    grads: Seq<Seq<u32>>,
    powers: Seq<(u32, u32)>,
    next: Seq<Seq<u32>>,
    later: AdamView,
    r: Result<AdamStats, QloraError>,
    k: int,
    i: int,
)
    requires
        a.makes_step(params, grads, powers, next, later, r),
        params.len() != grads.len() && k == 0 || {
            &&& params.len() == grads.len()
            &&& 0 <= k < params.len()
            &&& k > 0 ==> paired(params, grads, k - 1)
            &&& params[k].len() != grads[k].len()
        },
    ensures
        r is Err,
        next.len() == params.len(),
        k <= i < params.len() ==> next[i] == params[i],
        k <= i < a.states.len() ==> later.states[i] == a.states[i],
        later.states.len() == (if a.states.len() < k {
            k
        } else {
            a.states.len() as int
        }),
        later.config == a.config,
{
    if params.len() == grads.len() {
        lemma_stops(params, grads, 0, k);
    }
}

proof fn lemma_stops(params: Seq<Seq<u32>>, grads: Seq<Seq<u32>>, from: int, k: int)
    requires
        params.len() == grads.len(),
        0 <= from <= k < params.len(),
        k > 0 ==> paired(params, grads, k - 1),
        params[k].len() != grads[k].len(),
    ensures
        optim::agreeing(params, grads, from) == k,
    decreases k - from,
{
    if from < k {
        assert(params[from].len() == grads[from].len());
        lemma_stops(params, grads, from + 1, k);
    }
}

/// The powers for a step are those of the decays to the number of the step that
/// the parameter makes: one on its first step, and one more on each.
pub proof fn lemma_powers<P: Fn(u32, u32) -> u32>(
    a: AdamView,
    params: Seq<Seq<u32>>,
    powf: P,
    powers: Seq<(u32, u32)>,
    i: int,
)
    requires
        a.are_powers(params, powf, powers),
        0 <= i < params.len(),
    ensures
        powers.len() == params.len(),
        ({
            let t = single::of_integer(steps_made(a, i, params[i].len()) + 1int);
            &&& call_ensures(powf, (a.config.beta1, t), powers[i].0)
            &&& call_ensures(powf, (a.config.beta2, t), powers[i].1)
        }),
{
    let t = single::of_integer(a.next_step(params, i) as int);
    assert(call_ensures(powf, (a.config.beta1, t), powers[i].0));
}

} // verus!
