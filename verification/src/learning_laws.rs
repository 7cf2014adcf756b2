//! Laws of the equalizer over exact arithmetic: learning goes downhill.

use vstd::prelude::*;

use crate::arith::{adds_symbol, is_path, reached, Arithmetic};
use crate::bpsk::{sliced, symbol_of};
use crate::equalizer::{adapted_down, adapted_up, Dfe, DfeState, Lesson};
use crate::exact::{
    lemma_associates, lemma_distributes, lemma_subtracts, lemma_total_grows, lemma_total_reached,
    lemma_turned_back, total, Exact,
};

verus! {

/// The real part of the product of `a` and `b`.
pub open spec fn product_re<M: Arithmetic>(v: Exact<M>, a: M::Symbol, b: M::Symbol) -> real {
    v.re(a) * v.re(b) - v.im(a) * v.im(b)
}

/// The imaginary part of the product of `a` and `b`.
pub open spec fn product_im<M: Arithmetic>(v: Exact<M>, a: M::Symbol, b: M::Symbol) -> real {
    v.re(a) * v.im(b) + v.im(a) * v.re(b)
}

proof fn lemma_step_of_a_tap<M: Arithmetic>(
    v: Exact<M>,
    mu: M::Real,
    error: M::Symbol,
    x: M::Symbol,
    g: M::Symbol,
    u: M::Symbol,
)
    requires
        v.holds(),
        call_ensures(M::scaled, (error, mu), g),
        call_ensures(M::conjugate_product, (g, x), u),
    ensures
        product_re::<M>(v, u, x) == v.re(error) * v.of(mu) * v.norm(x),
        product_im::<M>(v, u, x) == v.im(error) * v.of(mu) * v.norm(x),
{
    lemma_turned_back(v.re(g), v.im(g), v.re(x), v.im(x));
}

proof fn lemma_product_of_sum(x: real, y: real, z: real)
    ensures
        (x + y) * z == x * z + y * z,
{
    lemma_distributes(z, x, y);
}

proof fn lemma_product_of_difference(x: real, y: real, z: real)
    ensures
        (x - y) * z == x * z - y * z,
{
    lemma_subtracts(z, x, y);
}

proof fn lemma_tap_up<M: Arithmetic>(
    v: Exact<M>,
    h: M::Symbol,
    mu: M::Real,
    error: M::Symbol,
    x: M::Symbol,
    r: M::Symbol,
)
    requires
        v.holds(),
        adapted_up::<M>(h, mu, error, x, r),
    ensures
        product_re::<M>(v, r, x) == product_re::<M>(v, h, x) + v.re(error) * v.of(mu) * v.norm(x),
        product_im::<M>(v, r, x) == product_im::<M>(v, h, x) + v.im(error) * v.of(mu) * v.norm(x),
{
    let (g, u) = choose|g: M::Symbol, u: M::Symbol|
        {
            &&& call_ensures(M::scaled, (error, mu), g)
            &&& #[trigger] call_ensures(M::conjugate_product, (g, x), u)
            &&& #[trigger] call_ensures(M::sum, (h, u), r)
        };
    lemma_step_of_a_tap::<M>(v, mu, error, x, g, u);
    lemma_product_of_sum(v.re(h), v.re(u), v.re(x));
    lemma_product_of_sum(v.im(h), v.im(u), v.re(x));
    lemma_product_of_sum(v.re(h), v.re(u), v.im(x));
    lemma_product_of_sum(v.im(h), v.im(u), v.im(x));
    assert(v.re(r) * v.re(x) == v.re(h) * v.re(x) + v.re(u) * v.re(x));
    assert(v.im(r) * v.im(x) == v.im(h) * v.im(x) + v.im(u) * v.im(x));
}

proof fn lemma_tap_down<M: Arithmetic>(
    v: Exact<M>,
    h: M::Symbol,
    mu: M::Real,
    error: M::Symbol,
    x: M::Symbol,
    r: M::Symbol,
)
    requires
        v.holds(),
        adapted_down::<M>(h, mu, error, x, r),
    ensures
        product_re::<M>(v, h, x) == product_re::<M>(v, r, x) + v.re(error) * v.of(mu) * v.norm(x),
        product_im::<M>(v, h, x) == product_im::<M>(v, r, x) + v.im(error) * v.of(mu) * v.norm(x),
{
    let (g, u) = choose|g: M::Symbol, u: M::Symbol|
        {
            &&& call_ensures(M::scaled, (error, mu), g)
            &&& #[trigger] call_ensures(M::conjugate_product, (g, x), u)
            &&& #[trigger] call_ensures(M::difference, (h, u), r)
        };
    lemma_step_of_a_tap::<M>(v, mu, error, x, g, u);
    lemma_product_of_difference(v.re(h), v.re(u), v.re(x));
    lemma_product_of_difference(v.im(h), v.im(u), v.re(x));
    lemma_product_of_difference(v.re(h), v.re(u), v.im(x));
    lemma_product_of_difference(v.im(h), v.im(u), v.im(x));
    assert(v.re(r) * v.re(x) == v.re(h) * v.re(x) - v.re(u) * v.re(x));
    assert(v.im(r) * v.im(x) == v.im(h) * v.im(x) - v.im(u) * v.im(x));
}

/// `e - e * mu * w` is `(1 - mu * w) * e`.
proof fn lemma_what_is_left(e: real, mu: real, w: real)
    ensures
        e - e * mu * w == (1real - mu * w) * e,
{
    lemma_subtracts(e, 1real, mu * w);
    lemma_associates(e, mu, w);
}

/// Learning descends: a feedforward tap that missed `target` by `error` misses it by
/// `1 - mu * |x|^2` times as much after learning, whatever the complex input `x`.
pub proof fn law_feedforward_tap_descends<M: Arithmetic>(
    v: Exact<M>,
    h: M::Symbol,
    mu: M::Real,
    target: M::Symbol,
    error: M::Symbol,
    x: M::Symbol,
    r: M::Symbol,
)
    requires
        v.holds(),
        v.re(error) == v.re(target) - product_re::<M>(v, h, x),
        v.im(error) == v.im(target) - product_im::<M>(v, h, x),
        adapted_up::<M>(h, mu, error, x, r),
    ensures
        v.re(target) - product_re::<M>(v, r, x) == (1real - v.of(mu) * v.norm(x)) * v.re(error),
        v.im(target) - product_im::<M>(v, r, x) == (1real - v.of(mu) * v.norm(x)) * v.im(error),
{
    lemma_tap_up::<M>(v, h, mu, error, x, r);
    lemma_what_is_left(v.re(error), v.of(mu), v.norm(x));
    lemma_what_is_left(v.im(error), v.of(mu), v.norm(x));
}

/// Learning descends: a feedback tap, whose output is subtracted, that missed `target` by `error`
/// misses it by `1 - mu * |x|^2` times as much after learning.
pub proof fn law_feedback_tap_descends<M: Arithmetic>(
    v: Exact<M>,
    h: M::Symbol,
    mu: M::Real,
    target: M::Symbol,
    error: M::Symbol,
    x: M::Symbol,
    r: M::Symbol,
)
    requires
        v.holds(),
        v.re(error) == v.re(target) + product_re::<M>(v, h, x),
        v.im(error) == v.im(target) + product_im::<M>(v, h, x),
        adapted_down::<M>(h, mu, error, x, r),
    ensures
        v.re(target) + product_re::<M>(v, r, x) == (1real - v.of(mu) * v.norm(x)) * v.re(error),
        v.im(target) + product_im::<M>(v, r, x) == (1real - v.of(mu) * v.norm(x)) * v.im(error),
{
    lemma_tap_down::<M>(v, h, mu, error, x, r);
    lemma_what_is_left(v.re(error), v.of(mu), v.norm(x));
    lemma_what_is_left(v.im(error), v.of(mu), v.norm(x));
}

/// What the taps of a feedforward filter of `len` taps look at for symbol `k`: the input around
/// it, with the middle tap on the symbol itself.
pub open spec fn around<M: Arithmetic>(input: Seq<M::Symbol>, k: int, len: nat) -> spec_fn(
    int,
) -> Option<M::Symbol> {
    |j: int|
        {
            let i = k + j - len as int / 2;
            if 0 <= i < input.len() {
                Some(input[i])
            } else {
                None
            }
        }
}

/// What the taps of a feedback filter look at for symbol `k`: the symbols before it, the latest
/// first; the first `n` of them are `targets`, the others `decisions`.
pub open spec fn before<M: Arithmetic>(
    targets: Seq<M::Symbol>,
    n: int,
    decisions: Seq<M::Symbol>,
    k: int,
) -> spec_fn(int) -> Option<M::Symbol> {
    |j: int|
        {
            let p = k - 1 - j;
            if p < 0 {
                None
            } else if p < n {
                Some(targets[p])
            } else {
                Some(decisions[p])
            }
        }
}

/// The real part of what tap `j` of `h` makes of what it looks at.
pub open spec fn tap_re<M: Arithmetic>(
    v: Exact<M>,
    h: Seq<M::Symbol>,
    x: spec_fn(int) -> Option<M::Symbol>,
) -> spec_fn(int) -> real {
    |j: int|
        match x(j) {
            Some(s) => product_re::<M>(v, h[j], s),
            None => 0real,
        }
}

/// The imaginary part of what tap `j` of `h` makes of what it looks at.
pub open spec fn tap_im<M: Arithmetic>(
    v: Exact<M>,
    h: Seq<M::Symbol>,
    x: spec_fn(int) -> Option<M::Symbol>,
) -> spec_fn(int) -> real {
    |j: int|
        match x(j) {
            Some(s) => product_im::<M>(v, h[j], s),
            None => 0real,
        }
}

/// The energy of what tap `j` looks at.
pub open spec fn tap_energy<M: Arithmetic>(
    v: Exact<M>,
    x: spec_fn(int) -> Option<M::Symbol>,
) -> spec_fn(int) -> real {
    |j: int|
        match x(j) {
            Some(s) => v.norm(s),
            None => 0real,
        }
}

/// The real part of what the filters `h_ff` and `h_fb` put out for symbol `k`.
pub open spec fn output_re<M: Arithmetic>(
    v: Exact<M>,
    lesson: Lesson<M>,
    h_ff: Seq<M::Symbol>,
    h_fb: Seq<M::Symbol>,
    decisions: Seq<M::Symbol>,
    k: int,
) -> real {
    total(h_ff.len(), tap_re::<M>(v, h_ff, around::<M>(lesson.input, k, h_ff.len()))) - total(
        h_fb.len(),
        tap_re::<M>(v, h_fb, before::<M>(lesson.targets, lesson.n_training, decisions, k)),
    )
}

/// The imaginary part of what the filters `h_ff` and `h_fb` put out for symbol `k`.
pub open spec fn output_im<M: Arithmetic>(
    v: Exact<M>,
    lesson: Lesson<M>,
    h_ff: Seq<M::Symbol>,
    h_fb: Seq<M::Symbol>,
    decisions: Seq<M::Symbol>,
    k: int,
) -> real {
    total(h_ff.len(), tap_im::<M>(v, h_ff, around::<M>(lesson.input, k, h_ff.len()))) - total(
        h_fb.len(),
        tap_im::<M>(v, h_fb, before::<M>(lesson.targets, lesson.n_training, decisions, k)),
    )
}

/// The energy of all that the filters look at for symbol `k`.
pub open spec fn energy_seen<M: Arithmetic>(
    v: Exact<M>,
    lesson: Lesson<M>,
    n_ff: nat,
    n_fb: nat,
    decisions: Seq<M::Symbol>,
    k: int,
) -> real {
    total(n_ff, tap_energy::<M>(v, around::<M>(lesson.input, k, n_ff))) + total(
        n_fb,
        tap_energy::<M>(v, before::<M>(lesson.targets, lesson.n_training, decisions, k)),
    )
}

proof fn lemma_filter_sum<M: Arithmetic>(
    v: Exact<M>,
    h: Seq<M::Symbol>,
    x: spec_fn(int) -> Option<M::Symbol>,
    step: spec_fn(int, M::Symbol, M::Symbol) -> bool,
    y: M::Symbol,
)
    requires
        v.holds(),
        reached(step, h.len(), M::ORIGIN, y),
        forall|j: int, a: M::Symbol, b: M::Symbol|
            0 <= j < h.len() && #[trigger] step(j, a, b) ==> match x(j) {
                Some(s) => adds_symbol::<M>(a, h[j], s, b),
                None => b == a,
            },
    ensures
        v.re(y) == total(h.len(), tap_re::<M>(v, h, x)),
        v.im(y) == total(h.len(), tap_im::<M>(v, h, x)),
{
    assert forall|j: int, a: M::Symbol, b: M::Symbol|
        0 <= j < h.len() && #[trigger] step(j, a, b) implies (v.re)(b) == (v.re)(a) + tap_re::<M>(
        v,
        h,
        x,
    )(j) && (v.im)(b) == (v.im)(a) + tap_im::<M>(v, h, x)(j) by {
        match x(j) {
            Some(s) => {
                assert(adds_symbol::<M>(a, h[j], s, b));
            },
            None => {},
        }
    }
    lemma_total_reached(step, h.len(), M::ORIGIN, y, v.re, tap_re::<M>(v, h, x));
    lemma_total_reached(step, h.len(), M::ORIGIN, y, v.im, tap_im::<M>(v, h, x));
}

/// An equalized symbol is what the feedforward filter makes of the input around it, less what the
/// feedback filter makes of the symbols before it.
pub proof fn law_equalized_symbol_is_the_filters_output<M: Arithmetic>(
    v: Exact<M>,
    lesson: Lesson<M>,
    k: int,
    a: DfeState<M>,
    b: DfeState<M>,
)
    requires
        v.holds(),
        lesson.advances(k, a, b),
    ensures
        v.re(b.equalized.last()) == output_re::<M>(v, lesson, a.h_ff, a.h_fb, a.decisions, k),
        v.im(b.equalized.last()) == output_im::<M>(v, lesson, a.h_ff, a.h_fb, a.decisions, k),
{
    let y = b.equalized.last();
    let ahead = lesson.forward_step(a.h_ff, k);
    let back = lesson.feedback_step(a.h_fb, a.decisions, k);
    let (y_ff, y_fb) = choose|y_ff: M::Symbol, y_fb: M::Symbol|
        {
            &&& reached(ahead, a.h_ff.len(), M::ORIGIN, y_ff)
            &&& reached(back, a.h_fb.len(), M::ORIGIN, y_fb)
            &&& #[trigger] call_ensures(M::difference, (y_ff, y_fb), y)
        };
    lemma_filter_sum::<M>(v, a.h_ff, around::<M>(lesson.input, k, a.h_ff.len()), ahead, y_ff);
    lemma_filter_sum::<M>(
        v,
        a.h_fb,
        before::<M>(lesson.targets, lesson.n_training, a.decisions, k),
        back,
        y_fb,
    );
}

/// Learning descends: with the filters that symbol `k` leaves behind, the same symbol would miss
/// its target by `1 - mu * energy` times as much, where `energy` is that of all the symbols that
/// the filters look at. The target is the known one while training, then the nearer of +1 and -1.
pub proof fn law_learning_descends<M: Arithmetic>(
    v: Exact<M>,
    lesson: Lesson<M>,
    k: int,
    a: DfeState<M>,
    b: DfeState<M>,
)
    requires
        v.holds(),
        lesson.advances(k, a, b),
    ensures
        ({
            let y = b.equalized.last();
            let (re, im) = if k < lesson.n_training {
                (v.re(lesson.targets[k]), v.im(lesson.targets[k]))
            } else if v.re(y) > 0real {
                (1real, 0real)
            } else {
                (-1real, 0real)
            };
            let left = 1real - v.of(lesson.mu) * energy_seen::<M>(
                v,
                lesson,
                a.h_ff.len(),
                a.h_fb.len(),
                a.decisions,
                k,
            );
            &&& b.h_ff.len() == a.h_ff.len()
            &&& b.h_fb.len() == a.h_fb.len()
            &&& re - output_re::<M>(v, lesson, b.h_ff, b.h_fb, a.decisions, k) == left * (re - v.re(
                y,
            ))
            &&& im - output_im::<M>(v, lesson, b.h_ff, b.h_fb, a.decisions, k) == left * (im - v.im(
                y,
            ))
        }),
{
    law_equalized_symbol_is_the_filters_output::<M>(v, lesson, k, a, b);
    let y = b.equalized.last();
    let d = b.decisions.last();
    let error = choose|error: M::Symbol|
        {
            &&& #[trigger] lesson.misses(k, y, d, error)
            &&& lesson.forward_learned(a.h_ff, error, k, b.h_ff)
            &&& lesson.feedback_learned(a.h_fb, a.decisions, error, k, b.h_fb)
        };
    let bit = choose|bit: u8| #[trigger] sliced::<M>(y, bit) && d == symbol_of::<M>(bit);
    let ahead = around::<M>(lesson.input, k, a.h_ff.len());
    let back = before::<M>(lesson.targets, lesson.n_training, a.decisions, k);
    let c = v.re(error) * v.of(lesson.mu);
    let e = v.im(error) * v.of(lesson.mu);
    assert forall|j: int| 0 <= j < a.h_ff.len() implies #[trigger] tap_re::<M>(v, b.h_ff, ahead)(j)
        == tap_re::<M>(v, a.h_ff, ahead)(j) + c * tap_energy::<M>(v, ahead)(j) && tap_im::<M>(
        v,
        b.h_ff,
        ahead,
    )(j) == tap_im::<M>(v, a.h_ff, ahead)(j) + e * tap_energy::<M>(v, ahead)(j) by {
        assert(lesson.forward_tap(a.h_ff, error, k, j, b.h_ff[j]));
        match ahead(j) {
            Some(s) => {
                lemma_tap_up::<M>(v, a.h_ff[j], lesson.mu, error, s, b.h_ff[j]);
            },
            None => {},
        }
    }
    assert forall|j: int| 0 <= j < a.h_fb.len() implies #[trigger] tap_re::<M>(v, a.h_fb, back)(j)
        == tap_re::<M>(v, b.h_fb, back)(j) + c * tap_energy::<M>(v, back)(j) && tap_im::<M>(
        v,
        a.h_fb,
        back,
    )(j) == tap_im::<M>(v, b.h_fb, back)(j) + e * tap_energy::<M>(v, back)(j) by {
        assert(lesson.feedback_tap(a.h_fb, a.decisions, error, k, j, b.h_fb[j]));
        match back(j) {
            Some(s) => {
                lemma_tap_down::<M>(v, a.h_fb[j], lesson.mu, error, s, b.h_fb[j]);
            },
            None => {},
        }
    }
    let (n, m) = (a.h_ff.len(), a.h_fb.len());
    let (w, z) = (tap_energy::<M>(v, ahead), tap_energy::<M>(v, back));
    lemma_total_grows(n, tap_re::<M>(v, a.h_ff, ahead), tap_re::<M>(v, b.h_ff, ahead), w, c);
    lemma_total_grows(m, tap_re::<M>(v, b.h_fb, back), tap_re::<M>(v, a.h_fb, back), z, c);
    assert forall|j: int| 0 <= j < n implies #[trigger] tap_im::<M>(v, b.h_ff, ahead)(j)
        == tap_im::<M>(v, a.h_ff, ahead)(j) + e * w(j) by {
        let t = tap_re::<M>(v, b.h_ff, ahead)(j);
    }
    assert forall|j: int| 0 <= j < m implies #[trigger] tap_im::<M>(v, a.h_fb, back)(j)
        == tap_im::<M>(v, b.h_fb, back)(j) + e * z(j) by {
        let t = tap_re::<M>(v, a.h_fb, back)(j);
    }
    lemma_total_grows(n, tap_im::<M>(v, a.h_ff, ahead), tap_im::<M>(v, b.h_ff, ahead), w, e);
    lemma_total_grows(m, tap_im::<M>(v, b.h_fb, back), tap_im::<M>(v, a.h_fb, back), z, e);
    lemma_distributes(c, total(n, w), total(m, z));
    lemma_distributes(e, total(n, w), total(m, z));
    lemma_what_is_left(v.re(error), v.of(lesson.mu), total(n, w) + total(m, z));
    lemma_what_is_left(v.im(error), v.of(lesson.mu), total(n, w) + total(m, z));
}

/// Symbol `k` takes the equalizer from `a` to `b`: it puts out what its filters say, decides by the
/// sign, and goes downhill.
pub open spec fn learns<M: Arithmetic>(
    v: Exact<M>,
    lesson: Lesson<M>,
    k: int,
    a: DfeState<M>,
    b: DfeState<M>,
) -> bool {
    let y = b.equalized.last();
    let sign = if v.re(y) > 0real {
        1real
    } else {
        -1real
    };
    let (re, im) = if k < lesson.n_training {
        (v.re(lesson.targets[k]), v.im(lesson.targets[k]))
    } else {
        (sign, 0real)
    };
    let left = 1real - v.of(lesson.mu) * energy_seen::<M>(
        v,
        lesson,
        a.h_ff.len(),
        a.h_fb.len(),
        a.decisions,
        k,
    );
    &&& b.equalized == a.equalized.push(y)
    &&& b.decisions == a.decisions.push(b.decisions.last())
    &&& v.re(b.decisions.last()) == sign && v.im(b.decisions.last()) == 0real
    &&& v.re(y) == output_re::<M>(v, lesson, a.h_ff, a.h_fb, a.decisions, k)
    &&& v.im(y) == output_im::<M>(v, lesson, a.h_ff, a.h_fb, a.decisions, k)
    &&& b.h_ff.len() == a.h_ff.len() && b.h_fb.len() == a.h_fb.len()
    &&& re - output_re::<M>(v, lesson, b.h_ff, b.h_fb, a.decisions, k) == left * (re - v.re(y))
    &&& im - output_im::<M>(v, lesson, b.h_ff, b.h_fb, a.decisions, k) == left * (im - v.im(y))
}

/// `states` leads from the filters `h_ff` and `h_fb` to those of `after`, one symbol of the lesson
/// after the other, and puts out `equalized`.
pub open spec fn is_course<M: Arithmetic>(
    v: Exact<M>,
    lesson: Lesson<M>,
    h_ff: Seq<M::Symbol>,
    h_fb: Seq<M::Symbol>,
    after: Dfe<M>,
    equalized: Seq<M::Symbol>,
    states: Seq<DfeState<M>>,
) -> bool {
    let n = lesson.input.len() as int;
    &&& states.len() == n + 1
    &&& states[0].h_ff == h_ff && states[0].h_fb == h_fb
    &&& states[0].equalized.len() == 0 && states[0].decisions.len() == 0
    &&& states[n].h_ff == after.h_ff@ && states[n].h_fb == after.h_fb@
    &&& states[n].equalized == equalized
    &&& forall|k: int|
        0 <= k < n ==> learns::<M>(v, lesson, k, #[trigger] states[k], states[k + 1])
}

/// The smaller of `a` and `b`.
pub open spec fn least(a: int, b: int) -> int {
    if a < b {
        a
    } else {
        b
    }
}

/// Equalizing `input` with steps of `mu`, with as many of the targets as are wanted, there and
/// received.
pub open spec fn task<M: Arithmetic>(
    mu: M::Real,
    input: Seq<M::Symbol>,
    targets: Seq<M::Symbol>,
    wanted: int,
) -> Lesson<M> {
    Lesson {
        input,
        targets,
        n_training: least(wanted, least(targets.len() as int, input.len() as int)),
        mu,
    }
}

/// An equalizer goes through its input symbol by symbol with its own step size; it trains on the
/// known targets as far as they are wanted, there and received, and on its own decisions from
/// then on.
pub proof fn law_equalizer_learns_from_every_symbol<M: Arithmetic>(
    v: Exact<M>,
    dfe: Dfe<M>,
    input: Seq<M::Symbol>,
    targets: Seq<M::Symbol>,
    n_training: int,
    after: Dfe<M>,
    equalized: Seq<M::Symbol>,
)
    requires
        v.holds(),
        dfe.processed(input, targets, n_training, after, equalized),
    ensures
        exists|states: Seq<DfeState<M>>|
            #[trigger] is_course::<M>(
                v,
                task::<M>(dfe.mu, input, targets, n_training),
                dfe.h_ff@,
                dfe.h_fb@,
                after,
                equalized,
                states,
            ),
        after.mu == dfe.mu,
        equalized.len() == input.len(),
{
    let lesson = dfe.lesson(input, targets, n_training);
    assert(lesson == task::<M>(dfe.mu, input, targets, n_training));
    let decisions = choose|decisions: Seq<M::Symbol>|
        #[trigger] dfe.trained(input, targets, n_training, after, equalized, decisions);
    let end: DfeState<M> = DfeState { h_ff: after.h_ff@, h_fb: after.h_fb@, equalized, decisions };
    let n = input.len();
    let states = choose|states: Seq<DfeState<M>>|
        #[trigger] is_path(lesson.step(), n, states) && states[0] == dfe.fresh() && states[n as int]
            == end;
    reveal(is_path);
    assert forall|k: int| 0 <= k < n implies learns::<M>(
        v,
        lesson,
        k,
        #[trigger] states[k],
        states[k + 1],
    ) by {
        let (a, b) = (states[k], states[k + 1]);
        assert((lesson.step())(k, a, b));
        assert(lesson.advances(k, a, b));
        law_equalized_symbol_is_the_filters_output::<M>(v, lesson, k, a, b);
        law_learning_descends::<M>(v, lesson, k, a, b);
        let y = b.equalized.last();
        let bit = choose|bit: u8|
            #[trigger] sliced::<M>(y, bit) && b.decisions.last() == symbol_of::<M>(bit);
        assert(sliced::<M>(y, bit));
    }
    assert(is_course::<M>(v, lesson, dfe.h_ff@, dfe.h_fb@, after, equalized, states));
}

} // verus!
