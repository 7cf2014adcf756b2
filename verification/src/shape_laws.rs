//! Laws of pulse shaping and spectra over exact arithmetic.

use vstd::prelude::*;

use crate::arith::{reached, Arithmetic, Fourier};
use crate::exact::{
    abs, lemma_adds_tap, lemma_associates, lemma_below, lemma_commutes, lemma_divides,
    lemma_same_total, lemma_sum_of_squares, lemma_total_grows, lemma_total_reached, lemma_value,
    squares, total, Exact,
};
use crate::formula::{tells_below, Formula};
use crate::pulse::{
    convolution, filter_step, impulse, pulse_train, rrc_filter, rrc_gap, rrc_general, rrc_limit,
    rrc_peak, rrc_tap, rrc_value, shaping_step, tap_position, unit_energy,
};
use crate::signal_laws::law_level_is_of_the_absolute_value;
use crate::spectrogram::{log_magnitude, spectral_column, transformed, weighted, windowed};

verus! {

// ---------------------------------------------------------------------------------------------
// Root-raised-cosine pulses
// ---------------------------------------------------------------------------------------------

/// The root-raised-cosine pulse with roll-off `b`, `t` symbols from its middle. Within a millionth
/// of the middle and of the two points where the general expression is zero over zero, it is the
/// limit there.
pub open spec fn rrc_curve<M: Arithmetic>(v: Exact<M>, t: real, b: real) -> real {
    let near = 1real / 1_000_000real;
    if abs(t) < near {
        1real - b + 4real * b / v.pi
    } else if abs(abs(t) - 1real / (4real * b)) < near {
        b / (v.sqrt)(2real) * ((1real + 2real / v.pi) * (v.sin)(v.pi / (4real * b)) + (1real - 2real
            / v.pi) * (v.cos)(v.pi / (4real * b)))
    } else {
        ((v.sin)((1real - b) * (v.pi * t)) + 4real * b * t * (v.cos)((1real + b) * (v.pi * t))) / (
        v.pi * t * (1real - (4real * b * t) * (4real * b * t)))
    }
}

/// Where tap `i` of `n_taps` lies, in symbols from the middle.
pub open spec fn rrc_place(i: int, n_taps: int, sps: int) -> real {
    ((i as real) - ((n_taps - 1) as real) / 2real) / (sps as real)
}

proof fn lemma_product_is_zero(x: real, y: real)
    by (nonlinear_arith)
    requires
        x * y == 0real,
    ensures
        x == 0real || y == 0real,
{
}

proof fn lemma_square_of_one(x: real)
    by (nonlinear_arith)
    requires
        x * x == 1real,
    ensures
        x == 1real || x == -1real,
{
}

proof fn lemma_inverse(x: real, y: real)
    by (nonlinear_arith)
    requires
        y != 0real,
        x * y == 1real,
    ensures
        x == 1real / y,
{
}

/// The denominator of the general expression vanishes only where the limits are used.
proof fn lemma_general_is_defined(t: real, w: real, pi: real)
    requires
        w > 0real,
        pi > 0real,
        t != 0real,
        abs(t) != 1real / w,
    ensures
        pi * t * (1real - (w * t) * (w * t)) != 0real,
{
    let x = w * t;
    if pi * t * (1real - x * x) == 0real {
        lemma_product_is_zero(pi * t, 1real - x * x);
        if pi * t == 0real {
            lemma_product_is_zero(pi, t);
        } else {
            lemma_square_of_one(x);
            lemma_positive_inverse(w);
            lemma_commutes(t, w);
            if x == 1real {
                lemma_inverse(t, w);
            } else {
                lemma_negated_product(t, w);
                lemma_inverse(-t, w);
            }
        }
    }
}

proof fn lemma_negated_product(x: real, y: real)
    by (nonlinear_arith)
    ensures
        (-x) * y == -(x * y),
{
}

proof fn lemma_positive_inverse(y: real)
    by (nonlinear_arith)
    requires
        y > 0real,
    ensures
        1real / y > 0real,
{
}

/// Every tap of the raw impulse lies on the root-raised-cosine pulse.
pub proof fn law_pulse_is_root_raised_cosine<M: Arithmetic>(
    v: Exact<M>,
    i: usize,
    n_taps: usize,
    sps: usize,
    beta: M::Real,
    h: M::Real,
)
    requires
        v.holds(),
        v.of(beta) > 0real,
        sps > 0,
        n_taps > 0,
        rrc_tap::<M>(i, n_taps, sps, beta, h),
    ensures
        v.of(h) == rrc_curve::<M>(v, rrc_place(i as int, n_taps as int, sps as int), v.of(beta)),
{
    let place = tap_position::<M>(i, n_taps, sps);
    let t = choose|t: M::Real| place.yields(t) && #[trigger] rrc_value::<M>(t, beta, h);
    assert(v.of(t) == rrc_place(i as int, n_taps as int, sps as int)) by {
        reveal_with_fuel(Exact::value, 5);
        reveal_with_fuel(Exact::defined, 5);
        assert(2real / 1real == 2real);
        lemma_value::<M>(v, place, t);
    }
    lemma_rrc_value::<M>(v, t, beta, h);
}

proof fn lemma_rrc_value<M: Arithmetic>(v: Exact<M>, t: M::Real, beta: M::Real, h: M::Real)
    requires
        v.holds(),
        v.of(beta) > 0real,
        rrc_value::<M>(t, beta, h),
    ensures
        v.of(h) == rrc_curve::<M>(v, v.of(t), v.of(beta)),
{
    let eps = choose|eps: M::Real|
        {
            &&& #[trigger] call_ensures(M::fraction, (1, 1_000_000), eps)
            &&& {
                ||| {
                    &&& tells_below::<M>(Formula::Given(t).magnitude(), eps, true)
                    &&& rrc_peak::<M>(beta).yields(h)
                }
                ||| {
                    &&& tells_below::<M>(Formula::Given(t).magnitude(), eps, false)
                    &&& tells_below::<M>(rrc_gap::<M>(t, beta), eps, true)
                    &&& rrc_limit::<M>(beta).yields(h)
                }
                ||| {
                    &&& tells_below::<M>(Formula::Given(t).magnitude(), eps, false)
                    &&& tells_below::<M>(rrc_gap::<M>(t, beta), eps, false)
                    &&& rrc_general::<M>(t, beta).yields(h)
                }
            }
        };
    let size = Formula::<M>::Given(t).magnitude();
    let gap = rrc_gap::<M>(t, beta);
    let b = v.of(beta);
    assert(v.defined(size) && v.value(size) == abs(v.of(t))) by {
        reveal_with_fuel(Exact::value, 3);
        reveal_with_fuel(Exact::defined, 3);
    }
    lemma_gap::<M>(v, t, beta);
    assert(v.of(eps) == 1real / 1_000_000real);
    if tells_below::<M>(size, eps, true) && rrc_peak::<M>(beta).yields(h) {
        lemma_below::<M>(v, size, eps, true);
        reveal_with_fuel(Exact::value, 4);
        reveal_with_fuel(Exact::defined, 4);
        assert(4real / 1real == 4real);
        lemma_value::<M>(v, rrc_peak::<M>(beta), h);
    } else {
        lemma_below::<M>(v, size, eps, false);
        if tells_below::<M>(gap, eps, true) && rrc_limit::<M>(beta).yields(h) {
            lemma_below::<M>(v, gap, eps, true);
            lemma_limit::<M>(v, beta, h);
        } else {
            lemma_below::<M>(v, gap, eps, false);
            lemma_general::<M>(v, t, beta, h);
        }
    }
}

proof fn lemma_gap<M: Arithmetic>(v: Exact<M>, t: M::Real, beta: M::Real)
    requires
        v.holds(),
        v.of(beta) > 0real,
    ensures
        v.defined(rrc_gap::<M>(t, beta)),
        v.value(rrc_gap::<M>(t, beta)) == abs(abs(v.of(t)) - 1real / (4real * v.of(beta))),
{
    reveal_with_fuel(Exact::value, 6);
    reveal_with_fuel(Exact::defined, 6);
    assert(4real / 1real == 4real);
    let w = Formula::<M>::Fraction(4, 1).times(Formula::Given(beta));
    assert(v.value(w) == 4real * v.of(beta) && v.defined(w));
}

proof fn lemma_limit<M: Arithmetic>(v: Exact<M>, beta: M::Real, h: M::Real)
    requires
        v.holds(),
        v.of(beta) > 0real,
        rrc_limit::<M>(beta).yields(h),
    ensures
        v.of(h) == v.of(beta) / (v.sqrt)(2real) * ((1real + 2real / v.pi) * (v.sin)(
            v.pi / (4real * v.of(beta)),
        ) + (1real - 2real / v.pi) * (v.cos)(v.pi / (4real * v.of(beta)))),
{
    let b = Formula::Given(beta);
    let one = Formula::Given(M::ONE);
    let part = Formula::<M>::Fraction(2, 1).over(Formula::Given(M::PI));
    let k = Formula::<M>::Given(M::PI).over(Formula::Fraction(4, 1).times(b));
    reveal_with_fuel(Exact::value, 4);
    reveal_with_fuel(Exact::defined, 4);
    assert(4real / 1real == 4real && 2real / 1real == 2real);
    assert(v.value(part) == 2real / v.pi && v.defined(part));
    assert(v.value(k) == v.pi / (4real * v.of(beta)) && v.defined(k));
    let (s, c) = (one.plus(part).times(k.sine()), one.minus(part).times(k.cosine()));
    assert(v.value(s) == (1real + 2real / v.pi) * (v.sin)(v.pi / (4real * v.of(beta))));
    assert(v.defined(s));
    assert(v.value(c) == (1real - 2real / v.pi) * (v.cos)(v.pi / (4real * v.of(beta))));
    assert(v.defined(c));
    assert((v.sqrt)(2real) != 0real) by {
        assert((v.sqrt)(2real) * (v.sqrt)(2real) == 2real);
    }
    lemma_value::<M>(v, rrc_limit::<M>(beta), h);
}

proof fn lemma_general<M: Arithmetic>(v: Exact<M>, t: M::Real, beta: M::Real, h: M::Real)
    requires
        v.holds(),
        v.of(beta) > 0real,
        v.of(t) != 0real,
        abs(v.of(t)) != 1real / (4real * v.of(beta)),
        rrc_general::<M>(t, beta).yields(h),
    ensures
        v.of(h) == ((v.sin)((1real - v.of(beta)) * (v.pi * v.of(t))) + 4real * v.of(beta) * v.of(t)
            * (v.cos)((1real + v.of(beta)) * (v.pi * v.of(t)))) / (v.pi * v.of(t) * (1real - (4real
            * v.of(beta) * v.of(t)) * (4real * v.of(beta) * v.of(t)))),
{
    let b = Formula::Given(beta);
    let one = Formula::Given(M::ONE);
    let pi_t = Formula::<M>::Given(M::PI).times(Formula::Given(t));
    let four_bt = Formula::<M>::Fraction(4, 1).times(b).times(Formula::Given(t));
    reveal_with_fuel(Exact::value, 4);
    reveal_with_fuel(Exact::defined, 4);
    assert(4real / 1real == 4real);
    assert(v.value(pi_t) == v.pi * v.of(t) && v.defined(pi_t));
    assert(v.value(four_bt) == 4real * v.of(beta) * v.of(t) && v.defined(four_bt));
    let s = one.minus(b).times(pi_t).sine();
    let c = four_bt.times(one.plus(b).times(pi_t).cosine());
    assert(v.value(s) == (v.sin)((1real - v.of(beta)) * (v.pi * v.of(t))) && v.defined(s));
    assert(v.value(c) == 4real * v.of(beta) * v.of(t) * (v.cos)(
        (1real + v.of(beta)) * (v.pi * v.of(t)),
    ) && v.defined(c));
    let d = pi_t.times(one.minus(four_bt.square()));
    assert(v.value(d) == v.pi * v.of(t) * (1real - (4real * v.of(beta) * v.of(t)) * (4real * v.of(
        beta,
    ) * v.of(t))) && v.defined(d));
    lemma_general_is_defined(v.of(t), 4real * v.of(beta), v.pi);
    lemma_value::<M>(v, rrc_general::<M>(t, beta), h);
}

proof fn lemma_squared_quotient(x: real, y: real)
    requires
        y != 0real,
    ensures
        x * x == y * y * (x / y * (x / y)),
{
    let q = x / y;
    lemma_divides(x, y);
    lemma_associates(y * y, q, q);
    lemma_associates(y, y, q);
    lemma_associates(y, x, q);
    lemma_associates(x, y, q);
    assert(y * (y * q) == y * x);
    assert((y * y) * q == y * x);
    assert((y * y) * q * q == (y * x) * q);
    assert((y * x) * q == (x * y) * q);
    assert(x * (y * q) == x * x);
}

/// The squares of the taps of a raw impulse.
pub open spec fn rrc_squares<M: Arithmetic>(
    v: Exact<M>,
    n_taps: int,
    sps: int,
    b: real,
) -> spec_fn(int) -> real {
    |i: int|
        rrc_curve::<M>(v, rrc_place(i, n_taps, sps), b) * rrc_curve::<M>(
            v,
            rrc_place(i, n_taps, sps),
            b,
        )
}

/// The taps of the filter are those of a root-raised-cosine pulse, divided by the
/// root of their energy, so that the squares of the taps add up to one.
pub proof fn law_filter_has_unit_energy<M: Arithmetic>(
    v: Exact<M>,
    sps: usize,
    span: usize,
    beta: M::Real,
    taps: Seq<M::Real>,
)
    requires
        v.holds(),
        v.of(beta) > 0real,
        sps > 0,
        sps * span + 1 <= usize::MAX,
        rrc_filter::<M>(sps, span, beta, taps),
        exists|i: int|
            0 <= i <= sps * span && #[trigger] rrc_curve::<M>(
                v,
                rrc_place(i, sps * span + 1, sps as int),
                v.of(beta),
            ) != 0real,
    ensures
        taps.len() == sps * span + 1,
        total(taps.len(), squares::<M>(v, taps)) == 1real,
        forall|i: int|
            0 <= i < taps.len() ==> v.of(#[trigger] taps[i]) == rrc_curve::<M>(
                v,
                rrc_place(i, sps * span + 1, sps as int),
                v.of(beta),
            ) / (v.sqrt)(
                total(
                    taps.len(),
                    rrc_squares::<M>(v, sps * span + 1, sps as int, v.of(beta)),
                ),
            ),
{
    let (raw, energy, norm) = choose|raw: Seq<M::Real>, energy: M::Real, norm: M::Real|
        impulse::<M>(sps, span, beta, raw) && #[trigger] unit_energy::<M>(raw, energy, norm, taps);
    let n = (sps * span + 1) as usize;
    assert forall|i: int| 0 <= i < raw.len() implies v.of(#[trigger] raw[i]) == rrc_curve::<M>(
        v,
        rrc_place(i, sps * span + 1, sps as int),
        v.of(beta),
    ) by {
        law_pulse_is_root_raised_cosine::<M>(v, i as usize, n, sps, beta, raw[i]);
    }
    lemma_sum_of_squares::<M>(v, raw, energy);
    let whole = rrc_squares::<M>(v, sps * span + 1, sps as int, v.of(beta));
    assert forall|i: int| 0 <= i < raw.len() implies #[trigger] squares::<M>(v, raw)(i) == whole(
        i,
    ) by {
        let x = raw[i];
    }
    lemma_same_total(raw.len(), squares::<M>(v, raw), whole);
    let i = choose|i: int|
        0 <= i <= sps * span && #[trigger] rrc_curve::<M>(
            v,
            rrc_place(i, sps * span + 1, sps as int),
            v.of(beta),
        ) != 0real;
    lemma_some_square_counts::<M>(v, raw, raw.len(), i);
    let e = v.of(energy);
    let y = v.of(norm);
    assert(y * y == e && y >= 0real);
    assert(y != 0real) by {
        assert(0real * 0real == 0real);
    }
    let (f, g, w) = (|i: int| 0real, squares::<M>(v, raw), squares::<M>(v, taps));
    assert forall|i: int| 0 <= i < raw.len() implies #[trigger] g(i) == f(i) + e * w(i) by {
        assert(call_ensures(M::over, (raw[i], norm), taps[i]));
        lemma_squared_quotient(v.of(raw[i]), y);
    }
    lemma_total_grows(raw.len(), f, g, w, e);
    lemma_nothing(raw.len(), f);
    lemma_times_one(e, total(raw.len(), w));
    assert forall|i: int| 0 <= i < taps.len() implies v.of(#[trigger] taps[i]) == rrc_curve::<M>(
        v,
        rrc_place(i, sps * span + 1, sps as int),
        v.of(beta),
    ) / y by {
        assert(call_ensures(M::over, (raw[i], norm), taps[i]));
    }
}

proof fn lemma_times_one(e: real, x: real)
    by (nonlinear_arith)
    requires
        e != 0real,
        e * x == e,
    ensures
        x == 1real,
{
}

proof fn lemma_square(x: real)
    by (nonlinear_arith)
    ensures
        x * x >= 0real,
        x != 0real ==> x * x > 0real,
{
}

proof fn lemma_nothing(n: nat, f: spec_fn(int) -> real)
    requires
        forall|i: int| 0 <= i < n ==> #[trigger] f(i) == 0real,
    ensures
        total(n, f) == 0real,
    decreases n,
{
    if n > 0 {
        lemma_nothing((n - 1) as nat, f);
        assert(f(n - 1) == 0real);
    }
}

proof fn lemma_some_square_counts<M: Arithmetic>(v: Exact<M>, x: Seq<M::Real>, n: nat, i: int)
    requires
        0 <= i < x.len(),
        v.of(x[i]) != 0real,
    ensures
        total(n, squares::<M>(v, x)) >= 0real,
        i < n ==> total(n, squares::<M>(v, x)) > 0real,
    decreases n,
{
    if n > 0 {
        lemma_some_square_counts::<M>(v, x, (n - 1) as nat, i);
        lemma_square(v.of(x[n - 1]));
    }
}

// ---------------------------------------------------------------------------------------------
// Filtering
// ---------------------------------------------------------------------------------------------

/// What symbol `s` adds to sample `m` of a pulse train.
pub open spec fn pulse_part<M: Arithmetic>(
    v: Exact<M>,
    part: spec_fn(M::Symbol) -> real,
    symbols: Seq<M::Symbol>,
    sps: int,
    taps: Seq<M::Real>,
    m: int,
) -> spec_fn(int) -> real {
    |s: int|
        {
            let since = m - s * sps;
            if 0 <= since < taps.len() {
                part(symbols[s]) * v.of(taps[since])
            } else {
                0real
            }
        }
}

/// A pulse train is the sum of one pulse per symbol, symbol `s` starting at sample `s * sps`.
pub proof fn law_pulse_train_is_a_sum_of_pulses<M: Arithmetic>(
    v: Exact<M>,
    symbols: Seq<M::Symbol>,
    sps: int,
    taps: Seq<M::Real>,
    out: Seq<M::Symbol>,
    m: int,
)
    requires
        v.holds(),
        pulse_train::<M>(symbols, sps, taps, out),
        0 <= m < out.len(),
    ensures
        out.len() == symbols.len() * sps + taps.len() - 1,
        v.re(out[m]) == total(symbols.len(), pulse_part::<M>(v, v.re, symbols, sps, taps, m)),
        v.im(out[m]) == total(symbols.len(), pulse_part::<M>(v, v.im, symbols, sps, taps, m)),
{
    let step = shaping_step::<M>(symbols, sps, taps, m);
    let (f, g) = (
        pulse_part::<M>(v, v.re, symbols, sps, taps, m),
        pulse_part::<M>(v, v.im, symbols, sps, taps, m),
    );
    assert(reached(step, symbols.len(), M::ORIGIN, out[m]));
    assert forall|s: int, a: M::Symbol, b: M::Symbol|
        0 <= s < symbols.len() && #[trigger] step(s, a, b) implies (v.re)(b) == (v.re)(a) + f(s)
        && (v.im)(b) == (v.im)(a) + g(s) by {
        if 0 <= m - s * sps < taps.len() {
            lemma_adds_tap::<M>(v, a, symbols[s], taps[m - s * sps], b);
        }
    }
    lemma_total_reached(step, symbols.len(), M::ORIGIN, out[m], v.re, f);
    lemma_total_reached(step, symbols.len(), M::ORIGIN, out[m], v.im, g);
}

/// A filtered signal is the convolution sum: sample `i` of the input adds itself times tap `m - i`
/// to sample `m`.
pub proof fn law_filtering_is_convolution<M: Arithmetic>(
    v: Exact<M>,
    x: Seq<M::Symbol>,
    h: Seq<M::Real>,
    y: Seq<M::Symbol>,
    m: int,
)
    requires
        v.holds(),
        convolution::<M>(x, h, y),
        0 <= m < y.len(),
    ensures
        y.len() == x.len() + h.len() - 1,
        v.re(y[m]) == total(x.len(), pulse_part::<M>(v, v.re, x, 1, h, m)),
        v.im(y[m]) == total(x.len(), pulse_part::<M>(v, v.im, x, 1, h, m)),
{
    let step = filter_step::<M>(x, h, m);
    let (f, g) = (
        pulse_part::<M>(v, v.re, x, 1, h, m),
        pulse_part::<M>(v, v.im, x, 1, h, m),
    );
    assert(reached(step, x.len(), M::ORIGIN, y[m]));
    assert forall|i: int, a: M::Symbol, b: M::Symbol|
        0 <= i < x.len() && #[trigger] step(i, a, b) implies (v.re)(b) == (v.re)(a) + f(i) && (
    v.im)(b) == (v.im)(a) + g(i) by {
        if 0 <= m - i < h.len() {
            lemma_adds_tap::<M>(v, a, x[i], h[m - i], b);
        }
    }
    lemma_total_reached(step, x.len(), M::ORIGIN, y[m], v.re, f);
    lemma_total_reached(step, x.len(), M::ORIGIN, y[m], v.im, g);
}

// ---------------------------------------------------------------------------------------------
// Spectra
// ---------------------------------------------------------------------------------------------

/// The level of a bin does not depend on its phase: in every number system in which two bins have
/// the same modulus, they have the same levels.
pub proof fn law_level_ignores_the_phase<M: Arithmetic>(s: M::Symbol, t: M::Symbol, level: M::Real)
    requires
        forall|m: M::Real| #[trigger]
            call_ensures(M::modulus, (s,), m) ==> call_ensures(M::modulus, (t,), m),
        log_magnitude::<M>(s).yields(level),
    ensures
        log_magnitude::<M>(t).yields(level),
{
    reveal_with_fuel(Formula::yields, 4);
    let (f, g) = (Formula::<M>::ModulusOf(s), Formula::<M>::ModulusOf(t));
    let tiny = Formula::<M>::Fraction(1, 1_000_000_000);
    let x = choose|x: M::Real|
        #[trigger] call_ensures(M::logarithm, (x,), level) && f.plus(tiny).yields(x);
    let (p, q) = choose|p: M::Real, q: M::Real|
        #[trigger] call_ensures(M::plus, (p, q), x) && f.yields(p) && tiny.yields(q);
    assert(g.yields(p));
    assert(g.plus(tiny).yields(x));
}

/// The level of a bin: the logarithm of its absolute value, with a billionth added.
pub open spec fn bin_level<M: Arithmetic>(v: Exact<M>, s: M::Symbol) -> real {
    (v.log)((v.sqrt)(v.re(s) * v.re(s) + v.im(s) * v.im(s)) + 1real / 1_000_000_000real)
}

/// A column of a spectrogram holds the levels of the spectrum of the samples under the window.
pub proof fn law_column_is_the_spectrum_under_the_window<M: Fourier>(
    v: Exact<M>,
    samples: Seq<M::Real>,
    start: int,
    window: Seq<M::Real>,
    column: Seq<M::Real>,
)
    requires
        v.holds(),
        spectral_column::<M>(samples, start, window, column),
    ensures
        exists|frame: Vec<M::Symbol>, bins: Vec<M::Symbol>|
            {
                &&& #[trigger] call_ensures(M::spectrum, (frame,), bins)
                &&& frame@.len() == window.len()
                &&& forall|i: int|
                    0 <= i < frame@.len() ==> v.re(#[trigger] frame@[i]) == v.of(samples[start + i])
                        * v.of(window[i]) && v.im(frame@[i]) == 0real
                &&& column.len() <= window.len() / 2 + 1
                &&& column.len() <= bins@.len()
                &&& column.len() == window.len() / 2 + 1 || column.len() == bins@.len()
                &&& forall|k: int|
                    0 <= k < column.len() ==> v.of(#[trigger] column[k]) == bin_level::<M>(
                        v,
                        bins@[k],
                    )
            },
{
    let (frame, bins) = choose|frame: Vec<M::Symbol>, bins: Vec<M::Symbol>|
        windowed::<M>(samples, start, window, frame@) && #[trigger] transformed::<M>(
            frame,
            bins,
            column,
        );
    assert(call_ensures(M::spectrum, (frame,), bins));
    assert forall|i: int| 0 <= i < frame@.len() implies v.re(#[trigger] frame@[i]) == v.of(
        samples[start + i],
    ) * v.of(window[i]) && v.im(frame@[i]) == 0real by {
        assert(weighted::<M>(samples[start + i], window[i], frame@[i]));
    }
    assert forall|k: int| 0 <= k < column.len() implies v.of(#[trigger] column[k]) == bin_level::<
        M,
    >(v, bins@[k]) by {
        law_level_is_of_the_absolute_value::<M>(v, bins@[k], column[k]);
    }
}

} // verus!
