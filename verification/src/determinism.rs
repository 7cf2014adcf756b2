//! One outcome: over a number system whose operations are deterministic, what a contract allows is
//! a single value.

use vstd::prelude::*;

use crate::arith::{clamped, is_path, reached, square_step, Arithmetic, Fourier};
use crate::bpsk::{demodulated, sliced};
use crate::carrier::{lowered, lowered_by, phase, raised, raised_by, turn, turned_down, turned_up};
use crate::chirp::{
    chirp_value, contest_step, correlates, curvature, first_peak, found, is_chirp, overlap_step,
    sliding_scores, verdict, vertex, ChirpHit,
};
use crate::config::{duration, Config};
use crate::equalizer::{channel_estimate, match_step, Dfe, DfeState, Lesson};
use crate::formula::{hann_value, tells_below, Formula};
use crate::pulse::{
    convolution, filter_step, impulse, pulse_train, rrc_filter, rrc_gap, rrc_general, rrc_limit,
    rrc_peak, rrc_tap, rrc_value, shaping_step, tap_position, unit_energy,
};
use crate::rx::{
    aligned, attempted, best_phase, data_position, energy_step, equalized, equalized_from, followed,
    head_len, heard, interpolated, leads_on, matched, nominal_symbols, peak_ratio, phase_step,
    position, received, sampled, symbol_at, symbol_energy, tells, training, understood, DecodeError,
    DecodeTrace,
};
use crate::spectrogram::{
    hann, is_stft, log_magnitude, short_time_spectrum, spectral_column, transformed, weighted,
    windowed,
};
use crate::tx::{carries, gap, levelled, levelled_by, loudest_step, transmission};

verus! {

/// Every operation returns one value for the same operands.
pub open spec fn deterministic<M: Arithmetic>() -> bool {
    &&& forall|a: u64, b: u64, r: M::Real, s: M::Real|
        #[trigger] call_ensures(M::fraction, (a, b), r) && #[trigger] call_ensures(M::fraction, (a, b), s) ==> r
            == s
    &&& forall|a: usize, r: M::Real, s: M::Real|
        #[trigger] call_ensures(M::count, (a,), r) && #[trigger] call_ensures(M::count, (a,), s) ==> r
            == s
    &&& forall|a: i32, r: M::Real, s: M::Real|
        #[trigger] call_ensures(M::offset, (a,), r) && #[trigger] call_ensures(M::offset, (a,), s) ==> r
            == s
    &&& forall|a: M::Real, b: M::Real, r: M::Real, s: M::Real|
        #[trigger] call_ensures(M::plus, (a, b), r) && #[trigger] call_ensures(M::plus, (a, b), s) ==> r
            == s
    &&& forall|a: M::Real, b: M::Real, r: M::Real, s: M::Real|
        #[trigger] call_ensures(M::minus, (a, b), r) && #[trigger] call_ensures(M::minus, (a, b), s) ==> r
            == s
    &&& forall|a: M::Real, b: M::Real, r: M::Real, s: M::Real|
        #[trigger] call_ensures(M::times, (a, b), r) && #[trigger] call_ensures(M::times, (a, b), s) ==> r
            == s
    &&& forall|a: M::Real, b: M::Real, r: M::Real, s: M::Real|
        #[trigger] call_ensures(M::over, (a, b), r) && #[trigger] call_ensures(M::over, (a, b), s) ==> r
            == s
    &&& forall|a: M::Real, b: M::Real, r: M::Real, s: M::Real|
        #[trigger] call_ensures(M::larger, (a, b), r) && #[trigger] call_ensures(M::larger, (a, b), s) ==> r
            == s
    &&& forall|a: M::Real, r: M::Real, s: M::Real|
        #[trigger] call_ensures(M::negated, (a,), r) && #[trigger] call_ensures(M::negated, (a,), s) ==> r
            == s
    &&& forall|a: M::Real, r: M::Real, s: M::Real|
        #[trigger] call_ensures(M::square, (a,), r) && #[trigger] call_ensures(M::square, (a,), s) ==> r
            == s
    &&& forall|a: M::Real, r: M::Real, s: M::Real|
        #[trigger] call_ensures(M::sine, (a,), r) && #[trigger] call_ensures(M::sine, (a,), s) ==> r
            == s
    &&& forall|a: M::Real, r: M::Real, s: M::Real|
        #[trigger] call_ensures(M::cosine, (a,), r) && #[trigger] call_ensures(M::cosine, (a,), s) ==> r
            == s
    &&& forall|a: M::Real, r: M::Real, s: M::Real|
        #[trigger] call_ensures(M::logarithm, (a,), r) && #[trigger] call_ensures(M::logarithm, (a,), s) ==> r
            == s
    &&& forall|a: M::Real, r: M::Real, s: M::Real|
        #[trigger] call_ensures(M::rounded, (a,), r) && #[trigger] call_ensures(M::rounded, (a,), s) ==> r
            == s
    &&& forall|a: M::Real, r: M::Real, s: M::Real|
        #[trigger] call_ensures(M::magnitude, (a,), r) && #[trigger] call_ensures(M::magnitude, (a,), s) ==> r
            == s
    &&& forall|a: M::Real, r: M::Real, s: M::Real|
        #[trigger] call_ensures(M::root, (a,), r) && #[trigger] call_ensures(M::root, (a,), s) ==> r
            == s
    &&& forall|a: M::Real, b: M::Real, r: bool, s: bool|
        #[trigger] call_ensures(M::exceeds, (a, b), r) && #[trigger] call_ensures(M::exceeds, (a, b), s) ==> r
            == s
    &&& forall|a: M::Real, b: M::Real, r: bool, s: bool|
        #[trigger] call_ensures(M::reaches, (a, b), r) && #[trigger] call_ensures(M::reaches, (a, b), s) ==> r
            == s
    &&& forall|a: M::Real, b: M::Real, r: bool, s: bool|
        #[trigger] call_ensures(M::below, (a, b), r) && #[trigger] call_ensures(M::below, (a, b), s) ==> r
            == s
    &&& forall|a: M::Real, r: usize, s: usize|
        #[trigger] call_ensures(M::floor, (a,), r) && #[trigger] call_ensures(M::floor, (a,), s) ==> r
            == s
    &&& forall|a: M::Real, r: usize, s: usize|
        #[trigger] call_ensures(M::nearest, (a,), r) && #[trigger] call_ensures(M::nearest, (a,), s) ==> r
            == s
    &&& forall|a: M::Real, r: i16, s: i16|
        #[trigger] call_ensures(M::sample, (a,), r) && #[trigger] call_ensures(M::sample, (a,), s) ==> r
            == s
    &&& forall|a: M::Real, b: M::Real, r: M::Symbol, s: M::Symbol|
        #[trigger] call_ensures(M::symbol, (a, b), r) && #[trigger] call_ensures(M::symbol, (a, b), s) ==> r
            == s
    &&& forall|a: M::Symbol, r: M::Real, s: M::Real|
        #[trigger] call_ensures(M::real_part, (a,), r) && #[trigger] call_ensures(M::real_part, (a,), s) ==> r
            == s
    &&& forall|a: M::Symbol, r: M::Real, s: M::Real|
        #[trigger] call_ensures(M::imaginary_part, (a,), r) && #[trigger] call_ensures(M::imaginary_part, (a,), s) ==> r
            == s
    &&& forall|a: M::Symbol, r: M::Real, s: M::Real|
        #[trigger] call_ensures(M::modulus, (a,), r) && #[trigger] call_ensures(M::modulus, (a,), s) ==> r
            == s
    &&& forall|a: M::Symbol, r: M::Real, s: M::Real|
        #[trigger] call_ensures(M::energy, (a,), r) && #[trigger] call_ensures(M::energy, (a,), s) ==> r
            == s
    &&& forall|a: M::Symbol, b: M::Symbol, r: M::Symbol, s: M::Symbol|
        #[trigger] call_ensures(M::sum, (a, b), r) && #[trigger] call_ensures(M::sum, (a, b), s) ==> r
            == s
    &&& forall|a: M::Symbol, b: M::Symbol, r: M::Symbol, s: M::Symbol|
        #[trigger] call_ensures(M::difference, (a, b), r) && #[trigger] call_ensures(M::difference, (a, b), s) ==> r
            == s
    &&& forall|a: M::Symbol, b: M::Symbol, r: M::Symbol, s: M::Symbol|
        #[trigger] call_ensures(M::product, (a, b), r) && #[trigger] call_ensures(M::product, (a, b), s) ==> r
            == s
    &&& forall|a: M::Symbol, b: M::Symbol, r: M::Symbol, s: M::Symbol|
        #[trigger] call_ensures(M::quotient, (a, b), r) && #[trigger] call_ensures(M::quotient, (a, b), s) ==> r
            == s
    &&& forall|a: M::Symbol, b: M::Symbol, r: M::Symbol, s: M::Symbol|
        #[trigger] call_ensures(M::conjugate_product, (a, b), r) && #[trigger] call_ensures(M::conjugate_product, (a, b), s) ==> r
            == s
    &&& forall|a: M::Symbol, b: M::Real, r: M::Symbol, s: M::Symbol|
        #[trigger] call_ensures(M::scaled, (a, b), r) && #[trigger] call_ensures(M::scaled, (a, b), s) ==> r
            == s
    &&& forall|a: M::Symbol, b: M::Real, r: M::Symbol, s: M::Symbol|
        #[trigger] call_ensures(M::share, (a, b), r) && #[trigger] call_ensures(M::share, (a, b), s) ==> r
            == s
}

/// The Fourier transform of the same values is the same.
pub open spec fn deterministic_transform<M: Fourier>() -> bool {
    forall|f: Vec<M::Symbol>, g: Vec<M::Symbol>, r: Vec<M::Symbol>, s: Vec<M::Symbol>|
        #[trigger] call_ensures(M::spectrum, (f,), r) && #[trigger] call_ensures(
            M::spectrum,
            (g,),
            s,
        ) && f@ == g@ ==> r@ == s@
}

/// Steps that have one outcome each lead to one end.
pub proof fn lemma_one_end<S>(
    step: spec_fn(int, S, S) -> bool,
    n: nat,
    start: S,
    end: S,
    other: S,
)
    requires
        reached(step, n, start, end),
        reached(step, n, start, other),
        forall|i: int, a: S, b: S, c: S|
            0 <= i < n && #[trigger] step(i, a, b) && #[trigger] step(i, a, c) ==> b == c,
    ensures
        end == other,
{
    let one = choose|states: Seq<S>|
        #[trigger] is_path(step, n, states) && states[0] == start && states[n as int] == end;
    let two = choose|states: Seq<S>|
        #[trigger] is_path(step, n, states) && states[0] == start && states[n as int] == other;
    lemma_one_path(step, n, one, two, n);
}

proof fn lemma_one_path<S>(
    step: spec_fn(int, S, S) -> bool,
    n: nat,
    one: Seq<S>,
    two: Seq<S>,
    m: nat,
)
    requires
        is_path(step, n, one),
        is_path(step, n, two),
        one[0] == two[0],
        m <= n,
        forall|i: int, a: S, b: S, c: S|
            0 <= i < n && #[trigger] step(i, a, b) && #[trigger] step(i, a, c) ==> b == c,
    ensures
        one[m as int] == two[m as int],
    decreases m,
{
    if m > 0 {
        lemma_one_path(step, n, one, two, (m - 1) as nat);
        reveal(is_path);
        assert(step(m - 1, one[m - 1], one[m - 1 + 1]));
        assert(step(m - 1, two[m - 1], two[m - 1 + 1]));
    }
}

/// A formula yields one value.
pub proof fn lemma_one_value<M: Arithmetic>(f: Formula<M>, x: M::Real, y: M::Real)
    requires
        deterministic::<M>(),
        f.yields(x),
        f.yields(y),
    ensures
        x == y,
    decreases f,
{
    match f {
        Formula::Plus(a, b) => {
            let (p, q) = choose|p: M::Real, q: M::Real|
                #[trigger] call_ensures(M::plus, (p, q), x) && a.yields(p) && b.yields(q);
            let (u, v) = choose|p: M::Real, q: M::Real|
                #[trigger] call_ensures(M::plus, (p, q), y) && a.yields(p) && b.yields(q);
            lemma_one_value::<M>(*a, p, u);
            lemma_one_value::<M>(*b, q, v);
        },
        Formula::Minus(a, b) => {
            let (p, q) = choose|p: M::Real, q: M::Real|
                #[trigger] call_ensures(M::minus, (p, q), x) && a.yields(p) && b.yields(q);
            let (u, v) = choose|p: M::Real, q: M::Real|
                #[trigger] call_ensures(M::minus, (p, q), y) && a.yields(p) && b.yields(q);
            lemma_one_value::<M>(*a, p, u);
            lemma_one_value::<M>(*b, q, v);
        },
        Formula::Times(a, b) => {
            let (p, q) = choose|p: M::Real, q: M::Real|
                #[trigger] call_ensures(M::times, (p, q), x) && a.yields(p) && b.yields(q);
            let (u, v) = choose|p: M::Real, q: M::Real|
                #[trigger] call_ensures(M::times, (p, q), y) && a.yields(p) && b.yields(q);
            lemma_one_value::<M>(*a, p, u);
            lemma_one_value::<M>(*b, q, v);
        },
        Formula::Over(a, b) => {
            let (p, q) = choose|p: M::Real, q: M::Real|
                #[trigger] call_ensures(M::over, (p, q), x) && a.yields(p) && b.yields(q);
            let (u, v) = choose|p: M::Real, q: M::Real|
                #[trigger] call_ensures(M::over, (p, q), y) && a.yields(p) && b.yields(q);
            lemma_one_value::<M>(*a, p, u);
            lemma_one_value::<M>(*b, q, v);
        },
        Formula::Larger(a, b) => {
            let (p, q) = choose|p: M::Real, q: M::Real|
                #[trigger] call_ensures(M::larger, (p, q), x) && a.yields(p) && b.yields(q);
            let (u, v) = choose|p: M::Real, q: M::Real|
                #[trigger] call_ensures(M::larger, (p, q), y) && a.yields(p) && b.yields(q);
            lemma_one_value::<M>(*a, p, u);
            lemma_one_value::<M>(*b, q, v);
        },
        Formula::Negated(a) => {
            let p = choose|p: M::Real|
                #[trigger] call_ensures(M::negated, (p,), x) && a.yields(p);
            let u = choose|p: M::Real|
                #[trigger] call_ensures(M::negated, (p,), y) && a.yields(p);
            lemma_one_value::<M>(*a, p, u);
        },
        Formula::Square(a) => {
            let p = choose|p: M::Real|
                #[trigger] call_ensures(M::square, (p,), x) && a.yields(p);
            let u = choose|p: M::Real|
                #[trigger] call_ensures(M::square, (p,), y) && a.yields(p);
            lemma_one_value::<M>(*a, p, u);
        },
        Formula::Magnitude(a) => {
            let p = choose|p: M::Real|
                #[trigger] call_ensures(M::magnitude, (p,), x) && a.yields(p);
            let u = choose|p: M::Real|
                #[trigger] call_ensures(M::magnitude, (p,), y) && a.yields(p);
            lemma_one_value::<M>(*a, p, u);
        },
        Formula::Sine(a) => {
            let p = choose|p: M::Real|
                #[trigger] call_ensures(M::sine, (p,), x) && a.yields(p);
            let u = choose|p: M::Real|
                #[trigger] call_ensures(M::sine, (p,), y) && a.yields(p);
            lemma_one_value::<M>(*a, p, u);
        },
        Formula::Cosine(a) => {
            let p = choose|p: M::Real|
                #[trigger] call_ensures(M::cosine, (p,), x) && a.yields(p);
            let u = choose|p: M::Real|
                #[trigger] call_ensures(M::cosine, (p,), y) && a.yields(p);
            lemma_one_value::<M>(*a, p, u);
        },
        Formula::Logarithm(a) => {
            let p = choose|p: M::Real|
                #[trigger] call_ensures(M::logarithm, (p,), x) && a.yields(p);
            let u = choose|p: M::Real|
                #[trigger] call_ensures(M::logarithm, (p,), y) && a.yields(p);
            lemma_one_value::<M>(*a, p, u);
        },
        Formula::Rounded(a) => {
            let p = choose|p: M::Real|
                #[trigger] call_ensures(M::rounded, (p,), x) && a.yields(p);
            let u = choose|p: M::Real|
                #[trigger] call_ensures(M::rounded, (p,), y) && a.yields(p);
            lemma_one_value::<M>(*a, p, u);
        },
        _ => {},
    }
}

/// A comparison of what a formula yields has one outcome.
proof fn lemma_one_comparison<M: Arithmetic>(f: Formula<M>, bound: M::Real, p: bool, q: bool)
    requires
        deterministic::<M>(),
        tells_below::<M>(f, bound, p),
        tells_below::<M>(f, bound, q),
    ensures
        p == q,
{
    let x = choose|x: M::Real|
        f.yields(x) && #[trigger] call_ensures(M::below, (x, bound), p);
    let y = choose|x: M::Real|
        f.yields(x) && #[trigger] call_ensures(M::below, (x, bound), q);
    lemma_one_value::<M>(f, x, y);
}

/// There is one chirp.
proof fn lemma_one_chirp<M: Arithmetic>(cfg: Config<M>, c: Seq<M::Real>, d: Seq<M::Real>)
    requires
        deterministic::<M>(),
        is_chirp::<M>(cfg, c),
        is_chirp::<M>(cfg, d),
    ensures
        c == d,
{
    let (ms, rate) = (cfg.chirp_dur_ms, cfg.sample_rate);
    let x = choose|x: M::Real|
        duration::<M>(ms, rate).yields(x) && #[trigger] call_ensures(
            M::nearest,
            (x,),
            c.len() as usize,
        );
    let y = choose|x: M::Real|
        duration::<M>(ms, rate).yields(x) && #[trigger] call_ensures(
            M::nearest,
            (x,),
            d.len() as usize,
        );
    lemma_one_value::<M>(duration::<M>(ms, rate), x, y);
    assert(c.len() == d.len());
    assert forall|i: int| 0 <= i < c.len() implies c[i] == d[i] by {
        let f = chirp_value::<M>(
            i as usize,
            c.len() as usize,
            cfg.sample_rate,
            cfg.chirp_f0_hz,
            cfg.chirp_f1_hz,
        );
        assert(f.yields(c[i]) && f.yields(d[i]));
        lemma_one_value::<M>(f, c[i], d[i]);
    }
    assert(c =~= d);
}

/// Squares have one sum.
proof fn lemma_one_energy<M: Arithmetic>(x: Seq<M::Real>, e: M::Real, f: M::Real)
    requires
        deterministic::<M>(),
        reached(square_step::<M>(x), x.len(), M::ZERO, e),
        reached(square_step::<M>(x), x.len(), M::ZERO, f),
    ensures
        e == f,
{
    lemma_one_end(square_step::<M>(x), x.len(), M::ZERO, e, f);
}

/// A place has one score.
proof fn lemma_one_score<M: Arithmetic>(
    signal: Seq<M::Real>,
    chirp: Seq<M::Real>,
    at: int,
    x: M::Real,
    y: M::Real,
)
    requires
        deterministic::<M>(),
        correlates::<M>(signal, chirp, at, x),
        correlates::<M>(signal, chirp, at, y),
    ensures
        x == y,
{
    let step = overlap_step::<M>(signal, chirp, at);
    let p = choose|sum: M::Real|
        #[trigger] call_ensures(M::magnitude, (sum,), x) && reached(
            step,
            chirp.len(),
            M::ZERO,
            sum,
        );
    let q = choose|sum: M::Real|
        #[trigger] call_ensures(M::magnitude, (sum,), y) && reached(
            step,
            chirp.len(),
            M::ZERO,
            sum,
        );
    lemma_one_end(step, chirp.len(), M::ZERO, p, q);
}

/// Three values have one vertex.
proof fn lemma_one_vertex<M: Arithmetic>(
    before: M::Real,
    peak: M::Real,
    after: M::Real,
    x: M::Real,
    y: M::Real,
)
    requires
        deterministic::<M>(),
        vertex::<M>(before, peak, after, x),
        vertex::<M>(before, peak, after, y),
    ensures
        x == y,
{
    let bend = curvature::<M>(before, peak, after);
    let slope = Formula::Fraction(1, 2).times(
        Formula::Given(before).minus(Formula::Given(after)),
    ).over(bend);
    let side = Formula::<M>::Fraction(1, 2).negated();
    if tells_below::<M>(bend, M::ZERO, true) && tells_below::<M>(bend, M::ZERO, false) {
        lemma_one_comparison::<M>(bend, M::ZERO, true, false);
    }
    if tells_below::<M>(bend, M::ZERO, true) {
        let (u, left, right) = choose|u: M::Real, left: M::Real, right: M::Real|
            {
                &&& slope.yields(u)
                &&& side.yields(left)
                &&& call_ensures(M::fraction, (1, 2), right)
                &&& #[trigger] clamped::<M>(u, left, right, x)
            };
        let (v, far, near) = choose|u: M::Real, left: M::Real, right: M::Real|
            {
                &&& slope.yields(u)
                &&& side.yields(left)
                &&& call_ensures(M::fraction, (1, 2), right)
                &&& #[trigger] clamped::<M>(u, left, right, y)
            };
        lemma_one_value::<M>(slope, u, v);
        lemma_one_value::<M>(side, left, far);
        assert(right == near);
    }
}

/// A search has one outcome.
pub proof fn lemma_one_hit<M: Arithmetic>(
    signal: Seq<M::Real>,
    chirp: Seq<M::Real>,
    ratio: M::Real,
    g: Option<ChirpHit<M>>,
    h: Option<ChirpHit<M>>,
)
    requires
        deterministic::<M>(),
        found::<M>(signal, chirp, ratio, g),
        found::<M>(signal, chirp, ratio, h),
    ensures
        g == h,
{
    if signal.len() >= chirp.len() {
        let (s1, b1, e1, t1) = choose|
            scores: Seq<M::Real>,
            best: (int, M::Real),
            energy: M::Real,
            threshold: M::Real,
        |
            {
                &&& sliding_scores::<M>(signal, chirp, scores)
                &&& first_peak::<M>(scores, best)
                &&& reached(square_step::<M>(chirp), chirp.len(), M::ZERO, energy)
                &&& call_ensures(M::times, (energy, ratio), threshold)
                &&& #[trigger] verdict::<M>(scores, best, energy, threshold, g)
            };
        let (s2, b2, e2, t2) = choose|
            scores: Seq<M::Real>,
            best: (int, M::Real),
            energy: M::Real,
            threshold: M::Real,
        |
            {
                &&& sliding_scores::<M>(signal, chirp, scores)
                &&& first_peak::<M>(scores, best)
                &&& reached(square_step::<M>(chirp), chirp.len(), M::ZERO, energy)
                &&& call_ensures(M::times, (energy, ratio), threshold)
                &&& #[trigger] verdict::<M>(scores, best, energy, threshold, h)
            };
        assert forall|i: int| 0 <= i < s1.len() implies s1[i] == s2[i] by {
            assert(correlates::<M>(signal, chirp, i, s1[i]));
            assert(correlates::<M>(signal, chirp, i, s2[i]));
            lemma_one_score::<M>(signal, chirp, i, s1[i], s2[i]);
        }
        assert(s1 =~= s2);
        lemma_one_end(contest_step::<M>(s1), s1.len(), (0int, M::ZERO), b1, b2);
        lemma_one_energy::<M>(chirp, e1, e2);
        assert(t1 == t2);
        if g is Some && h is Some {
            let (x, y) = (g.unwrap(), h.unwrap());
            if 0 < b1.0 && b1.0 + 1 < s1.len() {
                lemma_one_vertex::<M>(
                    s1[b1.0 - 1],
                    b1.1,
                    s1[b1.0 + 1],
                    x.sub_sample,
                    y.sub_sample,
                );
            }
            assert(x == y);
        }
    }
}

// ---------------------------------------------------------------------------------------------
// Filters and carriers
// ---------------------------------------------------------------------------------------------

/// An impulse has one value at each place.
proof fn lemma_one_impulse<M: Arithmetic>(t: M::Real, beta: M::Real, x: M::Real, y: M::Real)
    requires
        deterministic::<M>(),
        rrc_value::<M>(t, beta, x),
        rrc_value::<M>(t, beta, y),
    ensures
        x == y,
{
    let eps = choose|eps: M::Real| #[trigger] call_ensures(M::fraction, (1, 1_000_000), eps);
    let at = Formula::<M>::Given(t).magnitude();
    let gap = rrc_gap::<M>(t, beta);
    if tells_below::<M>(at, eps, true) && tells_below::<M>(at, eps, false) {
        lemma_one_comparison::<M>(at, eps, true, false);
    }
    if tells_below::<M>(gap, eps, true) && tells_below::<M>(gap, eps, false) {
        lemma_one_comparison::<M>(gap, eps, true, false);
    }
    if tells_below::<M>(at, eps, true) {
        lemma_one_value::<M>(rrc_peak::<M>(beta), x, y);
    } else if tells_below::<M>(gap, eps, true) {
        lemma_one_value::<M>(rrc_limit::<M>(beta), x, y);
    } else {
        lemma_one_value::<M>(rrc_general::<M>(t, beta), x, y);
    }
}

/// There is one filter.
proof fn lemma_one_filter<M: Arithmetic>(
    sps: usize,
    span: usize,
    beta: M::Real,
    h: Seq<M::Real>,
    g: Seq<M::Real>,
)
    requires
        deterministic::<M>(),
        rrc_filter::<M>(sps, span, beta, h),
        rrc_filter::<M>(sps, span, beta, g),
    ensures
        h == g,
{
    let (r1, e1, n1) = choose|raw: Seq<M::Real>, energy: M::Real, norm: M::Real|
        impulse::<M>(sps, span, beta, raw) && #[trigger] unit_energy::<M>(raw, energy, norm, h);
    let (r2, e2, n2) = choose|raw: Seq<M::Real>, energy: M::Real, norm: M::Real|
        impulse::<M>(sps, span, beta, raw) && #[trigger] unit_energy::<M>(raw, energy, norm, g);
    let n = (sps * span + 1) as usize;
    assert forall|i: int| 0 <= i < r1.len() implies r1[i] == r2[i] by {
        assert(rrc_tap::<M>(i as usize, n, sps, beta, r1[i]));
        assert(rrc_tap::<M>(i as usize, n, sps, beta, r2[i]));
        let t = choose|t: M::Real|
            tap_position::<M>(i as usize, n, sps).yields(t) && #[trigger] rrc_value::<M>(
                t,
                beta,
                r1[i],
            );
        let u = choose|t: M::Real|
            tap_position::<M>(i as usize, n, sps).yields(t) && #[trigger] rrc_value::<M>(
                t,
                beta,
                r2[i],
            );
        lemma_one_value::<M>(tap_position::<M>(i as usize, n, sps), t, u);
        lemma_one_impulse::<M>(t, beta, r1[i], r2[i]);
    }
    assert(r1 =~= r2);
    lemma_one_energy::<M>(r1, e1, e2);
    assert(n1 == n2);
    assert forall|i: int| 0 <= i < h.len() implies h[i] == g[i] by {
        assert(call_ensures(M::over, (r1[i], n1), h[i]));
        assert(call_ensures(M::over, (r2[i], n2), g[i]));
    }
    assert(h =~= g);
}

/// Bringing a signal down has one outcome.
proof fn lemma_one_baseband<M: Arithmetic>(
    passband: Seq<M::Real>,
    fc: M::Real,
    fs: M::Real,
    b: Seq<M::Symbol>,
    c: Seq<M::Symbol>,
)
    requires
        deterministic::<M>(),
        lowered::<M>(passband, fc, fs, b),
        lowered::<M>(passband, fc, fs, c),
    ensures
        b == c,
{
    let w = choose|omega: M::Real|
        turn::<M>(fc, fs).yields(omega) && #[trigger] lowered_by::<M>(passband, omega, b);
    let v = choose|omega: M::Real|
        turn::<M>(fc, fs).yields(omega) && #[trigger] lowered_by::<M>(passband, omega, c);
    lemma_one_value::<M>(turn::<M>(fc, fs), w, v);
    assert forall|n: int| 0 <= n < b.len() implies b[n] == c[n] by {
        assert(turned_down::<M>(passband[n], w, n, b[n]));
        assert(turned_down::<M>(passband[n], w, n, c[n]));
        let x = Formula::<M>::Given(passband[n]).times(phase::<M>(w, n).cosine());
        let y = Formula::<M>::Given(passband[n]).negated().times(phase::<M>(w, n).sine());
        let (re, im) = choose|re: M::Real, im: M::Real|
            x.yields(re) && y.yields(im) && #[trigger] call_ensures(M::symbol, (re, im), b[n]);
        let (p, q) = choose|re: M::Real, im: M::Real|
            x.yields(re) && y.yields(im) && #[trigger] call_ensures(M::symbol, (re, im), c[n]);
        lemma_one_value::<M>(x, re, p);
        lemma_one_value::<M>(y, im, q);
    }
    assert(b =~= c);
}

/// Bringing a signal up has one outcome.
proof fn lemma_one_passband<M: Arithmetic>(
    baseband: Seq<M::Symbol>,
    fc: M::Real,
    fs: M::Real,
    b: Seq<M::Real>,
    c: Seq<M::Real>,
)
    requires
        deterministic::<M>(),
        raised::<M>(baseband, fc, fs, b),
        raised::<M>(baseband, fc, fs, c),
    ensures
        b == c,
{
    let w = choose|omega: M::Real|
        turn::<M>(fc, fs).yields(omega) && #[trigger] raised_by::<M>(baseband, omega, b);
    let v = choose|omega: M::Real|
        turn::<M>(fc, fs).yields(omega) && #[trigger] raised_by::<M>(baseband, omega, c);
    lemma_one_value::<M>(turn::<M>(fc, fs), w, v);
    assert forall|n: int| 0 <= n < b.len() implies b[n] == c[n] by {
        let f = turned_up::<M>(baseband[n], w, n);
        assert(f.yields(b[n]) && f.yields(c[n]));
        lemma_one_value::<M>(f, b[n], c[n]);
    }
    assert(b =~= c);
}

/// A convolution has one outcome.
pub proof fn lemma_one_convolution<M: Arithmetic>(
    x: Seq<M::Symbol>,
    h: Seq<M::Real>,
    y: Seq<M::Symbol>,
    z: Seq<M::Symbol>,
)
    requires
        deterministic::<M>(),
        convolution::<M>(x, h, y),
        convolution::<M>(x, h, z),
    ensures
        y == z,
{
    assert forall|m: int| 0 <= m < y.len() implies y[m] == z[m] by {
        let step = filter_step::<M>(x, h, m);
        assert(reached(step, x.len(), M::ORIGIN, y[m]));
        assert(reached(step, x.len(), M::ORIGIN, z[m]));
        lemma_one_end(step, x.len(), M::ORIGIN, y[m], z[m]);
    }
    assert(y =~= z);
}

/// A pulse train has one outcome.
pub proof fn lemma_one_pulse_train<M: Arithmetic>(
    symbols: Seq<M::Symbol>,
    sps: int,
    taps: Seq<M::Real>,
    y: Seq<M::Symbol>,
    z: Seq<M::Symbol>,
)
    requires
        deterministic::<M>(),
        pulse_train::<M>(symbols, sps, taps, y),
        pulse_train::<M>(symbols, sps, taps, z),
    ensures
        y == z,
{
    assert forall|m: int| 0 <= m < y.len() implies y[m] == z[m] by {
        let step = shaping_step::<M>(symbols, sps, taps, m);
        assert(reached(step, symbols.len(), M::ORIGIN, y[m]));
        assert(reached(step, symbols.len(), M::ORIGIN, z[m]));
        lemma_one_end(step, symbols.len(), M::ORIGIN, y[m], z[m]);
    }
    assert(y =~= z);
}

// ---------------------------------------------------------------------------------------------
// Symbols
// ---------------------------------------------------------------------------------------------

/// A position has one value.
proof fn lemma_one_symbol_at<M: Arithmetic>(
    buf: Seq<M::Symbol>,
    base: int,
    frac: M::Real,
    sps: int,
    k: int,
    s: Option<M::Symbol>,
    t: Option<M::Symbol>,
)
    requires
        deterministic::<M>(),
        symbol_at::<M>(buf, base, frac, sps, k, s),
        symbol_at::<M>(buf, base, frac, sps, k, t),
    ensures
        s == t,
{
    let x = choose|at: M::Real|
        #[trigger] position::<M>(base, frac, sps, k, at) && interpolated::<M>(buf, at, s);
    let y = choose|at: M::Real|
        #[trigger] position::<M>(base, frac, sps, k, at) && interpolated::<M>(buf, at, t);
    assert(x == y);
}

/// An offset has one energy.
proof fn lemma_one_symbol_energy<M: Arithmetic>(
    buf: Seq<M::Symbol>,
    base: int,
    frac: M::Real,
    sps: int,
    n: nat,
    x: M::Real,
    y: M::Real,
)
    requires
        deterministic::<M>(),
        symbol_energy::<M>(buf, base, frac, sps, n, x),
        symbol_energy::<M>(buf, base, frac, sps, n, y),
    ensures
        x == y,
{
    let step = energy_step::<M>(buf, base, frac, sps);
    assert forall|k: int, a: M::Real, b: M::Real, c: M::Real|
        0 <= k < n && #[trigger] step(k, a, b) && #[trigger] step(k, a, c) implies b == c by {
        let s = choose|s: Option<M::Symbol>|
            #[trigger] symbol_at::<M>(buf, base, frac, sps, k, s) && match s {
                Some(v) => exists|e: M::Real|
                    #[trigger] call_ensures(M::energy, (v,), e) && call_ensures(
                        M::plus,
                        (a, e),
                        b,
                    ),
                None => b == a,
            };
        let t = choose|s: Option<M::Symbol>|
            #[trigger] symbol_at::<M>(buf, base, frac, sps, k, s) && match s {
                Some(v) => exists|e: M::Real|
                    #[trigger] call_ensures(M::energy, (v,), e) && call_ensures(
                        M::plus,
                        (a, e),
                        c,
                    ),
                None => c == a,
            };
        lemma_one_symbol_at::<M>(buf, base, frac, sps, k, s, t);
    }
    lemma_one_end(step, n, M::ZERO, x, y);
}

/// The timing search has one outcome.
proof fn lemma_one_phase<M: Arithmetic>(
    buf: Seq<M::Symbol>,
    delay: int,
    search: int,
    frac: M::Real,
    sps: int,
    n: nat,
    p: int,
    q: int,
)
    requires
        deterministic::<M>(),
        best_phase::<M>(buf, delay, search, frac, sps, n, p),
        best_phase::<M>(buf, delay, search, frac, sps, n, q),
    ensures
        p == q,
{
    let step = phase_step::<M>(buf, delay, search, frac, sps, n);
    let tries = (2 * search + 1) as nat;
    let start = (0int, M::LOWEST);
    let x = choose|m: M::Real| #[trigger] reached(step, tries, start, (p, m));
    let y = choose|m: M::Real| #[trigger] reached(step, tries, start, (q, m));
    assert forall|t: int, a: (int, M::Real), b: (int, M::Real), c: (int, M::Real)|
        0 <= t < tries && #[trigger] step(t, a, b) && #[trigger] step(t, a, c) implies b == c by {
        let u = choose|m: M::Real|
            #[trigger] symbol_energy::<M>(buf, delay + (t - search), frac, sps, n, m) && {
                ||| call_ensures(M::exceeds, (m, a.1), true) && b == (t - search, m)
                ||| call_ensures(M::exceeds, (m, a.1), false) && b == a
            };
        let v = choose|m: M::Real|
            #[trigger] symbol_energy::<M>(buf, delay + (t - search), frac, sps, n, m) && {
                ||| call_ensures(M::exceeds, (m, a.1), true) && c == (t - search, m)
                ||| call_ensures(M::exceeds, (m, a.1), false) && c == a
            };
        lemma_one_symbol_energy::<M>(buf, delay + (t - search), frac, sps, n, u, v);
    }
    lemma_one_end(step, tries, start, (p, x), (q, y));
}

/// Sampling has one outcome.
proof fn lemma_one_sampling<M: Arithmetic>(
    buf: Seq<M::Symbol>,
    base: int,
    frac: M::Real,
    sps: int,
    n: nat,
    s: Seq<M::Symbol>,
    t: Seq<M::Symbol>,
)
    requires
        deterministic::<M>(),
        sampled::<M>(buf, base, frac, sps, n, s),
        sampled::<M>(buf, base, frac, sps, n, t),
    ensures
        s == t,
{
    assert forall|k: int| 0 <= k < s.len() && k < t.len() implies s[k] == t[k] by {
        assert(symbol_at::<M>(buf, base, frac, sps, k, Some(s[k])));
        assert(symbol_at::<M>(buf, base, frac, sps, k, Some(t[k])));
        lemma_one_symbol_at::<M>(buf, base, frac, sps, k, Some(s[k]), Some(t[k]));
    }
    if s.len() < t.len() {
        let k = s.len() as int;
        assert(symbol_at::<M>(buf, base, frac, sps, k, Some(t[k])));
        lemma_one_symbol_at::<M>(buf, base, frac, sps, k, None, Some(t[k]));
    }
    if t.len() < s.len() {
        let k = t.len() as int;
        assert(symbol_at::<M>(buf, base, frac, sps, k, Some(s[k])));
        lemma_one_symbol_at::<M>(buf, base, frac, sps, k, None, Some(s[k]));
    }
    assert(s =~= t);
}

/// A symbol has one bit.
proof fn lemma_one_bit<M: Arithmetic>(s: M::Symbol, b: u8, c: u8)
    requires
        deterministic::<M>(),
        sliced::<M>(s, b),
        sliced::<M>(s, c),
    ensures
        b == c,
{
}

/// Symbols have one reading.
pub proof fn lemma_one_demodulation<M: Arithmetic>(
    symbols: Seq<M::Symbol>,
    b: Seq<u8>,
    c: Seq<u8>,
)
    requires
        deterministic::<M>(),
        demodulated::<M>(symbols, b),
        demodulated::<M>(symbols, c),
    ensures
        b == c,
{
    assert forall|i: int| 0 <= i < b.len() implies b[i] == c[i] by {
        assert(sliced::<M>(symbols[i], b[i]) && sliced::<M>(symbols[i], c[i]));
        lemma_one_bit::<M>(symbols[i], b[i], c[i]);
    }
    assert(b =~= c);
}

// ---------------------------------------------------------------------------------------------
// The equalizer
// ---------------------------------------------------------------------------------------------

/// A channel has one estimate.
pub proof fn lemma_one_estimate<M: Arithmetic>(
    received: Seq<M::Symbol>,
    targets: Seq<M::Symbol>,
    c: M::Symbol,
    d: M::Symbol,
)
    requires
        deterministic::<M>(),
        channel_estimate::<M>(received, targets, c),
        channel_estimate::<M>(received, targets, d),
    ensures
        c == d,
{
    let n = if received.len() < targets.len() {
        received.len()
    } else {
        targets.len()
    };
    if n > 0 {
        let step = match_step::<M>(received, targets);
        let (x, p) = choose|sum: M::Symbol, size: M::Real|
            {
                &&& reached(step, n, M::ORIGIN, sum)
                &&& call_ensures(M::count, (n as usize,), size)
                &&& #[trigger] call_ensures(M::share, (sum, size), c)
            };
        let (y, q) = choose|sum: M::Symbol, size: M::Real|
            {
                &&& reached(step, n, M::ORIGIN, sum)
                &&& call_ensures(M::count, (n as usize,), size)
                &&& #[trigger] call_ensures(M::share, (sum, size), d)
            };
        lemma_one_end(step, n, M::ORIGIN, x, y);
    }
}

/// Alignment has one outcome.
proof fn lemma_one_alignment<M: Arithmetic>(
    symbols: Seq<M::Symbol>,
    c: M::Symbol,
    s: Seq<M::Symbol>,
    t: Seq<M::Symbol>,
)
    requires
        deterministic::<M>(),
        aligned::<M>(symbols, c, s),
        aligned::<M>(symbols, c, t),
    ensures
        s == t,
{
    if s.len() == symbols.len() && t.len() == symbols.len() && s != symbols && t != symbols {
        assert forall|i: int| 0 <= i < s.len() implies s[i] == t[i] by {
            assert(call_ensures(M::quotient, (symbols[i], c), s[i]));
            assert(call_ensures(M::quotient, (symbols[i], c), t[i]));
        }
        assert(s =~= t);
    } else {
        let (e, tiny) = choose|e: M::Real, tiny: M::Real| #[trigger]
            call_ensures(M::energy, (c,), e) && #[trigger] call_ensures(
                M::fraction,
                (1, 1_000_000_000_000),
                tiny,
            );
        if !call_ensures(M::below, (e, tiny), true) {
            assert forall|i: int| 0 <= i < s.len() implies s[i] == t[i] by {
                assert(call_ensures(M::quotient, (symbols[i], c), s[i]));
                assert(call_ensures(M::quotient, (symbols[i], c), t[i]));
            }
            assert(s =~= t);
        }
    }
}

/// A symbol has one equalized form.
proof fn lemma_one_equalized_symbol<M: Arithmetic>(
    lesson: Lesson<M>,
    s: DfeState<M>,
    k: int,
    x: M::Symbol,
    y: M::Symbol,
)
    requires
        deterministic::<M>(),
        lesson.equalizes(s, k, x),
        lesson.equalizes(s, k, y),
    ensures
        x == y,
{
    let forward = lesson.forward_step(s.h_ff, k);
    let feedback = lesson.feedback_step(s.h_fb, s.decisions, k);
    let (p, q) = choose|y_ff: M::Symbol, y_fb: M::Symbol|
        {
            &&& reached(forward, s.h_ff.len(), M::ORIGIN, y_ff)
            &&& reached(feedback, s.h_fb.len(), M::ORIGIN, y_fb)
            &&& #[trigger] call_ensures(M::difference, (y_ff, y_fb), x)
        };
    let (u, v) = choose|y_ff: M::Symbol, y_fb: M::Symbol|
        {
            &&& reached(forward, s.h_ff.len(), M::ORIGIN, y_ff)
            &&& reached(feedback, s.h_fb.len(), M::ORIGIN, y_fb)
            &&& #[trigger] call_ensures(M::difference, (y_ff, y_fb), y)
        };
    lemma_one_end(forward, s.h_ff.len(), M::ORIGIN, p, u);
    lemma_one_end(feedback, s.h_fb.len(), M::ORIGIN, q, v);
}

/// A symbol takes an equalizer to one state.
#[verifier::rlimit(30)]
proof fn lemma_one_advance<M: Arithmetic>(
    lesson: Lesson<M>,
    k: int,
    a: DfeState<M>,
    b: DfeState<M>,
    c: DfeState<M>,
)
    requires
        deterministic::<M>(),
        lesson.advances(k, a, b),
        lesson.advances(k, a, c),
    ensures
        b == c,
{
    let (y, z) = (b.equalized.last(), c.equalized.last());
    let (d, g) = (b.decisions.last(), c.decisions.last());
    lemma_one_equalized_symbol::<M>(lesson, a, k, y, z);
    let p = choose|p: u8| #[trigger] sliced::<M>(y, p) && d == crate::bpsk::symbol_of::<M>(p);
    let q = choose|p: u8| #[trigger] sliced::<M>(z, p) && g == crate::bpsk::symbol_of::<M>(p);
    lemma_one_bit::<M>(y, p, q);
    let e = choose|error: M::Symbol|
        {
            &&& #[trigger] lesson.misses(k, y, d, error)
            &&& lesson.forward_learned(a.h_ff, error, k, b.h_ff)
            &&& lesson.feedback_learned(a.h_fb, a.decisions, error, k, b.h_fb)
        };
    let f = choose|error: M::Symbol|
        {
            &&& #[trigger] lesson.misses(k, z, g, error)
            &&& lesson.forward_learned(a.h_ff, error, k, c.h_ff)
            &&& lesson.feedback_learned(a.h_fb, a.decisions, error, k, c.h_fb)
        };
    assert(e == f);
    assert forall|j: int| 0 <= j < a.h_ff.len() implies b.h_ff[j] == c.h_ff[j] by {
        assert(lesson.forward_tap(a.h_ff, e, k, j, b.h_ff[j]));
        assert(lesson.forward_tap(a.h_ff, e, k, j, c.h_ff[j]));
    }
    assert forall|j: int| 0 <= j < a.h_fb.len() implies b.h_fb[j] == c.h_fb[j] by {
        assert(lesson.feedback_tap(a.h_fb, a.decisions, e, k, j, b.h_fb[j]));
        assert(lesson.feedback_tap(a.h_fb, a.decisions, e, k, j, c.h_fb[j]));
    }
    assert(b.h_ff =~= c.h_ff);
    assert(b.h_fb =~= c.h_fb);
}

/// Equalizing has one outcome: the same symbols and the same filters.
pub proof fn law_equalizing_has_one_outcome<M: Arithmetic>(
    dfe: Dfe<M>,
    same: Dfe<M>,
    input: Seq<M::Symbol>,
    targets: Seq<M::Symbol>,
    n_training: int,
    b: Dfe<M>,
    c: Dfe<M>,
    s: Seq<M::Symbol>,
    t: Seq<M::Symbol>,
)
    requires
        deterministic::<M>(),
        dfe.h_ff@ == same.h_ff@,
        dfe.h_fb@ == same.h_fb@,
        dfe.mu == same.mu,
        dfe.processed(input, targets, n_training, b, s),
        same.processed(input, targets, n_training, c, t),
    ensures
        s == t,
        b.h_ff@ == c.h_ff@,
        b.h_fb@ == c.h_fb@,
        b.mu == c.mu,
{
    let d1 = choose|decisions: Seq<M::Symbol>|
        #[trigger] dfe.trained(input, targets, n_training, b, s, decisions);
    let d2 = choose|decisions: Seq<M::Symbol>|
        #[trigger] same.trained(input, targets, n_training, c, t, decisions);
    let lesson = dfe.lesson(input, targets, n_training);
    assert(lesson == same.lesson(input, targets, n_training));
    assert(dfe.fresh() == same.fresh());
    let step = lesson.step();
    assert forall|k: int, x: DfeState<M>, y: DfeState<M>, z: DfeState<M>|
        0 <= k < input.len() && #[trigger] step(k, x, y) && #[trigger] step(k, x, z) implies y
        == z by {
        lemma_one_advance::<M>(lesson, k, x, y, z);
    }
    lemma_one_end(
        step,
        input.len(),
        dfe.fresh(),
        DfeState { h_ff: b.h_ff@, h_fb: b.h_fb@, equalized: s, decisions: d1 },
        DfeState { h_ff: c.h_ff@, h_fb: c.h_fb@, equalized: t, decisions: d2 },
    );
}

/// Taking the channel out has one outcome.
proof fn lemma_one_equalization<M: Arithmetic>(
    raw: Seq<M::Symbol>,
    s: Seq<M::Symbol>,
    t: Seq<M::Symbol>,
)
    requires
        deterministic::<M>(),
        equalized::<M>(raw, s),
        equalized::<M>(raw, t),
    ensures
        s == t,
{
    let (c1, x1, d1, a1) = choose|
        c: M::Symbol,
        straight: Seq<M::Symbol>,
        dfe: Dfe<M>,
        after: Dfe<M>,
    |
        #[trigger] equalized_from::<M>(raw, c, straight, dfe, after, s);
    let (c2, x2, d2, a2) = choose|
        c: M::Symbol,
        straight: Seq<M::Symbol>,
        dfe: Dfe<M>,
        after: Dfe<M>,
    |
        #[trigger] equalized_from::<M>(raw, c, straight, dfe, after, t);
    lemma_one_estimate::<M>(
        raw.subrange(0, head_len(raw.len())),
        training::<M>().subrange(0, head_len(raw.len())),
        c1,
        c2,
    );
    lemma_one_alignment::<M>(raw, c1, x1, x2);
    assert(d1.mu == d2.mu);
    law_equalizing_has_one_outcome::<M>(d1, d2, x1, training::<M>(), 128, a1, a2, s, t);
}

// ---------------------------------------------------------------------------------------------
// The receiver
// ---------------------------------------------------------------------------------------------

/// Two attempts came to the same result: the same payload or the same error.
pub open spec fn same_result(
    r: Result<Vec<u8>, DecodeError>,
    q: Result<Vec<u8>, DecodeError>,
) -> bool {
    match (r, q) {
        (Ok(a), Ok(b)) => a@ == b@,
        (Err(e), Err(f)) => e == f,
        _ => false,
    }
}

/// Two traces tell the same.
pub open spec fn same_trace<M: Arithmetic>(t: DecodeTrace<M>, u: DecodeTrace<M>) -> bool {
    &&& t.chirp_peak_ratio == u.chirp_peak_ratio
    &&& t.chirp_sub_sample == u.chirp_sub_sample
    &&& t.best_phase_offset == u.best_phase_offset
    &&& t.symbols@ == u.symbols@
    &&& t.pre_eq_symbols@ == u.pre_eq_symbols@
}

/// The matched filter has one outcome.
proof fn lemma_one_filtered<M: Arithmetic>(
    cfg: Config<M>,
    passband: Seq<M::Real>,
    one: (M::Real, Seq<M::Symbol>, Seq<M::Real>, Seq<M::Symbol>),
    two: (M::Real, Seq<M::Symbol>, Seq<M::Real>, Seq<M::Symbol>),
)
    requires
        deterministic::<M>(),
        matched::<M>(cfg, passband, one.0, one.1, one.2, one.3),
        matched::<M>(cfg, passband, two.0, two.1, two.2, two.3),
    ensures
        one.3 == two.3,
{
    lemma_one_baseband::<M>(passband, cfg.carrier_hz, one.0, one.1, two.1);
    lemma_one_filter::<M>(
        cfg.samples_per_symbol() as usize,
        cfg.rrc_span_symbols,
        cfg.rrc_beta,
        one.2,
        two.2,
    );
    lemma_one_convolution::<M>(one.1, one.2, one.3, two.3);
}

/// A filtered signal has one reading.
proof fn lemma_one_understanding<M: Arithmetic>(
    cfg: Config<M>,
    filtered: Seq<M::Symbol>,
    frac: M::Real,
    r: Result<Vec<u8>, DecodeError>,
    t: DecodeTrace<M>,
    q: Result<Vec<u8>, DecodeError>,
    u: DecodeTrace<M>,
)
    requires
        deterministic::<M>(),
        understood::<M>(cfg, filtered, frac, r, t),
        understood::<M>(cfg, filtered, frac, q, u),
    ensures
        same_result(r, q),
        t.best_phase_offset == u.best_phase_offset,
        t.symbols@ == u.symbols@,
        t.pre_eq_symbols@ == u.pre_eq_symbols@,
{
    let sps = cfg.samples_per_symbol();
    let delay = sps * cfg.rrc_span_symbols as nat;
    let n = nominal_symbols(filtered.len(), delay, sps);
    lemma_one_phase::<M>(
        filtered,
        delay as int,
        sps as int / 2,
        frac,
        sps as int,
        n,
        t.best_phase_offset as int,
        u.best_phase_offset as int,
    );
    lemma_one_sampling::<M>(
        filtered,
        delay + t.best_phase_offset,
        frac,
        sps as int,
        n,
        t.pre_eq_symbols@,
        u.pre_eq_symbols@,
    );
    lemma_one_equalization::<M>(t.pre_eq_symbols@, t.symbols@, u.symbols@);
    let b = choose|bits: Seq<u8>|
        #[trigger] demodulated::<M>(t.symbols@, bits) && tells(r, bits);
    let c = choose|bits: Seq<u8>|
        #[trigger] demodulated::<M>(u.symbols@, bits) && tells(q, bits);
    lemma_one_demodulation::<M>(t.symbols@, b, c);
}

/// Data has one reading.
proof fn lemma_one_hearing<M: Arithmetic>(
    cfg: Config<M>,
    passband: Seq<M::Real>,
    frac: M::Real,
    r: Result<Vec<u8>, DecodeError>,
    t: DecodeTrace<M>,
    q: Result<Vec<u8>, DecodeError>,
    u: DecodeTrace<M>,
)
    requires
        deterministic::<M>(),
        heard::<M>(cfg, passband, frac, r, t),
        heard::<M>(cfg, passband, frac, q, u),
    ensures
        same_result(r, q),
        t.best_phase_offset == u.best_phase_offset,
        t.symbols@ == u.symbols@,
        t.pre_eq_symbols@ == u.pre_eq_symbols@,
{
    let (f1, b1, h1, y1) = choose|
        fs: M::Real,
        baseband: Seq<M::Symbol>,
        taps: Seq<M::Real>,
        filtered: Seq<M::Symbol>,
    |
        #[trigger] matched::<M>(cfg, passband, fs, baseband, taps, filtered) && understood::<M>(
            cfg,
            filtered,
            frac,
            r,
            t,
        );
    let (f2, b2, h2, y2) = choose|
        fs: M::Real,
        baseband: Seq<M::Symbol>,
        taps: Seq<M::Real>,
        filtered: Seq<M::Symbol>,
    |
        #[trigger] matched::<M>(cfg, passband, fs, baseband, taps, filtered) && understood::<M>(
            cfg,
            filtered,
            frac,
            q,
            u,
        );
    lemma_one_filtered::<M>(cfg, passband, (f1, b1, h1, y1), (f2, b2, h2, y2));
    lemma_one_understanding::<M>(cfg, y1, frac, r, t, q, u);
}

/// What follows a chirp has one reading.
#[verifier::rlimit(30)]
proof fn lemma_one_following<M: Arithmetic>(
    cfg: Config<M>,
    samples: Seq<M::Real>,
    chirp_len: nat,
    hit: ChirpHit<M>,
    r: Result<Vec<u8>, DecodeError>,
    t: DecodeTrace<M>,
    q: Result<Vec<u8>, DecodeError>,
    u: DecodeTrace<M>,
)
    requires
        deterministic::<M>(),
        followed::<M>(cfg, samples, chirp_len, hit, r, t),
        followed::<M>(cfg, samples, chirp_len, hit, q, u),
    ensures
        same_result(r, q),
        t.best_phase_offset == u.best_phase_offset,
        t.symbols@ == u.symbols@,
        t.pre_eq_symbols@ == u.pre_eq_symbols@,
{
    let sps = cfg.samples_per_symbol();
    let (x, start) = choose|at: M::Real, start: usize|
        {
            &&& data_position::<M>(hit, chirp_len, sps, at)
            &&& #[trigger] call_ensures(M::floor, (at,), start)
            &&& leads_on::<M>(cfg, samples, at, start, r, t)
        };
    let (y, other) = choose|at: M::Real, start: usize|
        {
            &&& data_position::<M>(hit, chirp_len, sps, at)
            &&& #[trigger] call_ensures(M::floor, (at,), start)
            &&& leads_on::<M>(cfg, samples, at, start, q, u)
        };
    lemma_one_position::<M>(hit, chirp_len, sps, x, y);
    if start < samples.len() {
        let passband = samples.subrange(start as int, samples.len() as int);
        let (w1, frac1) = choose|whole: M::Real, frac: M::Real|
            {
                &&& call_ensures(M::count, (start,), whole)
                &&& #[trigger] call_ensures(M::minus, (x, whole), frac)
                &&& heard::<M>(cfg, passband, frac, r, t)
            };
        let (w2, frac2) = choose|whole: M::Real, frac: M::Real|
            {
                &&& call_ensures(M::count, (start,), whole)
                &&& #[trigger] call_ensures(M::minus, (x, whole), frac)
                &&& heard::<M>(cfg, passband, frac, q, u)
            };
        assert(w1 == w2 && frac1 == frac2);
        lemma_one_hearing::<M>(cfg, passband, frac1, r, t, q, u);
    }
}

/// Data begins at one place.
proof fn lemma_one_position<M: Arithmetic>(
    hit: ChirpHit<M>,
    chirp_len: nat,
    sps: nat,
    x: M::Real,
    y: M::Real,
)
    requires
        deterministic::<M>(),
        data_position::<M>(hit, chirp_len, sps, x),
        data_position::<M>(hit, chirp_len, sps, y),
    ensures
        x == y,
{
}

/// Decoding has one outcome: over a number system with deterministic operations, two attempts on
/// the same samples come to the same result, and their traces tell the same.
#[verifier::rlimit(30)]
pub proof fn law_decoding_has_one_outcome<M: Arithmetic>(
    cfg: Config<M>,
    samples: Seq<M::Real>,
    r: Result<Vec<u8>, DecodeError>,
    t: DecodeTrace<M>,
    q: Result<Vec<u8>, DecodeError>,
    u: DecodeTrace<M>,
)
    requires
        deterministic::<M>(),
        received::<M>(cfg, samples, r, t),
        received::<M>(cfg, samples, q, u),
    ensures
        same_result(r, q),
        same_trace::<M>(t, u),
{
    let (c1, h1) = choose|preamble: Seq<M::Real>, hit: Option<ChirpHit<M>>|
        {
            &&& is_chirp::<M>(cfg, preamble)
            &&& found::<M>(samples, preamble, M::ZERO, hit)
            &&& #[trigger] attempted::<M>(cfg, samples, preamble, hit, r, t)
        };
    let (c2, h2) = choose|preamble: Seq<M::Real>, hit: Option<ChirpHit<M>>|
        {
            &&& is_chirp::<M>(cfg, preamble)
            &&& found::<M>(samples, preamble, M::ZERO, hit)
            &&& #[trigger] attempted::<M>(cfg, samples, preamble, hit, q, u)
        };
    lemma_one_chirp::<M>(cfg, c1, c2);
    lemma_one_hit::<M>(samples, c1, M::ZERO, h1, h2);
    if let Some(h) = h1 {
        assert(peak_ratio::<M>(h, t.chirp_peak_ratio));
        assert(peak_ratio::<M>(h, u.chirp_peak_ratio));
        assert(t.chirp_peak_ratio == u.chirp_peak_ratio);
        if followed::<M>(cfg, samples, c1.len(), h, r, t) && followed::<M>(
            cfg,
            samples,
            c1.len(),
            h,
            q,
            u,
        ) {
            lemma_one_following::<M>(cfg, samples, c1.len(), h, r, t, q, u);
        }
    }
}

// ---------------------------------------------------------------------------------------------
// The transmitter and the spectrogram
// ---------------------------------------------------------------------------------------------

/// Levelling has one outcome.
proof fn lemma_one_level<M: Arithmetic>(
    x: Seq<M::Real>,
    target: M::Real,
    y: Seq<M::Real>,
    z: Seq<M::Real>,
)
    requires
        deterministic::<M>(),
        levelled::<M>(x, target, y),
        levelled::<M>(x, target, z),
    ensures
        y == z,
{
    let p = choose|peak: M::Real| #[trigger] levelled_by::<M>(x, target, peak, y);
    let q = choose|peak: M::Real| #[trigger] levelled_by::<M>(x, target, peak, z);
    lemma_one_end(loudest_step::<M>(x), x.len(), M::ZERO, p, q);
    if call_ensures(M::exceeds, (p, M::ZERO), true) {
        let u = choose|scale: M::Real|
            {
                &&& #[trigger] call_ensures(M::over, (target, p), scale)
                &&& y.len() == x.len()
                &&& forall|i: int|
                    0 <= i < x.len() ==> call_ensures(M::times, (x[i], scale), #[trigger] y[i])
            };
        let v = choose|scale: M::Real|
            {
                &&& #[trigger] call_ensures(M::over, (target, p), scale)
                &&& z.len() == x.len()
                &&& forall|i: int|
                    0 <= i < x.len() ==> call_ensures(M::times, (x[i], scale), #[trigger] z[i])
            };
        assert(u == v);
        assert forall|i: int| 0 <= i < x.len() implies y[i] == z[i] by {
            assert(call_ensures(M::times, (x[i], u), y[i]));
            assert(call_ensures(M::times, (x[i], u), z[i]));
        }
        assert(y =~= z);
    }
}

/// Encoding has one outcome: over a number system with deterministic operations there is one
/// waveform for a payload.
pub proof fn law_encoding_has_one_outcome<M: Arithmetic>(
    payload: Seq<u8>,
    cfg: Config<M>,
    y: Seq<M::Real>,
    z: Seq<M::Real>,
)
    requires
        deterministic::<M>(),
        transmission::<M>(payload, cfg, y),
        transmission::<M>(payload, cfg, z),
    ensures
        y == z,
{
    let (c1, p1, t1) = choose|
        preamble: Seq<M::Real>,
        passband: Seq<M::Real>,
        target: M::Real,
    |
        {
            &&& is_chirp::<M>(cfg, preamble)
            &&& carries::<M>(payload, cfg, passband)
            &&& call_ensures(M::fraction, (9, 10), target)
            &&& #[trigger] levelled::<M>(preamble + gap::<M>(cfg) + passband, target, y)
        };
    let (c2, p2, t2) = choose|
        preamble: Seq<M::Real>,
        passband: Seq<M::Real>,
        target: M::Real,
    |
        {
            &&& is_chirp::<M>(cfg, preamble)
            &&& carries::<M>(payload, cfg, passband)
            &&& call_ensures(M::fraction, (9, 10), target)
            &&& #[trigger] levelled::<M>(preamble + gap::<M>(cfg) + passband, target, z)
        };
    lemma_one_chirp::<M>(cfg, c1, c2);
    lemma_one_carrier::<M>(payload, cfg, p1, p2);
    lemma_one_level::<M>(c1 + gap::<M>(cfg) + p1, t1, y, z);
}

/// A payload has one signal on the carrier.
proof fn lemma_one_carrier<M: Arithmetic>(
    payload: Seq<u8>,
    cfg: Config<M>,
    p: Seq<M::Real>,
    q: Seq<M::Real>,
)
    requires
        deterministic::<M>(),
        carries::<M>(payload, cfg, p),
        carries::<M>(payload, cfg, q),
    ensures
        p == q,
{
    let sps = cfg.samples_per_symbol();
    let symbols = crate::bpsk::modulated::<M>(crate::tx::sent_bits::<M>(payload, cfg));
    let (h1, b1, f1) = choose|taps: Seq<M::Real>, baseband: Seq<M::Symbol>, fs: M::Real|
        {
            &&& rrc_filter::<M>(sps as usize, cfg.rrc_span_symbols, cfg.rrc_beta, taps)
            &&& #[trigger] pulse_train::<M>(symbols, sps as int, taps, baseband)
            &&& call_ensures(M::count, (cfg.sample_rate as usize,), fs)
            &&& #[trigger] raised::<M>(baseband, cfg.carrier_hz, fs, p)
        };
    let (h2, b2, f2) = choose|taps: Seq<M::Real>, baseband: Seq<M::Symbol>, fs: M::Real|
        {
            &&& rrc_filter::<M>(sps as usize, cfg.rrc_span_symbols, cfg.rrc_beta, taps)
            &&& #[trigger] pulse_train::<M>(symbols, sps as int, taps, baseband)
            &&& call_ensures(M::count, (cfg.sample_rate as usize,), fs)
            &&& #[trigger] raised::<M>(baseband, cfg.carrier_hz, fs, q)
        };
    lemma_one_filter::<M>(sps as usize, cfg.rrc_span_symbols, cfg.rrc_beta, h1, h2);
    lemma_one_pulse_train::<M>(symbols, sps as int, h1, b1, b2);
    lemma_one_passband::<M>(b1, cfg.carrier_hz, f1, p, q);
}

/// There is one window.
proof fn lemma_one_window<M: Arithmetic>(size: usize, w: Seq<M::Real>, v: Seq<M::Real>)
    requires
        deterministic::<M>(),
        hann::<M>(size, w),
        hann::<M>(size, v),
    ensures
        w == v,
{
    assert forall|i: int| 0 <= i < w.len() implies w[i] == v[i] by {
        let f = hann_value::<M>(i as usize, size);
        assert(f.yields(w[i]) && f.yields(v[i]));
        lemma_one_value::<M>(f, w[i], v[i]);
    }
    assert(w =~= v);
}

/// A frame has one column.
proof fn lemma_one_column<M: Fourier>(
    samples: Seq<M::Real>,
    start: int,
    window: Seq<M::Real>,
    c: Seq<M::Real>,
    d: Seq<M::Real>,
)
    requires
        deterministic::<M>(),
        deterministic_transform::<M>(),
        spectral_column::<M>(samples, start, window, c),
        spectral_column::<M>(samples, start, window, d),
    ensures
        c == d,
{
    let (f, x) = choose|frame: Vec<M::Symbol>, bins: Vec<M::Symbol>|
        windowed::<M>(samples, start, window, frame@) && #[trigger] transformed::<M>(
            frame,
            bins,
            c,
        );
    let (g, y) = choose|frame: Vec<M::Symbol>, bins: Vec<M::Symbol>|
        windowed::<M>(samples, start, window, frame@) && #[trigger] transformed::<M>(
            frame,
            bins,
            d,
        );
    assert forall|i: int| 0 <= i < f@.len() implies f@[i] == g@[i] by {
        assert(weighted::<M>(samples[start + i], window[i], f@[i]));
        assert(weighted::<M>(samples[start + i], window[i], g@[i]));
    }
    assert(f@ =~= g@);
    assert(x@ == y@);
    assert forall|k: int| 0 <= k < c.len() implies c[k] == d[k] by {
        let level = log_magnitude::<M>(x@[k]);
        assert(level.yields(c[k]) && level.yields(d[k]));
        lemma_one_value::<M>(level, c[k], d[k]);
    }
    assert(c =~= d);
}

/// A spectrogram has one outcome.
pub proof fn law_spectrogram_has_one_outcome<M: Fourier>(
    samples: Seq<M::Real>,
    size: usize,
    hop: int,
    c: Seq<Vec<M::Real>>,
    d: Seq<Vec<M::Real>>,
    f: int,
)
    requires
        deterministic::<M>(),
        deterministic_transform::<M>(),
        is_stft::<M>(samples, size, hop, c),
        is_stft::<M>(samples, size, hop, d),
        0 <= f < c.len(),
    ensures
        c.len() == d.len(),
        c[f]@ == d[f]@,
{
    let w = choose|window: Seq<M::Real>|
        #[trigger] hann::<M>(size, window) && short_time_spectrum::<M>(samples, hop, window, c);
    let v = choose|window: Seq<M::Real>|
        #[trigger] hann::<M>(size, window) && short_time_spectrum::<M>(samples, hop, window, d);
    lemma_one_window::<M>(size, w, v);
    assert(spectral_column::<M>(samples, f * hop, w, c[f]@));
    assert(spectral_column::<M>(samples, f * hop, w, d[f]@));
    lemma_one_column::<M>(samples, f * hop, w, c[f]@, d[f]@);
}

} // verus!
