//! Laws of the receiver over exact arithmetic.

use vstd::prelude::*;

use crate::arith::{
    adds_conjugate, adds_product, lemma_reached_keeps, reached, square_step, Arithmetic,
};
use crate::bpsk::{modulated, sliced};
use crate::chirp::{
    contest_step, correlates, curvature, first_peak, found, overlap_step, sliding_scores, verdict,
    vertex, ChirpHit,
};
use crate::equalizer::{channel_estimate, match_step, mean_match};
use crate::exact::{
    abs, lemma_associates, lemma_below, lemma_clamped, lemma_commutes, lemma_divides,
    lemma_sum_of_squares, lemma_total_grows, lemma_total_reached, lemma_value, squares, total,
    Exact,
};
use crate::formula::{tells_below, Formula};
use crate::rx::{
    aligned, best_phase, between, data_position, energy_step, interpolated, peak_ratio, phase_step,
    position, symbol_at, symbol_energy,
};
use crate::tx::{levelled, levelled_by, loudest_step, POST_CHIRP_GAP_SYMBOLS};

verus! {

// ---------------------------------------------------------------------------------------------
// Finding the chirp
// ---------------------------------------------------------------------------------------------

/// The products of the chirp with the signal from sample `at` on.
pub open spec fn overlaps<M: Arithmetic>(
    v: Exact<M>,
    signal: Seq<M::Real>,
    chirp: Seq<M::Real>,
    at: int,
) -> spec_fn(int) -> real {
    |j: int| v.of(signal[at + j]) * v.of(chirp[j])
}

/// How much the signal from sample `at` on looks like the chirp, whatever its sign.
pub open spec fn likeness<M: Arithmetic>(
    v: Exact<M>,
    signal: Seq<M::Real>,
    chirp: Seq<M::Real>,
    at: int,
) -> real {
    abs(total(chirp.len(), overlaps::<M>(v, signal, chirp, at)))
}

proof fn lemma_correlates<M: Arithmetic>(
    v: Exact<M>,
    signal: Seq<M::Real>,
    chirp: Seq<M::Real>,
    at: int,
    score: M::Real,
)
    requires
        v.holds(),
        correlates::<M>(signal, chirp, at, score),
    ensures
        v.of(score) == likeness::<M>(v, signal, chirp, at),
{
    let step = overlap_step::<M>(signal, chirp, at);
    let f = overlaps::<M>(v, signal, chirp, at);
    let sum = choose|sum: M::Real|
        #[trigger] call_ensures(M::magnitude, (sum,), score) && reached(
            step,
            chirp.len(),
            M::ZERO,
            sum,
        );
    assert forall|j: int, a: M::Real, b: M::Real|
        0 <= j < chirp.len() && #[trigger] step(j, a, b) implies (v.real)(b) == (v.real)(a) + f(
        j,
    ) by {
        assert(adds_product::<M>(a, signal[at + j], chirp[j], b));
    }
    lemma_total_reached(step, chirp.len(), M::ZERO, sum, v.real, f);
}

proof fn lemma_first_peak<M: Arithmetic>(
    v: Exact<M>,
    scores: Seq<M::Real>,
    best: (int, M::Real),
)
    requires
        v.holds(),
        scores.len() > 0,
        forall|i: int| 0 <= i < scores.len() ==> v.of(#[trigger] scores[i]) >= 0real,
        first_peak::<M>(scores, best),
    ensures
        0 <= best.0 < scores.len(),
        v.of(best.1) == v.of(scores[best.0]),
        forall|i: int| 0 <= i < scores.len() ==> v.of(#[trigger] scores[i]) <= v.of(best.1),
        forall|i: int| 0 <= i < best.0 ==> v.of(#[trigger] scores[i]) < v.of(best.1),
{
    let step = contest_step::<M>(scores);
    let keeps = |n: int, a: (int, M::Real)|
        {
            &&& 0 <= n <= scores.len()
            &&& v.of(a.1) >= 0real
            &&& 0 <= a.0
            &&& n == 0 ==> a.0 == 0 && v.of(a.1) == 0real
            &&& n > 0 ==> a.0 < n && v.of(a.1) == v.of(scores[a.0])
            &&& forall|i: int| 0 <= i < n ==> v.of(#[trigger] scores[i]) <= v.of(a.1)
            &&& forall|i: int| 0 <= i < a.0 ==> v.of(#[trigger] scores[i]) < v.of(a.1)
        };
    assert forall|n: int, a: (int, M::Real), b: (int, M::Real)|
        0 <= n < scores.len() && #[trigger] keeps(n, a) && #[trigger] step(n, a, b) implies keeps(
        n + 1,
        b,
    ) by {
        assert(v.of(scores[n]) >= 0real);
    }
    lemma_reached_keeps(step, scores.len(), (0int, M::ZERO), best, keeps);
}

/// `x` is where the parabola through `before`, `peak` and `after`, at -1, 0 and 1, has its top,
/// unless that is more than half a sample away; a parabola without a top is not used.
pub open spec fn is_top(before: real, peak: real, after: real, x: real) -> bool {
    let bend = before - 2real * peak + after;
    if bend >= 0real {
        x == 0real
    } else {
        &&& -1real <= 2real * x <= 1real
        &&& -1real < 2real * x < 1real ==> bend * x == (before - after) / 2real
        &&& 2real * x == 1real ==> before - after <= bend
        &&& 2real * x == -1real ==> before - after >= -bend
    }
}

/// The detector finds the place where the signal is most like the chirp, the first of several
/// equal ones, if the likeness there exceeds the given part of the chirp's energy; otherwise no
/// place exceeds it. The place is refined by a parabola through its likeness and that of its
/// neighbours, if it has two.
pub proof fn law_detector_finds_the_most_alike_place<M: Arithmetic>(
    v: Exact<M>,
    signal: Seq<M::Real>,
    chirp: Seq<M::Real>,
    threshold_ratio: M::Real,
    hit: Option<ChirpHit<M>>,
)
    requires
        v.holds(),
        chirp.len() <= signal.len(),
        found::<M>(signal, chirp, threshold_ratio, hit),
    ensures
        ({
            let last = signal.len() - chirp.len();
            let energy = total(chirp.len(), squares::<M>(v, chirp));
            let needed = energy * v.of(threshold_ratio);
            match hit {
                Some(h) => {
                    &&& 0 <= h.start <= last
                    &&& v.of(h.peak_correlation) == likeness::<M>(
                        v,
                        signal,
                        chirp,
                        h.start as int,
                    )
                    &&& forall|i: int|
                        0 <= i <= last ==> #[trigger] likeness::<M>(v, signal, chirp, i) <= v.of(
                            h.peak_correlation,
                        )
                    &&& forall|i: int|
                        0 <= i < h.start ==> #[trigger] likeness::<M>(v, signal, chirp, i) < v.of(
                            h.peak_correlation,
                        )
                    &&& v.of(h.self_energy) == energy
                    &&& v.of(h.peak_correlation) > needed
                    &&& if 0 < h.start < last {
                        is_top(
                            likeness::<M>(v, signal, chirp, h.start - 1),
                            v.of(h.peak_correlation),
                            likeness::<M>(v, signal, chirp, h.start + 1),
                            v.of(h.sub_sample),
                        )
                    } else {
                        v.of(h.sub_sample) == 0real
                    }
                },
                None => forall|i: int|
                    0 <= i <= last ==> #[trigger] likeness::<M>(v, signal, chirp, i) <= needed,
            }
        }),
{
    let (scores, best, energy, threshold) = choose|
        scores: Seq<M::Real>,
        best: (int, M::Real),
        energy: M::Real,
        threshold: M::Real,
    |
        {
            &&& sliding_scores::<M>(signal, chirp, scores)
            &&& first_peak::<M>(scores, best)
            &&& reached(square_step::<M>(chirp), chirp.len(), M::ZERO, energy)
            &&& call_ensures(M::times, (energy, threshold_ratio), threshold)
            &&& #[trigger] verdict::<M>(scores, best, energy, threshold, hit)
        };
    lemma_sum_of_squares::<M>(v, chirp, energy);
    assert forall|i: int| 0 <= i < scores.len() implies v.of(#[trigger] scores[i]) == likeness::<M>(
        v,
        signal,
        chirp,
        i,
    ) by {
        lemma_correlates::<M>(v, signal, chirp, i, scores[i]);
    }
    lemma_first_peak::<M>(v, scores, best);
    assert forall|i: int| 0 <= i < scores.len() implies #[trigger] likeness::<M>(
        v,
        signal,
        chirp,
        i,
    ) <= v.of(best.1) by {
        assert(v.of(scores[i]) <= v.of(best.1));
    }
    assert forall|i: int| 0 <= i < best.0 implies #[trigger] likeness::<M>(v, signal, chirp, i)
        < v.of(best.1) by {
        assert(v.of(scores[i]) < v.of(best.1));
    }
    if hit is Some && 0 < best.0 && best.0 + 1 < scores.len() {
        let (p, q) = (scores[best.0 - 1], scores[best.0 + 1]);
        law_refinement_is_the_top_of_the_parabola::<M>(v, p, best.1, q, hit->0.sub_sample);
    }
}

/// The refinement is where the parabola through three neighbouring scores has its top.
pub proof fn law_refinement_is_the_top_of_the_parabola<M: Arithmetic>(
    v: Exact<M>,
    before: M::Real,
    peak: M::Real,
    after: M::Real,
    shift: M::Real,
)
    requires
        v.holds(),
        vertex::<M>(before, peak, after, shift),
    ensures
        is_top(v.of(before), v.of(peak), v.of(after), v.of(shift)),
{
    let bend = curvature::<M>(before, peak, after);
    let b = v.of(before) - 2real * v.of(peak) + v.of(after);
    assert(v.defined(bend) && v.value(bend) == b) by {
        reveal_with_fuel(Exact::value, 5);
        reveal_with_fuel(Exact::defined, 5);
        assert(2real / 1real == 2real);
    }
    if tells_below::<M>(bend, M::ZERO, false) && shift == M::ZERO {
        lemma_below::<M>(v, bend, M::ZERO, false);
    } else {
        lemma_below::<M>(v, bend, M::ZERO, true);
        let half = Formula::<M>::Fraction(1, 2).times(
            Formula::Given(before).minus(Formula::Given(after)),
        );
        let (x, left, right) = choose|x: M::Real, left: M::Real, right: M::Real|
            {
                &&& half.over(bend).yields(x)
                &&& Formula::<M>::Fraction(1, 2).negated().yields(left)
                &&& call_ensures(M::fraction, (1, 2), right)
                &&& #[trigger] crate::arith::clamped::<M>(x, left, right, shift)
            };
        let d = v.of(before) - v.of(after);
        assert(v.defined(half) && v.value(half) == 1real / 2real * d) by {
            reveal_with_fuel(Exact::value, 4);
            reveal_with_fuel(Exact::defined, 4);
        }
        assert(v.of(left) == -(1real / 2real)) by {
            reveal_with_fuel(Exact::value, 3);
            reveal_with_fuel(Exact::defined, 3);
            lemma_value::<M>(v, Formula::<M>::Fraction(1, 2).negated(), left);
        }
        assert(v.of(x) == 1real / 2real * d / b) by {
            lemma_value::<M>(v, half.over(bend), x);
        }
        lemma_clamped::<M>(v, x, left, right, shift);
        lemma_divides(1real / 2real * d, b);
        lemma_commutes(b, v.of(x));
        if v.of(x) >= 1real / 2real {
            lemma_half_of_negative(v.of(x), b);
        }
        if v.of(x) <= -(1real / 2real) {
            lemma_half_of_negative(-v.of(x), b);
            lemma_negated_factor(v.of(x), b);
        }
    }
}

proof fn lemma_negated_factor(x: real, y: real)
    by (nonlinear_arith)
    ensures
        (-x) * y == -(x * y),
{
}

proof fn lemma_half_of_negative(x: real, b: real)
    by (nonlinear_arith)
    requires
        b < 0real,
        2real * x >= 1real,
    ensures
        2real * (x * b) <= b,
{
}

/// What the lock is judged by is the likeness as a part of the chirp's energy.
pub proof fn law_peak_ratio_is_likeness_by_energy<M: Arithmetic>(
    v: Exact<M>,
    hit: ChirpHit<M>,
    ratio: M::Real,
)
    requires
        v.holds(),
        peak_ratio::<M>(hit, ratio),
    ensures
        v.of(hit.self_energy) > 0real ==> v.of(ratio) * v.of(hit.self_energy) == v.of(
            hit.peak_correlation,
        ),
        v.of(hit.self_energy) <= 0real ==> v.of(ratio) == 0real,
{
    if v.of(hit.self_energy) > 0real {
        lemma_divides(v.of(hit.peak_correlation), v.of(hit.self_energy));
    }
}

/// The data starts one chirp and one gap after the refined start of the chirp.
pub proof fn law_data_starts_after_chirp_and_gap<M: Arithmetic>(
    v: Exact<M>,
    hit: ChirpHit<M>,
    chirp_len: nat,
    sps: nat,
    at: M::Real,
)
    requires
        v.holds(),
        chirp_len <= usize::MAX,
        sps * POST_CHIRP_GAP_SYMBOLS <= usize::MAX,
        data_position::<M>(hit, chirp_len, sps, at),
    ensures
        v.of(at) == (hit.start as real) + v.of(hit.sub_sample) + (chirp_len as real) + ((sps
            * POST_CHIRP_GAP_SYMBOLS) as real),
{
}

// ---------------------------------------------------------------------------------------------
// Levels and signs
// ---------------------------------------------------------------------------------------------

proof fn lemma_loudest<M: Arithmetic>(v: Exact<M>, x: Seq<M::Real>, peak: M::Real)
    requires
        v.holds(),
        reached(loudest_step::<M>(x), x.len(), M::ZERO, peak),
    ensures
        v.of(peak) >= 0real,
        forall|i: int| 0 <= i < x.len() ==> abs(v.of(#[trigger] x[i])) <= v.of(peak),
        v.of(peak) > 0real ==> exists|i: int|
            0 <= i < x.len() && abs(v.of(#[trigger] x[i])) == v.of(peak),
{
    let step = loudest_step::<M>(x);
    let keeps = |n: int, a: M::Real|
        {
            &&& 0 <= n <= x.len()
            &&& v.of(a) >= 0real
            &&& forall|i: int| 0 <= i < n ==> abs(v.of(#[trigger] x[i])) <= v.of(a)
            &&& v.of(a) > 0real ==> exists|i: int|
                0 <= i < n && abs(v.of(#[trigger] x[i])) == v.of(a)
        };
    assert forall|n: int, a: M::Real, b: M::Real|
        0 <= n < x.len() && #[trigger] keeps(n, a) && #[trigger] step(n, a, b) implies keeps(
        n + 1,
        b,
    ) by {
        let m = choose|m: M::Real|
            call_ensures(M::magnitude, (x[n],), m) && #[trigger] call_ensures(M::larger, (a, m), b);
        assert(v.of(m) == abs(v.of(x[n])));
        if v.of(b) > 0real {
            if v.of(a) < v.of(m) {
                assert(0 <= n < n + 1 && abs(v.of(x[n])) == v.of(b));
            } else {
                let i = choose|i: int| 0 <= i < n && abs(v.of(#[trigger] x[i])) == v.of(a);
                assert(0 <= i < n + 1 && abs(v.of(x[i])) == v.of(b));
            }
        }
    }
    lemma_reached_keeps(step, x.len(), M::ZERO, peak, keeps);
}

proof fn lemma_grows_along(x: real, y: real, q: real)
    by (nonlinear_arith)
    requires
        x <= y,
        q >= 0real,
    ensures
        x * q <= y * q,
{
}

proof fn lemma_quotient_is_positive(x: real, y: real)
    by (nonlinear_arith)
    requires
        x >= 0real,
        y > 0real,
    ensures
        x / y >= 0real,
{
}

proof fn lemma_share_of_peak(x: real, target: real, peak: real)
    requires
        peak > 0real,
        target >= 0real,
        -peak <= x <= peak,
    ensures
        x * (target / peak) * peak == x * target,
        -target <= x * (target / peak) <= target,
        x == peak ==> x * (target / peak) == target,
        x == -peak ==> x * (target / peak) == -target,
{
    let q = target / peak;
    lemma_divides(target, peak);
    lemma_quotient_is_positive(target, peak);
    lemma_associates(x, q, peak);
    lemma_commutes(peak, q);
    lemma_negated_factor(peak, q);
    lemma_grows_along(x, peak, q);
    lemma_grows_along(-peak, x, q);
}

/// Levelling keeps the shape of a signal and brings its loudest sample to `target`; silence stays
/// as it is.
pub proof fn law_levelling_brings_the_peak_to_its_target<M: Arithmetic>(
    v: Exact<M>,
    x: Seq<M::Real>,
    target: M::Real,
    out: Seq<M::Real>,
)
    requires
        v.holds(),
        v.of(target) >= 0real,
        levelled::<M>(x, target, out),
    ensures
        out.len() == x.len(),
        (forall|i: int| 0 <= i < x.len() ==> v.of(#[trigger] x[i]) == 0real) ==> out == x,
        (exists|i: int| 0 <= i < x.len() && v.of(#[trigger] x[i]) != 0real) ==> {
            &&& forall|i: int| 0 <= i < x.len() ==> abs(v.of(#[trigger] out[i])) <= v.of(target)
            &&& exists|i: int| 0 <= i < x.len() && abs(v.of(#[trigger] out[i])) == v.of(target)
            &&& exists|p: int|
                0 <= p < x.len() && (forall|i: int|
                    0 <= i < x.len() ==> abs(v.of(#[trigger] x[i])) <= abs(v.of(x[p])) && v.of(
                        out[i],
                    ) * abs(v.of(x[p])) == v.of(x[i]) * v.of(target)) && #[trigger] abs(v.of(x[p]))
                    > 0real
        },
{
    let peak = choose|peak: M::Real| #[trigger] levelled_by::<M>(x, target, peak, out);
    lemma_loudest::<M>(v, x, peak);
    if v.of(peak) > 0real {
        let scale = choose|scale: M::Real|
            {
                &&& #[trigger] call_ensures(M::over, (target, peak), scale)
                &&& out.len() == x.len()
                &&& forall|i: int|
                    0 <= i < x.len() ==> call_ensures(M::times, (x[i], scale), #[trigger] out[i])
            };
        assert(v.of(scale) == v.of(target) / v.of(peak));
        assert forall|i: int| 0 <= i < x.len() implies abs(v.of(#[trigger] out[i])) <= v.of(target)
            && v.of(out[i]) * v.of(peak) == v.of(x[i]) * v.of(target) && abs(v.of(x[i])) <= v.of(
            peak,
        ) && (abs(v.of(x[i])) == v.of(peak) ==> abs(v.of(out[i])) == v.of(target)) by {
            assert(call_ensures(M::times, (x[i], scale), out[i]));
            assert(abs(v.of(x[i])) <= v.of(peak));
            lemma_share_of_peak(v.of(x[i]), v.of(target), v.of(peak));
        }
        let p = choose|p: int| 0 <= p < x.len() && abs(v.of(#[trigger] x[p])) == v.of(peak);
        assert(abs(v.of(out[p])) == v.of(target));
        assert(abs(v.of(x[p])) > 0real);
        assert forall|i: int| 0 <= i < x.len() implies abs(v.of(#[trigger] x[i])) <= abs(
            v.of(x[p]),
        ) && v.of(out[i]) * abs(v.of(x[p])) == v.of(x[i]) * v.of(target) by {
            let y = out[i];
        }
    }
}

/// The slicer reads the sign of the real part: a symbol right of the imaginary axis is a 0.
pub proof fn law_slicer_reads_the_sign<M: Arithmetic>(v: Exact<M>, s: M::Symbol, b: u8)
    requires
        v.holds(),
        sliced::<M>(s, b),
    ensures
        b == if v.re(s) > 0real {
            0u8
        } else {
            1u8
        },
{
}

/// A bit survives every disturbance of its symbol that is smaller than one along the real axis,
/// whatever it is along the imaginary one.
pub proof fn law_bits_survive_small_disturbances<M: Arithmetic>(
    v: Exact<M>,
    bits: Seq<u8>,
    i: int,
    s: M::Symbol,
    b: u8,
)
    requires
        v.holds(),
        0 <= i < bits.len(),
        bits[i] <= 1,
        -1real < v.re(s) - v.re(modulated::<M>(bits)[i]) < 1real,
        sliced::<M>(s, b),
    ensures
        b == bits[i],
{
}

// ---------------------------------------------------------------------------------------------
// The channel
// ---------------------------------------------------------------------------------------------

/// The real parts of received symbol times conjugate target.
pub open spec fn match_re<M: Arithmetic>(
    v: Exact<M>,
    received: Seq<M::Symbol>,
    targets: Seq<M::Symbol>,
) -> spec_fn(int) -> real {
    |i: int| v.re(received[i]) * v.re(targets[i]) + v.im(received[i]) * v.im(targets[i])
}

/// The imaginary parts of received symbol times conjugate target.
pub open spec fn match_im<M: Arithmetic>(
    v: Exact<M>,
    received: Seq<M::Symbol>,
    targets: Seq<M::Symbol>,
) -> spec_fn(int) -> real {
    |i: int| v.im(received[i]) * v.re(targets[i]) - v.re(received[i]) * v.im(targets[i])
}

/// The channel estimate is the mean of received symbol times conjugate target over as many symbols
/// as both have, and 1 without any.
pub proof fn law_channel_estimate_is_a_mean<M: Arithmetic>(
    v: Exact<M>,
    received: Seq<M::Symbol>,
    targets: Seq<M::Symbol>,
    n: nat,
    c: M::Symbol,
)
    requires
        v.holds(),
        n <= received.len(),
        n <= targets.len(),
        n == received.len() || n == targets.len(),
        n <= usize::MAX,
        channel_estimate::<M>(received, targets, c),
    ensures
        n == 0 ==> v.re(c) == 1real && v.im(c) == 0real,
        n > 0 ==> v.re(c) == total(n, match_re::<M>(v, received, targets)) / (n as real),
        n > 0 ==> v.im(c) == total(n, match_im::<M>(v, received, targets)) / (n as real),
{
    if n > 0 {
        assert(mean_match::<M>(received, targets, n, c));
        let step = match_step::<M>(received, targets);
        let (f, g) = (match_re::<M>(v, received, targets), match_im::<M>(v, received, targets));
        let (sum, size) = choose|sum: M::Symbol, size: M::Real|
            {
                &&& reached(step, n, M::ORIGIN, sum)
                &&& call_ensures(M::count, (n as usize,), size)
                &&& #[trigger] call_ensures(M::share, (sum, size), c)
            };
        assert forall|i: int, a: M::Symbol, b: M::Symbol|
            0 <= i < n && #[trigger] step(i, a, b) implies (v.re)(b) == (v.re)(a) + f(i) && (v.im)(
            b,
        ) == (v.im)(a) + g(i) by {
            assert(adds_conjugate::<M>(a, received[i], targets[i], b));
        }
        lemma_total_reached(step, n, M::ORIGIN, sum, v.re, f);
        lemma_total_reached(step, n, M::ORIGIN, sum, v.im, g);
    }
}

proof fn lemma_sign_squared(x: real, t: real)
    by (nonlinear_arith)
    requires
        t == 1real || t == -1real,
    ensures
        x * t * t == x,
{
}

proof fn lemma_times_zero(x: real, z: real)
    by (nonlinear_arith)
    requires
        z == 0real,
    ensures
        x * z == 0real,
{
}

proof fn lemma_count(n: nat, f: spec_fn(int) -> real, w: spec_fn(int) -> real)
    requires
        forall|i: int| 0 <= i < n ==> #[trigger] f(i) == 0real,
        forall|i: int| 0 <= i < n ==> #[trigger] w(i) == 1real,
    ensures
        total(n, f) == 0real,
        total(n, w) == n as real,
    decreases n,
{
    if n > 0 {
        lemma_count((n - 1) as nat, f, w);
        assert(f(n - 1) == 0real && w(n - 1) == 1real);
    }
}

proof fn lemma_mean_of_the_same(n: nat, g: spec_fn(int) -> real, x: real)
    requires
        n > 0,
        forall|i: int| 0 <= i < n ==> #[trigger] g(i) == x,
    ensures
        total(n, g) / (n as real) == x,
{
    let (f, w) = (|i: int| 0real, |i: int| 1real);
    lemma_count(n, f, w);
    lemma_total_grows(n, f, g, w, x);
    lemma_back(x, n as real);
}

proof fn lemma_back(x: real, n: real)
    by (nonlinear_arith)
    requires
        n != 0real,
    ensures
        x * n / n == x,
{
}

/// Where a channel turns and stretches every symbol alike, the estimate is exactly that turn and
/// stretch.
pub proof fn law_channel_estimate_finds_the_channel<M: Arithmetic>(
    v: Exact<M>,
    h: M::Symbol,
    received: Seq<M::Symbol>,
    targets: Seq<M::Symbol>,
    c: M::Symbol,
)
    requires
        v.holds(),
        0 < received.len() <= targets.len(),
        received.len() <= usize::MAX,
        forall|i: int|
            0 <= i < received.len() ==> v.is_product(h, targets[i], #[trigger] received[i]),
        forall|i: int|
            0 <= i < received.len() ==> v.im(#[trigger] targets[i]) == 0real && (v.re(targets[i])
                == 1real || v.re(targets[i]) == -1real),
        channel_estimate::<M>(received, targets, c),
    ensures
        v.re(c) == v.re(h),
        v.im(c) == v.im(h),
{
    let n = received.len();
    law_channel_estimate_is_a_mean::<M>(v, received, targets, n, c);
    let (f, g) = (match_re::<M>(v, received, targets), match_im::<M>(v, received, targets));
    assert forall|i: int| 0 <= i < n implies #[trigger] f(i) == v.re(h) && g(i) == v.im(h) by {
        let (r, t) = (received[i], targets[i]);
        assert(v.is_product(h, t, r));
        lemma_times_zero(v.im(h), v.im(t));
        lemma_times_zero(v.re(h), v.im(t));
        lemma_times_zero(v.re(r), v.im(t));
        lemma_times_zero(v.im(r), v.im(t));
        lemma_sign_squared(v.re(h), v.re(t));
        lemma_sign_squared(v.im(h), v.re(t));
    }
    lemma_mean_of_the_same(n, f, v.re(h));
    assert forall|i: int| 0 <= i < n implies #[trigger] g(i) == v.im(h) by {
        let y = f(i);
    }
    lemma_mean_of_the_same(n, g, v.im(h));
}

/// Aligning divides every symbol by the estimate, unless the estimate is next to nothing.
pub proof fn law_aligning_divides_by_the_estimate<M: Arithmetic>(
    v: Exact<M>,
    symbols: Seq<M::Symbol>,
    c: M::Symbol,
    out: Seq<M::Symbol>,
)
    requires
        v.holds(),
        aligned::<M>(symbols, c, out),
    ensures
        out.len() == symbols.len(),
        v.norm(c) < 1real / 1_000_000_000_000real ==> out == symbols,
        v.norm(c) >= 1real / 1_000_000_000_000real ==> forall|i: int|
            0 <= i < out.len() ==> v.is_product(#[trigger] out[i], c, symbols[i]),
{
    let (e, tiny) = choose|e: M::Real, tiny: M::Real|
        {
            &&& #[trigger] call_ensures(M::energy, (c,), e)
            &&& #[trigger] call_ensures(M::fraction, (1, 1_000_000_000_000), tiny)
            &&& {
                ||| call_ensures(M::below, (e, tiny), true) && out == symbols
                ||| call_ensures(M::below, (e, tiny), false) && out.len() == symbols.len()
                    && forall|i: int|
                    0 <= i < out.len() ==> call_ensures(
                        M::quotient,
                        (symbols[i], c),
                        #[trigger] out[i],
                    )
            }
        };
    if v.norm(c) >= 1real / 1_000_000_000_000real {
        assert forall|i: int| 0 <= i < out.len() implies v.is_product(
            #[trigger] out[i],
            c,
            symbols[i],
        ) by {
            assert(call_ensures(M::quotient, (symbols[i], c), out[i]));
        }
    }
}

// ---------------------------------------------------------------------------------------------
// Timing
// ---------------------------------------------------------------------------------------------

/// `i` is the integer just below `x`, or `x` itself.
pub open spec fn is_whole(i: int, x: real) -> bool {
    i as real <= x < (i as real) + 1real
}

/// Values in between lie on the line through two neighbouring samples: at `i + f` the value is
/// `(1 - f)` times sample `i` plus `f` times sample `i + 1`, and there is none before the first
/// sample or from the last one on.
pub proof fn law_interpolation_is_linear<M: Arithmetic>(
    v: Exact<M>,
    buf: Seq<M::Symbol>,
    at: M::Real,
    i: int,
    s: Option<M::Symbol>,
)
    requires
        v.holds(),
        is_whole(i, v.of(at)),
        interpolated::<M>(buf, at, s),
    ensures
        s is Some <==> v.of(at) >= 0real && i + 1 < buf.len(),
        s is Some ==> {
            let f = v.of(at) - (i as real);
            &&& v.re(s->0) == v.re(buf[i]) * (1real - f) + v.re(buf[i + 1]) * f
            &&& v.im(s->0) == v.im(buf[i]) * (1real - f) + v.im(buf[i + 1]) * f
        },
{
    if v.of(at) >= 0real {
        let n = choose|n: usize|
            #[trigger] call_ensures(M::floor, (at,), n) && if n + 1 >= buf.len() {
                s is None
            } else {
                s is Some && exists|whole: M::Real, f: M::Real|
                    {
                        &&& call_ensures(M::count, (n,), whole)
                        &&& #[trigger] call_ensures(M::minus, (at, whole), f)
                        &&& between::<M>(buf[n as int], buf[n + 1], f, s.unwrap())
                    }
            };
        assert(n == i);
        if i + 1 < buf.len() {
            let (whole, f) = choose|whole: M::Real, f: M::Real|
                {
                    &&& call_ensures(M::count, (n,), whole)
                    &&& #[trigger] call_ensures(M::minus, (at, whole), f)
                    &&& between::<M>(buf[n as int], buf[n + 1], f, s.unwrap())
                };
            assert(v.of(f) == v.of(at) - (i as real));
        }
    }
}

/// The place where symbol `k` is read: whole symbols from the first one on.
pub open spec fn place<M: Arithmetic>(
    v: Exact<M>,
    base: int,
    frac: M::Real,
    sps: int,
    k: int,
) -> real {
    (base as real) + ((k * sps) as real) + v.of(frac)
}

/// Symbol `k` is read `k` symbols after the first.
pub proof fn law_symbols_are_read_at_their_places<M: Arithmetic>(
    v: Exact<M>,
    buf: Seq<M::Symbol>,
    base: int,
    frac: M::Real,
    sps: int,
    k: int,
    i: int,
    s: Option<M::Symbol>,
)
    requires
        v.holds(),
        i32::MIN <= base <= i32::MAX,
        0 <= k * sps <= usize::MAX,
        is_whole(i, place::<M>(v, base, frac, sps, k)),
        symbol_at::<M>(buf, base, frac, sps, k, s),
    ensures
        s is Some <==> place::<M>(v, base, frac, sps, k) >= 0real && i + 1 < buf.len(),
        s is Some ==> {
            let f = place::<M>(v, base, frac, sps, k) - (i as real);
            &&& v.re(s->0) == v.re(buf[i]) * (1real - f) + v.re(buf[i + 1]) * f
            &&& v.im(s->0) == v.im(buf[i]) * (1real - f) + v.im(buf[i + 1]) * f
        },
{
    let at = choose|at: M::Real|
        #[trigger] position::<M>(base, frac, sps, k, at) && interpolated::<M>(buf, at, s);
    assert(v.of(at) == place::<M>(v, base, frac, sps, k));
    law_interpolation_is_linear::<M>(v, buf, at, i, s);
}

/// The integer just below `x`, or `x` itself.
pub open spec fn whole(x: real) -> int {
    choose|i: int| is_whole(i, x)
}

/// The energy of the signal at `x`, which is zero where there is no signal.
pub open spec fn energy_at<M: Arithmetic>(v: Exact<M>, buf: Seq<M::Symbol>, x: real) -> real {
    let i = whole(x);
    let f = x - (i as real);
    if x < 0real || i + 1 >= buf.len() {
        0real
    } else {
        let re = v.re(buf[i]) * (1real - f) + v.re(buf[i + 1]) * f;
        let im = v.im(buf[i]) * (1real - f) + v.im(buf[i + 1]) * f;
        re * re + im * im
    }
}

/// The energies at the places where the symbols are read.
pub open spec fn symbol_energies<M: Arithmetic>(
    v: Exact<M>,
    buf: Seq<M::Symbol>,
    base: int,
    frac: M::Real,
    sps: int,
) -> spec_fn(int) -> real {
    |k: int| energy_at::<M>(v, buf, place::<M>(v, base, frac, sps, k))
}

/// Every number has an integer just below it: the nearest one or the one before.
proof fn lemma_whole<M: Arithmetic>(v: Exact<M>, x: real)
    requires
        v.holds(),
    ensures
        is_whole(whole(x), x),
{
    let k = (v.round)(x);
    assert(-1real <= 2real * (x - (k as real)) <= 1real);
    if k as real <= x {
        assert(is_whole(k, x));
    } else {
        assert(is_whole(k - 1, x));
    }
}

proof fn lemma_symbol_energy<M: Arithmetic>(
    v: Exact<M>,
    buf: Seq<M::Symbol>,
    base: int,
    frac: M::Real,
    sps: int,
    n: nat,
    m: M::Real,
)
    requires
        v.holds(),
        i32::MIN <= base <= i32::MAX,
        sps >= 0,
        n * sps <= usize::MAX,
        symbol_energy::<M>(buf, base, frac, sps, n, m),
    ensures
        v.of(m) == total(n, symbol_energies::<M>(v, buf, base, frac, sps)),
{
    let step = energy_step::<M>(buf, base, frac, sps);
    let f = symbol_energies::<M>(v, buf, base, frac, sps);
    assert forall|k: int, a: M::Real, b: M::Real|
        0 <= k < n && #[trigger] step(k, a, b) implies (v.real)(b) == (v.real)(a) + f(k) by {
        let s = choose|s: Option<M::Symbol>|
            #[trigger] symbol_at::<M>(buf, base, frac, sps, k, s) && match s {
                Some(w) => exists|e: M::Real|
                    #[trigger] call_ensures(M::energy, (w,), e) && call_ensures(M::plus, (a, e), b),
                None => b == a,
            };
        let x = place::<M>(v, base, frac, sps, k);
        lemma_whole::<M>(v, x);
        assert(0 <= k * sps <= n * sps) by (nonlinear_arith)
            requires
                0 <= k < n,
                sps >= 0,
        ;
        law_symbols_are_read_at_their_places::<M>(v, buf, base, frac, sps, k, whole(x), s);
    }
    lemma_total_reached(step, n, M::ZERO, m, v.real, f);
}

proof fn lemma_energy_is_not_negative<M: Arithmetic>(
    v: Exact<M>,
    buf: Seq<M::Symbol>,
    base: int,
    frac: M::Real,
    sps: int,
    n: nat,
)
    ensures
        total(n, symbol_energies::<M>(v, buf, base, frac, sps)) >= 0real,
    decreases n,
{
    if n > 0 {
        lemma_energy_is_not_negative::<M>(v, buf, base, frac, sps, (n - 1) as nat);
        let x = place::<M>(v, base, frac, sps, n - 1);
        let i = whole(x);
        let f = x - (i as real);
        lemma_square(v.re(buf[i]) * (1real - f) + v.re(buf[i + 1]) * f);
        lemma_square(v.im(buf[i]) * (1real - f) + v.im(buf[i + 1]) * f);
    }
}

proof fn lemma_square(x: real)
    by (nonlinear_arith)
    ensures
        x * x >= 0real,
{
}

/// The phase that the receiver picks is the one, within `search` samples of the filter's delay, at
/// which the symbols have the most energy, the first of several equal ones.
pub proof fn law_best_phase_has_the_most_energy<M: Arithmetic>(
    v: Exact<M>,
    buf: Seq<M::Symbol>,
    delay: int,
    search: int,
    frac: M::Real,
    sps: int,
    n: nat,
    best: int,
)
    requires
        v.holds(),
        search >= 0,
        i32::MIN <= delay - search,
        delay + search <= i32::MAX,
        sps >= 0,
        n * sps <= usize::MAX,
        best_phase::<M>(buf, delay, search, frac, sps, n, best),
    ensures
        -search <= best <= search,
        forall|o: int|
            -search <= o <= search ==> total(
                n,
                #[trigger] symbol_energies::<M>(v, buf, delay + o, frac, sps),
            ) <= total(n, symbol_energies::<M>(v, buf, delay + best, frac, sps)),
        forall|o: int|
            -search <= o < best ==> total(
                n,
                #[trigger] symbol_energies::<M>(v, buf, delay + o, frac, sps),
            ) < total(n, symbol_energies::<M>(v, buf, delay + best, frac, sps)),
{
    let step = phase_step::<M>(buf, delay, search, frac, sps, n);
    let m = choose|m: M::Real|
        #[trigger] reached(step, (2 * search + 1) as nat, (0int, M::LOWEST), (best, m));
    let most = |o: int| total(n, symbol_energies::<M>(v, buf, delay + o, frac, sps));
    let keeps = |t: int, a: (int, M::Real)|
        {
            &&& 0 <= t <= 2 * search + 1
            &&& t == 0 ==> v.of(a.1) < 0real
            &&& t > 0 ==> -search <= a.0 < t - search && v.of(a.1) == most(a.0)
            &&& forall|o: int| -search <= o < t - search ==> #[trigger] most(o) <= v.of(a.1)
            &&& t > 0 ==> forall|o: int| -search <= o < a.0 ==> #[trigger] most(o) < v.of(a.1)
        };
    assert forall|t: int, a: (int, M::Real), b: (int, M::Real)|
        0 <= t < 2 * search + 1 && #[trigger] keeps(t, a) && #[trigger] step(t, a, b) implies keeps(
        t + 1,
        b,
    ) by {
        let e = choose|e: M::Real|
            #[trigger] symbol_energy::<M>(buf, delay + (t - search), frac, sps, n, e) && {
                ||| call_ensures(M::exceeds, (e, a.1), true) && b == (t - search, e)
                ||| call_ensures(M::exceeds, (e, a.1), false) && b == a
            };
        lemma_symbol_energy::<M>(v, buf, delay + (t - search), frac, sps, n, e);
        lemma_energy_is_not_negative::<M>(v, buf, delay + (t - search), frac, sps, n);
        assert(v.of(e) == most(t - search));
    }
    lemma_reached_keeps(step, (2 * search + 1) as nat, (0int, M::LOWEST), (best, m), keeps);
    assert forall|o: int| -search <= o <= search implies total(
        n,
        #[trigger] symbol_energies::<M>(v, buf, delay + o, frac, sps),
    ) <= most(best) by {
        assert(most(o) <= v.of(m));
    }
    assert forall|o: int| -search <= o < best implies total(
        n,
        #[trigger] symbol_energies::<M>(v, buf, delay + o, frac, sps),
    ) < most(best) by {
        assert(most(o) < v.of(m));
    }
}

} // verus!
