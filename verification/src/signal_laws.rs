//! Laws of the signal path over exact arithmetic.

use vstd::prelude::*;

use crate::arith::Arithmetic;
use crate::carrier::{lowered, lowered_by, phase, raised, raised_by, turn, turned_down, turned_up};
use crate::chirp::{chirp_value, is_chirp};
use crate::config::{duration, Config};
use crate::exact::{
    lemma_associates, lemma_commutes, lemma_distributes, lemma_divides, lemma_quotient_of_zero,
    lemma_subtracts, lemma_value, Exact,
};
use crate::formula::{hann_value, Formula};
use crate::spectrogram::log_magnitude;

verus! {

// ---------------------------------------------------------------------------------------------
// Carriers
// ---------------------------------------------------------------------------------------------

/// The angle, in radians, that a wave at `fc` Hz has reached at sample `n` of `fs` a second.
pub open spec fn angle<M: Arithmetic>(v: Exact<M>, fc: M::Real, fs: M::Real, n: int) -> real {
    2real * v.pi * v.of(fc) / v.of(fs) * (n as real)
}

proof fn lemma_phase<M: Arithmetic>(v: Exact<M>, fc: M::Real, fs: M::Real, omega: M::Real, n: int)
    requires
        v.holds(),
        v.of(fs) != 0real,
        0 <= n <= usize::MAX,
        turn::<M>(fc, fs).yields(omega),
    ensures
        v.value(phase::<M>(omega, n)) == angle::<M>(v, fc, fs, n),
        v.defined(phase::<M>(omega, n)),
{
    reveal_with_fuel(Exact::value, 4);
    reveal_with_fuel(Exact::defined, 4);
    lemma_value::<M>(v, turn::<M>(fc, fs), omega);
    assert(v.of(omega) == 2real * v.pi * v.of(fc) / v.of(fs));
}

/// The carrier has the frequency that was asked for at the rate that was given: sample `n` is the
/// real part of the baseband, turned by the angle of a wave at `fc`.
pub proof fn law_carrier_has_its_frequency<M: Arithmetic>(
    v: Exact<M>,
    baseband: Seq<M::Symbol>,
    fc: M::Real,
    fs: M::Real,
    passband: Seq<M::Real>,
    n: int,
)
    requires
        v.holds(),
        v.of(fs) > 0real,
        baseband.len() <= usize::MAX,
        raised::<M>(baseband, fc, fs, passband),
        0 <= n < baseband.len(),
    ensures
        passband.len() == baseband.len(),
        v.of(passband[n]) == v.re(baseband[n]) * (v.cos)(angle::<M>(v, fc, fs, n)) - v.im(
            baseband[n],
        ) * (v.sin)(angle::<M>(v, fc, fs, n)),
{
    let omega = choose|omega: M::Real|
        turn::<M>(fc, fs).yields(omega) && #[trigger] raised_by::<M>(baseband, omega, passband);
    lemma_phase::<M>(v, fc, fs, omega, n);
    let f = turned_up::<M>(baseband[n], omega, n);
    assert(f.yields(passband[n]));
    reveal_with_fuel(Exact::value, 4);
    reveal_with_fuel(Exact::defined, 4);
    lemma_value::<M>(v, f, passband[n]);
}

/// Bringing a signal down turns each sample back by the angle of a wave at `fc`.
pub proof fn law_downconversion_turns_back<M: Arithmetic>(
    v: Exact<M>,
    passband: Seq<M::Real>,
    fc: M::Real,
    fs: M::Real,
    baseband: Seq<M::Symbol>,
    n: int,
)
    requires
        v.holds(),
        v.of(fs) > 0real,
        passband.len() <= usize::MAX,
        lowered::<M>(passband, fc, fs, baseband),
        0 <= n < passband.len(),
    ensures
        baseband.len() == passband.len(),
        v.re(baseband[n]) == v.of(passband[n]) * (v.cos)(angle::<M>(v, fc, fs, n)),
        v.im(baseband[n]) == -v.of(passband[n]) * (v.sin)(angle::<M>(v, fc, fs, n)),
{
    let omega = choose|omega: M::Real|
        turn::<M>(fc, fs).yields(omega) && #[trigger] lowered_by::<M>(passband, omega, baseband);
    lemma_phase::<M>(v, fc, fs, omega, n);
    assert(turned_down::<M>(passband[n], omega, n, baseband[n]));
    let p = Formula::<M>::Given(passband[n]).times(phase::<M>(omega, n).cosine());
    let q = Formula::<M>::Given(passband[n]).negated().times(phase::<M>(omega, n).sine());
    let (re, im) = choose|re: M::Real, im: M::Real|
        p.yields(re) && q.yields(im) && #[trigger] call_ensures(M::symbol, (re, im), baseband[n]);
    reveal_with_fuel(Exact::value, 4);
    reveal_with_fuel(Exact::defined, 4);
    lemma_value::<M>(v, p, re);
    lemma_value::<M>(v, q, im);
}

/// A real baseband that goes up and comes down at the same frequency and rate keeps its phase:
/// the real part that comes back is the sample times the square of the carrier's cosine.
pub proof fn law_up_and_down_keep_the_phase<M: Arithmetic>(
    v: Exact<M>,
    baseband: Seq<M::Symbol>,
    fc: M::Real,
    fs: M::Real,
    passband: Seq<M::Real>,
    down: Seq<M::Symbol>,
    n: int,
)
    requires
        v.holds(),
        v.of(fs) > 0real,
        baseband.len() <= usize::MAX,
        raised::<M>(baseband, fc, fs, passband),
        lowered::<M>(passband, fc, fs, down),
        0 <= n < baseband.len(),
        v.im(baseband[n]) == 0real,
    ensures
        v.re(down[n]) == v.re(baseband[n]) * (v.cos)(angle::<M>(v, fc, fs, n)) * (v.cos)(
            angle::<M>(v, fc, fs, n),
        ),
{
    law_carrier_has_its_frequency::<M>(v, baseband, fc, fs, passband, n);
    law_downconversion_turns_back::<M>(v, passband, fc, fs, down, n);
}

// ---------------------------------------------------------------------------------------------
// Windows, chirps and levels
// ---------------------------------------------------------------------------------------------

/// Value `i` of a Hann window of `size` values: from zero up to one in the middle and back.
pub open spec fn hann_curve<M: Arithmetic>(v: Exact<M>, i: int, size: int) -> real {
    if size == 1 {
        1real
    } else {
        1real / 2real * (1real - (v.cos)(2real * v.pi * (i as real) / ((size - 1) as real)))
    }
}

/// A Hann window follows its curve, which stays between zero and one.
pub proof fn law_window_follows_its_curve<M: Arithmetic>(
    v: Exact<M>,
    i: usize,
    size: usize,
    w: M::Real,
)
    requires
        v.holds(),
        i < size,
        hann_value::<M>(i, size).yields(w),
    ensures
        v.of(w) == hann_curve::<M>(v, i as int, size as int),
        0real <= v.of(w) <= 1real,
{
    lemma_window_value::<M>(v, i, size);
    lemma_value::<M>(v, hann_value::<M>(i, size), w);
}

/// The chirp runs from `f0` to `f1`: with `t` the time of sample `i` and `length` the length of
/// the chirp, both in seconds, the sine has turned `f0 * t + (f1 - f0) / length * t^2 / 2` times.
pub open spec fn turns<M: Arithmetic>(
    v: Exact<M>,
    i: int,
    n: int,
    rate: u32,
    f0: M::Real,
    f1: M::Real,
) -> real {
    let t = (i as real) / (rate as real);
    let length = (n as real) / (rate as real);
    v.of(f0) * t + 1real / 2real * ((v.of(f1) - v.of(f0)) / length) * t * t
}

/// A chirp starts at `f0`, ends at `f1` and is shaped by a Hann window.
pub proof fn law_chirp_runs_from_f0_to_f1<M: Arithmetic>(
    v: Exact<M>,
    cfg: Config<M>,
    chirp: Seq<M::Real>,
    i: int,
)
    requires
        v.holds(),
        cfg.sample_rate > 0,
        is_chirp::<M>(cfg, chirp),
        0 <= i < chirp.len(),
    ensures
        v.of(chirp[i]) == (v.sin)(
            2real * v.pi * turns::<M>(
                v,
                i,
                chirp.len() as int,
                cfg.sample_rate,
                cfg.chirp_f0_hz,
                cfg.chirp_f1_hz,
            ),
        ) * hann_curve::<M>(v, i, chirp.len() as int),
{
    let n = chirp.len() as usize;
    let k = i as usize;
    let rate = cfg.sample_rate;
    let (f0, f1) = (cfg.chirp_f0_hz, cfg.chirp_f1_hz);
    let f = chirp_value::<M>(k, n, rate, f0, f1);
    assert(f.yields(chirp[i]));
    let window = hann_value::<M>(k, n);
    lemma_window_value::<M>(v, k, n);
    let length = (n as real) / (rate as real);
    lemma_quotient_of_zero(n as real, rate as real);
    let fs = Formula::<M>::Count(rate as usize);
    let slope = Formula::<M>::Given(f1).minus(Formula::Given(f0)).over(
        Formula::Count(n).over(fs),
    );
    let t = Formula::<M>::Count(k).over(fs);
    let bend = Formula::<M>::Fraction(1, 2).times(slope);
    let inner = Formula::<M>::Given(f0).times(t).plus(bend.times(t).times(t));
    reveal_with_fuel(Exact::value, 4);
    reveal_with_fuel(Exact::defined, 4);
    assert(v.value(t) == (i as real) / (rate as real) && v.defined(t));
    assert(v.value(slope) == (v.of(f1) - v.of(f0)) / length && v.defined(slope));
    assert(v.value(Formula::<M>::Fraction(1, 2)) == 1real / 2real);
    assert(v.value(bend) == 1real / 2real * ((v.of(f1) - v.of(f0)) / length) && v.defined(bend));
    assert(v.value(inner) == turns::<M>(v, i, n as int, rate, f0, f1) && v.defined(inner));
    let wave = Formula::<M>::Given(M::TAU).times(inner).sine();
    assert(v.defined(wave));
    let shape = window.larger(Formula::Given(M::ZERO));
    assert(f == wave.times(shape));
    lemma_value::<M>(v, f, chirp[i]);
}

proof fn lemma_window_value<M: Arithmetic>(v: Exact<M>, i: usize, size: usize)
    requires
        v.holds(),
        i < size,
    ensures
        v.defined(hann_value::<M>(i, size)),
        v.value(hann_value::<M>(i, size)) == hann_curve::<M>(v, i as int, size as int),
        0real <= hann_curve::<M>(v, i as int, size as int) <= 1real,
{
    reveal_with_fuel(Exact::value, 7);
    reveal_with_fuel(Exact::defined, 7);
    if size != 1 {
        assert(((size - 1) as usize) as real != 0real);
    }
}

/// Halfway from sample `i` to sample `i + 1` the chirp has the frequency that lies halfway: over
/// that sample it turns, times the rate, `f0 + (f1 - f0) * (i + 1/2) / n` times. So it starts at
/// `f0`, ends at `f1` and changes evenly in between.
pub proof fn law_chirp_frequency_changes_evenly<M: Arithmetic>(
    v: Exact<M>,
    i: int,
    n: int,
    rate: u32,
    f0: M::Real,
    f1: M::Real,
)
    requires
        rate > 0,
        n > 0,
    ensures
        turns::<M>(v, 0, n, rate, f0, f1) == 0real,
        (turns::<M>(v, i + 1, n, rate, f0, f1) - turns::<M>(v, i, n, rate, f0, f1)) * (rate as real)
            * (n as real) == v.of(f0) * (n as real) + (v.of(f1) - v.of(f0)) * ((i as real) + 1real
            / 2real),
{
    let (r, m) = (rate as real, n as real);
    let d = v.of(f1) - v.of(f0);
    lemma_quotient_of_zero(m, r);
    lemma_turns(v.of(f0), d, 0real, m, r);
    lemma_turns(v.of(f0), d, i as real, m, r);
    lemma_turns(v.of(f0), d, (i + 1) as real, m, r);
    let x = i as real;
    let (p, q) = (
        turns::<M>(v, i, n, rate, f0, f1),
        turns::<M>(v, i + 1, n, rate, f0, f1),
    );
    lemma_subtracts(r, q, p);
    lemma_subtracts(m, r * q, r * p);
    lemma_commutes(q - p, r);
    lemma_commutes(r * (q - p), m);
    assert((q - p) * r * m == m * (r * q) - m * (r * p));
    lemma_distributes(v.of(f0) * m, x, 1real);
    lemma_next_square(d, x);
    lemma_no_turns(turns::<M>(v, 0, n, rate, f0, f1), r, m);
}

proof fn lemma_no_turns(p: real, r: real, m: real)
    by (nonlinear_arith)
    requires
        m * (r * p) == 0real,
        r > 0real,
        m > 0real,
    ensures
        p == 0real,
{
}

proof fn lemma_halved(x: real, y: real)
    by (nonlinear_arith)
    ensures
        x * (1real / 2real * y) == 1real / 2real * (x * y),
{
}

proof fn lemma_next_square(d: real, x: real)
    by (nonlinear_arith)
    ensures
        1real / 2real * (d * ((x + 1real) * (x + 1real))) - 1real / 2real * (d * (x * x)) == d * (x
            + 1real / 2real),
{
}

/// The turns after `x` of `m` samples, times rate and length: `f * m * x + d * x^2 / 2`.
proof fn lemma_turns(f: real, d: real, x: real, m: real, r: real)
    requires
        r != 0real,
        m != 0real,
        m / r != 0real,
    ensures
        m * (r * (f * (x / r) + 1real / 2real * (d / (m / r)) * (x / r) * (x / r))) == f * m * x
            + 1real / 2real * (d * (x * x)),
{
    let t = x / r;
    let l = m / r;
    let k = d / l;
    let h = 1real / 2real * k;
    lemma_divides(x, r);
    lemma_divides(m, r);
    lemma_divides(d, l);
    lemma_distributes(r, f * t, h * t * t);
    lemma_distributes(m, r * (f * t), r * (h * t * t));
    assert(m * (r * (f * t)) == f * m * x) by {
        lemma_associates(r, f, t);
        lemma_associates(f, r, t);
        lemma_associates(m, f, x);
        assert(r * t == x);
        assert(r * (f * t) == f * x);
        assert(m * f == f * m);
    }
    assert(m * (r * (h * t * t)) == 1real / 2real * (d * (x * x))) by {
        let w = h * t;
        lemma_associates(r, w, t);
        lemma_associates(w, r, t);
        assert(r * (w * t) == w * x);
        assert(m * (w * x) == 1real / 2real * (d * (x * x))) by {
            lemma_associates(m, w, x);
            assert(m * w == 1real / 2real * (d * x)) by {
                lemma_associates(1real / 2real, k, t);
                assert(w == 1real / 2real * (k * t));
                lemma_halved(m, k * t);
                assert(m * (k * t) == d * x) by {
                    assert(m == l * r);
                    lemma_associates(l, r, k * t);
                    lemma_associates(r, k, t);
                    lemma_associates(k, r, t);
                    assert(r * (k * t) == k * x);
                    lemma_associates(l, k, x);
                    assert(l * k == d);
                }
            }
            lemma_halved(x, d * x);
            lemma_associates(d, x, x);
            lemma_commutes(1real / 2real * (d * x), x);
            lemma_commutes(x, d * x);
        }
    }
}

/// The length of a chirp is the number of samples nearest to its duration.
pub proof fn law_chirp_lasts_as_long_as_asked<M: Arithmetic>(
    v: Exact<M>,
    cfg: Config<M>,
    chirp: Seq<M::Real>,
)
    requires
        v.holds(),
        is_chirp::<M>(cfg, chirp),
        v.of(cfg.chirp_dur_ms) / 1000real * (cfg.sample_rate as real) >= 0real,
    ensures
        -1real <= 2real * (v.of(cfg.chirp_dur_ms) / 1000real * (cfg.sample_rate as real) - (
        chirp.len() as real)) <= 1real,
{
    let f = duration::<M>(cfg.chirp_dur_ms, cfg.sample_rate);
    let x = choose|x: M::Real|
        f.yields(x) && #[trigger] call_ensures(M::nearest, (x,), chirp.len() as usize);
    reveal_with_fuel(Exact::value, 4);
    reveal_with_fuel(Exact::defined, 4);
    assert(1000real / 1real == 1000real);
    lemma_value::<M>(v, f, x);
}

/// The level of a bin is the logarithm of its absolute value, with a small term that keeps it
/// finite; it does not depend on the phase.
pub proof fn law_level_is_of_the_absolute_value<M: Arithmetic>(
    v: Exact<M>,
    s: M::Symbol,
    level: M::Real,
)
    requires
        v.holds(),
        log_magnitude::<M>(s).yields(level),
    ensures
        v.of(level) == (v.log)(
            (v.sqrt)(v.re(s) * v.re(s) + v.im(s) * v.im(s)) + 1real / 1_000_000_000real,
        ),
{
    reveal_with_fuel(Exact::value, 4);
    reveal_with_fuel(Exact::defined, 4);
    lemma_value::<M>(v, log_magnitude::<M>(s), level);
}

} // verus!
