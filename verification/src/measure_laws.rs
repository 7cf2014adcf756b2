//! Laws of files, meters and displays over exact arithmetic.

use vstd::prelude::*;

use crate::arith::{clamped, lemma_reached_keeps, reached, Arithmetic};
use crate::capture::{capacity, meter_step};
use crate::exact::{
    abs, lemma_clamped, lemma_divides, lemma_total_reached, lemma_value, max, total, within, Exact,
};
use crate::formula::Formula;
use crate::monitor::{
    axis_reach, coloured, decays, in_decibels, locks, power_step, root_mean_square, shaded,
    window_span, Heat, Lock,
};
use crate::wav::{limited, part_of_scale, quantized, unquantized};

verus! {

// ---------------------------------------------------------------------------------------------
// Samples in files
// ---------------------------------------------------------------------------------------------

/// A sample is written as the integer nearest to its part of full scale, 32767; what lies beyond
/// the range of 16 bits is written as the end of the range.
pub proof fn law_written_sample_is_the_nearest<M: Arithmetic>(v: Exact<M>, s: M::Real, q: i16)
    requires
        v.holds(),
        quantized::<M>(s, q),
    ensures
        -32768real <= v.of(s) * 32767real <= 32767real ==> -1real <= 2real * (v.of(s) * 32767real
            - (q as real)) <= 1real,
        v.of(s) * 32767real >= 32767real ==> q == 32767,
        v.of(s) * 32767real <= -32768real ==> q == -32768,
{
    let f = Formula::<M>::Given(s).times(Formula::Offset(i16::MAX as i32)).rounded();
    let (x, lo, hi, y) = choose|x: M::Real, lo: M::Real, hi: M::Real, y: M::Real|
        {
            &&& f.yields(x)
            &&& call_ensures(M::offset, (i16::MIN as i32,), lo)
            &&& call_ensures(M::offset, (i16::MAX as i32,), hi)
            &&& #[trigger] clamped::<M>(x, lo, hi, y)
            &&& call_ensures(M::sample, (y,), q)
        };
    assert(v.of(x) == ((v.round)(v.of(s) * 32767real) as real)) by {
        reveal_with_fuel(Exact::value, 4);
        reveal_with_fuel(Exact::defined, 4);
        lemma_value::<M>(v, f, x);
    }
    lemma_clamped::<M>(v, x, lo, hi, y);
    let k = (v.round)(v.of(s) * 32767real);
    let m: int = if k < -32768 {
        -32768
    } else if k > 32767 {
        32767
    } else {
        k
    };
    assert(v.of(y) == m as real);
    assert((v.round)(v.of(y)) == m) by {
        let r = (v.round)(v.of(y));
        assert(-1real <= 2real * (v.of(y) - (r as real)) <= 1real);
    }
}

/// An integer sample is read as its part of full scale, kept from -1 to 1.
pub proof fn law_read_sample_is_its_part_of_full_scale<M: Arithmetic>(
    v: Exact<M>,
    q: i32,
    full_scale: u64,
    r: M::Real,
)
    requires
        v.holds(),
        full_scale > 0,
        unquantized::<M>(q, full_scale, r),
    ensures
        v.of(r) == within((q as real) * (1real / (full_scale as real)), -1real, 1real),
{
    let f = part_of_scale::<M>(q, full_scale);
    let x = choose|x: M::Real| f.yields(x) && #[trigger] limited::<M>(x, r);
    lemma_by_one(full_scale as real);
    reveal_with_fuel(Exact::value, 4);
    reveal_with_fuel(Exact::defined, 4);
    lemma_value::<M>(v, f, x);
    let low = choose|low: M::Real|
        call_ensures(M::negated, (M::ONE,), low) && #[trigger] clamped::<M>(x, low, M::ONE, r);
    lemma_clamped::<M>(v, x, low, M::ONE, r);
}

proof fn lemma_by_one(x: real)
    by (nonlinear_arith)
    ensures
        x / 1real == x,
{
}

/// What is written with 16 bits and read back differs from what it was by half a step at most.
pub proof fn law_written_samples_read_back<M: Arithmetic>(
    v: Exact<M>,
    s: M::Real,
    q: i16,
    r: M::Real,
)
    requires
        v.holds(),
        -1real <= v.of(s) <= 1real,
        quantized::<M>(s, q),
        unquantized::<M>(q as i32, 32767, r),
    ensures
        -1real <= 2real * 32767real * (v.of(s) - v.of(r)) <= 1real,
{
    law_written_sample_is_the_nearest::<M>(v, s, q);
    law_read_sample_is_its_part_of_full_scale::<M>(v, q as i32, 32767, r);
}

// ---------------------------------------------------------------------------------------------
// Meters
// ---------------------------------------------------------------------------------------------

/// The meter shows the loudest sample, whatever its sign.
pub proof fn law_meter_shows_the_loudest_sample<M: Arithmetic>(
    v: Exact<M>,
    x: Seq<M::Real>,
    peak: M::Real,
)
    requires
        v.holds(),
        reached(meter_step::<M>(x), x.len(), M::ZERO, peak),
    ensures
        forall|i: int| 0 <= i < x.len() ==> abs(v.of(#[trigger] x[i])) <= v.of(peak),
        v.of(peak) == 0real || exists|i: int|
            0 <= i < x.len() && abs(v.of(#[trigger] x[i])) == v.of(peak),
{
    let step = meter_step::<M>(x);
    let keeps = |n: int, a: M::Real|
        {
            &&& 0 <= n <= x.len()
            &&& v.of(a) >= 0real
            &&& forall|i: int| 0 <= i < n ==> abs(v.of(#[trigger] x[i])) <= v.of(a)
            &&& v.of(a) == 0real || exists|i: int|
                0 <= i < n && abs(v.of(#[trigger] x[i])) == v.of(a)
        };
    assert forall|n: int, a: M::Real, b: M::Real|
        0 <= n < x.len() && #[trigger] keeps(n, a) && #[trigger] step(n, a, b) implies keeps(
        n + 1,
        b,
    ) by {
        let m = choose|m: M::Real|
            #[trigger] call_ensures(M::magnitude, (x[n],), m) && {
                ||| call_ensures(M::exceeds, (m, a), true) && b == m
                ||| call_ensures(M::exceeds, (m, a), false) && b == a
            };
        assert(v.of(m) == abs(v.of(x[n])));
        if v.of(m) > v.of(a) {
            assert(0 <= n < n + 1 && abs(v.of(x[n])) == v.of(b));
        } else if v.of(a) != 0real {
            let i = choose|i: int| 0 <= i < n && abs(v.of(#[trigger] x[i])) == v.of(a);
            assert(0 <= i < n + 1 && abs(v.of(x[i])) == v.of(b));
        }
    }
    lemma_reached_keeps(step, x.len(), M::ZERO, peak, keeps);
}

/// Between two pictures the meter falls to four fifths.
pub proof fn law_meter_falls_to_four_fifths<M: Arithmetic>(v: Exact<M>, a: M::Real, b: M::Real)
    requires
        v.holds(),
        decays::<M>(a, b),
    ensures
        5real * v.of(b) == 4real * v.of(a),
{
    let part = choose|part: M::Real|
        call_ensures(M::fraction, (80, 100), part) && #[trigger] call_ensures(
            M::times,
            (a, part),
            b,
        );
    assert(v.of(part) == 80real / 100real);
    lemma_four_fifths(v.of(a), v.of(part));
}

proof fn lemma_four_fifths(a: real, part: real)
    by (nonlinear_arith)
    requires
        part == 80real / 100real,
    ensures
        5real * (a * part) == 4real * a,
{
}

/// A level above a millionth is shown as twenty times its logarithm, any other as -120 dB.
pub proof fn law_levels_are_shown_in_decibels<M: Arithmetic>(
    v: Exact<M>,
    level: M::Real,
    r: M::Real,
)
    requires
        v.holds(),
        in_decibels::<M>(level, r),
    ensures
        v.of(level) > 1real / 1_000_000real ==> v.of(r) == 20real * (v.log)(v.of(level)),
        v.of(level) <= 1real / 1_000_000real ==> v.of(r) == -120real,
{
    let (least, heard) = choose|least: M::Real, heard: bool|
        {
            &&& call_ensures(M::fraction, (1, 1_000_000), least)
            &&& #[trigger] call_ensures(M::exceeds, (level, least), heard)
            &&& if heard {
                Formula::<M>::Fraction(20, 1).times(Formula::Given(level).logarithm()).yields(r)
            } else {
                Formula::<M>::Fraction(120, 1).negated().yields(r)
            }
        };
    reveal_with_fuel(Exact::value, 4);
    reveal_with_fuel(Exact::defined, 4);
    assert(20real / 1real == 20real && 120real / 1real == 120real);
    if heard {
        lemma_value::<M>(
            v,
            Formula::<M>::Fraction(20, 1).times(Formula::Given(level).logarithm()),
            r,
        );
    } else {
        lemma_value::<M>(v, Formula::<M>::Fraction(120, 1).negated(), r);
    }
}

/// A buffer holds the samples of its length in seconds.
pub proof fn law_buffer_holds_its_seconds<M: Arithmetic>(
    v: Exact<M>,
    seconds: u64,
    sample_rate: u32,
    n: usize,
)
    requires
        v.holds(),
        capacity::<M>(seconds, sample_rate, n),
    ensures
        n as real <= (seconds as real) * (sample_rate as real) < (n as real) + 1real,
{
    lemma_by_one(seconds as real);
    lemma_not_negative(seconds as real, sample_rate as real);
}

proof fn lemma_not_negative(x: real, y: real)
    by (nonlinear_arith)
    requires
        x >= 0real,
        y >= 0real,
    ensures
        x * y >= 0real,
{
}

// ---------------------------------------------------------------------------------------------
// Pictures
// ---------------------------------------------------------------------------------------------

/// How hot a colour is.
pub open spec fn warmth(color: Heat) -> int {
    match color {
        Heat::Black => 0,
        Heat::Navy => 1,
        Heat::Blue => 2,
        Heat::Cyan => 3,
        Heat::Green => 4,
        Heat::Yellow => 5,
        Heat::Red => 6,
    }
}

/// A level is shown by the colour nearest to its place between `lo` and `lo + span`, from black at
/// `lo` and below to red at `lo + span` and above.
pub proof fn law_colours_follow_the_levels<M: Arithmetic>(
    v: Exact<M>,
    mag: M::Real,
    lo: M::Real,
    span: M::Real,
    color: Heat,
)
    requires
        v.holds(),
        v.of(span) > 0real,
        shaded::<M>(mag, lo, span, color),
    ensures
        ({
            let place = within((v.of(mag) - v.of(lo)) / v.of(span), 0real, 1real);
            -1real <= 2real * (6real * place - (warmth(color) as real)) <= 1real
        }),
        v.of(mag) <= v.of(lo) ==> color == Heat::Black,
        v.of(mag) >= v.of(lo) + v.of(span) ==> color == Heat::Red,
{
    let (above, part, t) = choose|above: M::Real, part: M::Real, t: M::Real|
        {
            &&& call_ensures(M::minus, (mag, lo), above)
            &&& #[trigger] call_ensures(M::over, (above, span), part)
            &&& #[trigger] clamped::<M>(part, M::ZERO, M::ONE, t)
            &&& coloured::<M>(t, color)
        };
    lemma_clamped::<M>(v, part, M::ZERO, M::ONE, t);
    let (last, x, step) = choose|last: M::Real, x: M::Real, step: usize|
        {
            &&& call_ensures(M::count, (6,), last)
            &&& #[trigger] call_ensures(M::times, (t, last), x)
            &&& #[trigger] call_ensures(M::nearest, (x,), step)
            &&& color == crate::monitor::heat(step as int)
        };
    assert(v.of(last) == 6real);
    lemma_six(v.of(t), v.of(last));
    assert(warmth(color) == step as int) by {
        assert(2real * (v.of(x) - (step as real)) >= -1real);
        assert(step <= 6);
    }
    let d = v.of(mag) - v.of(lo);
    lemma_divides(d, v.of(span));
    if d <= 0real {
        lemma_low(d, v.of(span));
    }
    if d >= v.of(span) {
        lemma_high(d, v.of(span));
    }
}

proof fn lemma_six(t: real, n: real)
    by (nonlinear_arith)
    requires
        n == 6real,
    ensures
        t * n == 6real * t,
{
}

proof fn lemma_low(d: real, span: real)
    by (nonlinear_arith)
    requires
        d <= 0real,
        span > 0real,
    ensures
        d / span <= 0real,
{
}

proof fn lemma_high(d: real, span: real)
    by (nonlinear_arith)
    requires
        d >= span,
        span > 0real,
    ensures
        d / span >= 1real,
{
}

/// The colours span the levels from `lo` to `hi`, or a millionth where that is wider.
pub proof fn law_colours_span_the_window<M: Arithmetic>(
    v: Exact<M>,
    lo: M::Real,
    hi: M::Real,
    span: M::Real,
)
    requires
        v.holds(),
        window_span::<M>(lo, hi, span),
    ensures
        v.of(span) == max(v.of(hi) - v.of(lo), 1real / 1_000_000real),
        v.of(span) > 0real,
{
}

/// The energies of the points.
pub open spec fn powers<M: Arithmetic>(v: Exact<M>, points: Seq<M::Symbol>) -> spec_fn(
    int,
) -> real {
    |i: int| v.norm(points[i])
}

/// The axes of a constellation reach two and a half times the root of the mean energy of its
/// points, which is taken as 1 without any point and as a millionth at least.
pub proof fn law_axes_reach_beyond_the_points<M: Arithmetic>(
    v: Exact<M>,
    points: Seq<M::Symbol>,
    scale: M::Real,
)
    requires
        v.holds(),
        points.len() <= usize::MAX,
        axis_reach::<M>(points, scale),
    ensures
        points.len() == 0 ==> v.of(scale) == 5real / 2real,
        points.len() > 0 ==> v.of(scale) == max(
            (v.sqrt)(total(points.len(), powers::<M>(v, points)) / (points.len() as real)),
            1real / 1_000_000real,
        ) * (5real / 2real),
{
    let (rms, margin) = choose|rms: M::Real, margin: M::Real|
        {
            &&& root_mean_square::<M>(points, rms)
            &&& call_ensures(M::fraction, (5, 2), margin)
            &&& #[trigger] call_ensures(M::times, (rms, margin), scale)
        };
    assert(v.of(margin) == 5real / 2real);
    if points.len() == 0 {
        lemma_one_times(v.of(rms), v.of(margin));
    } else {
        let (sum, size, mean, root, least) = choose|
            sum: M::Real,
            size: M::Real,
            mean: M::Real,
            root: M::Real,
            least: M::Real,
        |
            {
                &&& reached(power_step::<M>(points), points.len(), M::ZERO, sum)
                &&& call_ensures(M::count, (points.len() as usize,), size)
                &&& #[trigger] call_ensures(M::over, (sum, size), mean)
                &&& call_ensures(M::root, (mean,), root)
                &&& call_ensures(M::fraction, (1, 1_000_000), least)
                &&& #[trigger] call_ensures(M::larger, (root, least), rms)
            };
        lemma_total_reached(
            power_step::<M>(points),
            points.len(),
            M::ZERO,
            sum,
            v.real,
            powers::<M>(v, points),
        );
    }
}

proof fn lemma_one_times(x: real, y: real)
    by (nonlinear_arith)
    requires
        x == 1real,
    ensures
        x * y == y,
{
}

/// The lock is shown as held from the threshold on, and as near from half of it on.
pub proof fn law_lock_is_judged_by_the_threshold<M: Arithmetic>(
    v: Exact<M>,
    ratio: M::Real,
    threshold: M::Real,
    lock: Lock,
)
    requires
        v.holds(),
        locks::<M>(ratio, threshold, lock),
    ensures
        lock == Lock::Locked <==> v.of(ratio) >= v.of(threshold),
        lock == Lock::Near <==> v.of(ratio) < v.of(threshold) && 2real * v.of(ratio) >= v.of(
            threshold,
        ),
{
    if v.of(ratio) < v.of(threshold) {
        let (half, near) = choose|half: M::Real, near: M::Real|
            {
                &&& call_ensures(M::fraction, (1, 2), half)
                &&& #[trigger] call_ensures(M::times, (threshold, half), near)
                &&& {
                    ||| call_ensures(M::reaches, (ratio, near), true) && lock == Lock::Near
                    ||| call_ensures(M::reaches, (ratio, near), false) && lock == Lock::Absent
                }
            };
        assert(v.of(half) == 1real / 2real);
        lemma_half(v.of(threshold), v.of(half));
    }
}

proof fn lemma_half(x: real, half: real)
    by (nonlinear_arith)
    requires
        half == 1real / 2real,
    ensures
        2real * (x * half) == x,
{
}

} // verus!
