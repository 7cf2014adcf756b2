//! Spectra over time.

use vstd::prelude::*;

use crate::arith::{Arithmetic, Fourier};
use crate::formula::{hann_term, hann_value, Formula, Term};

verus! {

/// `window` is a Hann window of `size` values.
pub open spec fn hann<M: Arithmetic>(size: usize, window: Seq<M::Real>) -> bool {
    &&& window.len() == size
    &&& forall|i: int|
        0 <= i < size ==> hann_value::<M>(i as usize, size).yields(#[trigger] window[i])
}

/// `s` is the sample `x` under the window value `w`, on the real axis.
pub open spec fn weighted<M: Arithmetic>(x: M::Real, w: M::Real, s: M::Symbol) -> bool {
    exists|p: M::Real|
        #[trigger] call_ensures(M::times, (x, w), p) && call_ensures(M::symbol, (p, M::ZERO), s)
}

/// `frame` is the part of `samples` from `start` on, under `window`.
pub open spec fn windowed<M: Arithmetic>(
    samples: Seq<M::Real>,
    start: int,
    window: Seq<M::Real>,
    frame: Seq<M::Symbol>,
) -> bool {
    &&& frame.len() == window.len()
    &&& forall|i: int|
        0 <= i < frame.len() ==> weighted::<M>(
            samples[start + i],
            window[i],
            #[trigger] frame[i],
        )
}

/// The logarithm of the absolute value of `s`, kept finite at the origin.
pub open spec fn log_magnitude<M: Arithmetic>(s: M::Symbol) -> Formula<M> {
    Formula::ModulusOf(s).plus(Formula::Fraction(1, 1_000_000_000)).logarithm()
}

/// `column` holds the levels of the lower half of `bins`, which are the transform of `frame`.
pub open spec fn transformed<M: Fourier>(
    frame: Vec<M::Symbol>,
    bins: Vec<M::Symbol>,
    column: Seq<M::Real>,
) -> bool {
    &&& call_ensures(M::spectrum, (frame,), bins)
    &&& column.len() == bins_kept(frame@.len(), bins@.len())
    &&& forall|k: int|
        0 <= k < column.len() ==> log_magnitude::<M>(bins@[k]).yields(#[trigger] column[k])
}

/// Positive frequencies up to Nyquist: `size / 2 + 1` bins, if the transform has so many.
pub open spec fn bins_kept(size: nat, bins: nat) -> nat {
    if size / 2 + 1 <= bins {
        size / 2 + 1
    } else {
        bins
    }
}

/// `column` is the spectrum of `samples` from `start` on.
pub open spec fn spectral_column<M: Fourier>(
    samples: Seq<M::Real>,
    start: int,
    window: Seq<M::Real>,
    column: Seq<M::Real>,
) -> bool {
    exists|frame: Vec<M::Symbol>, bins: Vec<M::Symbol>|
        windowed::<M>(samples, start, window, frame@) && #[trigger] transformed::<M>(
            frame,
            bins,
            column,
        )
}

/// How many windows of `size` samples, `hop` apart, fit into `n` samples.
pub open spec fn frame_count(n: nat, size: nat, hop: nat) -> nat {
    if n < size {
        0
    } else {
        ((n - size) / hop as int + 1) as nat
    }
}

/// `columns` is the spectrum of `samples`, window by window.
pub open spec fn short_time_spectrum<M: Fourier>(
    samples: Seq<M::Real>,
    hop: int,
    window: Seq<M::Real>,
    columns: Seq<Vec<M::Real>>,
) -> bool {
    forall|f: int|
        0 <= f < columns.len() ==> spectral_column::<M>(
            samples,
            f * hop,
            window,
            (#[trigger] columns[f])@,
        )
}

/// `columns` is the short-time Fourier transform of `samples`.
pub open spec fn is_stft<M: Fourier>(
    samples: Seq<M::Real>,
    size: usize,
    hop: int,
    columns: Seq<Vec<M::Real>>,
) -> bool {
    &&& columns.len() == frame_count(samples.len(), size as nat, hop as nat)
    &&& samples.len() >= size ==> exists|window: Seq<M::Real>|
        #[trigger] hann::<M>(size, window) && short_time_spectrum::<M>(
            samples,
            hop,
            window,
            columns,
        )
}

/// A spectrum has as many bins as its frame has values.
pub open spec fn keeps_length<M: Fourier>() -> bool {
    forall|frame: Vec<M::Symbol>, bins: Vec<M::Symbol>|
        #[trigger] call_ensures(M::spectrum, (frame,), bins) ==> bins@.len() == frame@.len()
}

/// The spectrum of `samples` from `start` on.
fn column_at<M: Fourier>(
    samples: &[M::Real],
    start: usize,
    window: &[M::Real],
) -> (column: Vec<M::Real>)
    requires
        start + window@.len() <= samples@.len(),
    ensures
        spectral_column::<M>(samples@, start as int, window@, column@),
        keeps_length::<M>() && window@.len() > 0 ==> column@.len() == window@.len() / 2 + 1,
{
    let total: usize = samples.len();
    let size: usize = window.len();
    let mut frame: Vec<M::Symbol> = Vec::with_capacity(size);
    let mut i: usize = 0;
    while i < size
        invariant
            i <= size == window@.len(),
            start + window@.len() <= samples@.len() == total,
            frame@.len() == i,
            forall|k: int|
                0 <= k < i ==> weighted::<M>(
                    samples@[start + k],
                    window@[k],
                    #[trigger] frame@[k],
                ),
        decreases size - i,
    {
        let p = M::times(samples[start + i], window[i]);
        assert(call_ensures(M::times, (samples@[start + i], window@[i as int]), p));
        frame.push(M::symbol(p, M::ZERO));
        i = i + 1;
    }
    let ghost input = frame;
    let bins = M::spectrum(frame);
    let half: usize = size / 2;
    let mut column: Vec<M::Real> = Vec::new();
    let mut k: usize = 0;
    while k <= half && k < bins.len()
        invariant
            k <= half + 1,
            k <= bins@.len(),
            half <= size / 2,
            column@.len() == k,
            forall|j: int|
                0 <= j < k ==> log_magnitude::<M>(bins@[j]).yields(#[trigger] column@[j]),
        decreases bins@.len() - k,
    {
        let level = Term::<M>::modulus_of(bins[k]).plus(
            Term::fraction(1, 1_000_000_000),
        ).logarithm();
        column.push(level.value);
        k = k + 1;
    }
    assert(transformed::<M>(input, bins, column@));
    column
}

/// Short-time Fourier transform.
///
/// Splits `samples` into Hann-windowed frames of `window_size` samples each, stepping by `hop`
/// samples. For each frame returns the log-magnitude of the first `window_size / 2 + 1` bins
/// (positive frequencies up to Nyquist).
///
/// Each column of the output is one frame in time. Silent bins have a finite, very low level.
pub fn stft<M: Fourier>(samples: &[M::Real], window_size: usize, hop: usize) -> (columns: Vec<
    Vec<M::Real>,
>)
    requires
        window_size > 0,
        hop > 0,
    ensures
        is_stft::<M>(samples@, window_size, hop as int, columns@),
        keeps_length::<M>() ==> forall|f: int|
            0 <= f < columns@.len() ==> (#[trigger] columns@[f])@.len() == window_size / 2 + 1,
{
    let mut columns: Vec<Vec<M::Real>> = Vec::new();
    if samples.len() < window_size {
        return columns;
    }
    let mut window: Vec<M::Real> = Vec::with_capacity(window_size);
    let mut i: usize = 0;
    while i < window_size
        invariant
            i <= window_size,
            window@.len() == i,
            forall|k: int|
                0 <= k < i ==> hann_value::<M>(k as usize, window_size).yields(
                    #[trigger] window@[k],
                ),
        decreases window_size - i,
    {
        window.push(hann_term::<M>(i, window_size).value);
        i = i + 1;
    }
    assert(hann::<M>(window_size, window@));
    let room: usize = samples.len() - window_size;
    let last: usize = room / hop;
    let mut f: usize = 0;
    while f <= last
        invariant
            f <= last + 1,
            hop > 0,
            last == room as int / hop as int,
            room == samples@.len() - window_size,
            window_size > 0,
            window@.len() == window_size,
            samples@.len() <= usize::MAX,
            columns@.len() == f,
            short_time_spectrum::<M>(samples@, hop as int, window@, columns@),
            keeps_length::<M>() ==> forall|k: int|
                0 <= k < columns@.len() ==> (#[trigger] columns@[k])@.len() == window_size / 2 + 1,
        decreases last + 1 - f,
    {
        assert(f * hop <= room && last < usize::MAX) by (nonlinear_arith)
            requires
                0 <= f <= last,
                hop > 0,
                last == room as int / hop as int,
                room < usize::MAX,
        ;
        let column = column_at::<M>(samples, f * hop, window.as_slice());
        columns.push(column);
        f = f + 1;
    }
    columns
}

/// A column depends on its own frame only: what may come out for the whole signal is what may come
/// out for the samples of the frame alone.
pub proof fn law_column_depends_on_its_frame<M: Fourier>(
    samples: Seq<M::Real>,
    start: int,
    window: Seq<M::Real>,
    column: Seq<M::Real>,
)
    requires
        0 <= start,
        start + window.len() <= samples.len(),
    ensures
        spectral_column::<M>(samples, start, window, column) == spectral_column::<M>(
            samples.subrange(start, start + window.len()),
            0,
            window,
            column,
        ),
{
    let part = samples.subrange(start, start + window.len());
    assert forall|frame: Seq<M::Symbol>| #[trigger]
        windowed::<M>(samples, start, window, frame) == windowed::<M>(
            part,
            0,
            window,
            frame,
        ) by {
        if frame.len() == window.len() {
            assert forall|i: int| 0 <= i < frame.len() implies #[trigger] part[i] == samples[start
                + i] by {}
            if windowed::<M>(samples, start, window, frame) {
                assert forall|i: int| 0 <= i < frame.len() implies weighted::<M>(
                    part[0 + i],
                    window[i],
                    #[trigger] frame[i],
                ) by {
                    assert(weighted::<M>(samples[start + i], window[i], frame[i]));
                }
            }
            if windowed::<M>(part, 0, window, frame) {
                assert forall|i: int| 0 <= i < frame.len() implies weighted::<M>(
                    samples[start + i],
                    window[i],
                    #[trigger] frame[i],
                ) by {
                    assert(weighted::<M>(part[0 + i], window[i], frame[i]));
                }
            }
        }
    }
    if spectral_column::<M>(samples, start, window, column) {
        let (frame, bins) = choose|frame: Vec<M::Symbol>, bins: Vec<M::Symbol>|
            windowed::<M>(samples, start, window, frame@) && #[trigger] transformed::<M>(
                frame,
                bins,
                column,
            );
        assert(windowed::<M>(part, 0, window, frame@) && transformed::<M>(frame, bins, column));
    }
    if spectral_column::<M>(part, 0, window, column) {
        let (frame, bins) = choose|frame: Vec<M::Symbol>, bins: Vec<M::Symbol>|
            windowed::<M>(part, 0, window, frame@) && #[trigger] transformed::<M>(
                frame,
                bins,
                column,
            );
        assert(windowed::<M>(samples, start, window, frame@) && transformed::<M>(
            frame,
            bins,
            column,
        ));
    }
}

/// Column `f` of a transform is the one column of the transform of its frame alone.
pub proof fn law_single_frame_has_the_same_column<M: Fourier>(
    samples: Seq<M::Real>,
    size: usize,
    hop: int,
    columns: Seq<Vec<M::Real>>,
    f: int,
)
    requires
        size > 0,
        hop > 0,
        is_stft::<M>(samples, size, hop, columns),
        0 <= f < columns.len(),
    ensures
        f * hop + size <= samples.len(),
        is_stft::<M>(samples.subrange(f * hop, f * hop + size), size, hop, seq![columns[f]]),
{
    let start = f * hop;
    let room = samples.len() - size;
    assert(samples.len() >= size);
    assert(0 <= start <= room) by (nonlinear_arith)
        requires
            start == f * hop,
            0 <= f <= room / hop,
            hop > 0,
            room >= 0,
    ;
    let window = choose|window: Seq<M::Real>|
        #[trigger] hann::<M>(size, window) && short_time_spectrum::<M>(
            samples,
            hop,
            window,
            columns,
        );
    let part = samples.subrange(start, start + size);
    let one = seq![columns[f]];
    assert(spectral_column::<M>(samples, f * hop, window, columns[f]@));
    law_column_depends_on_its_frame::<M>(samples, start, window, columns[f]@);
    assert(short_time_spectrum::<M>(part, hop, window, one)) by {
        assert(0 * hop == 0) by (nonlinear_arith);
    }
    assert((part.len() - size) / hop == 0) by (nonlinear_arith)
        requires
            part.len() == size,
            hop > 0,
    ;
    assert(hann::<M>(size, window));
}

/// A window over silence is silent, and so is its transform.
pub open spec fn silence_stays_silent<M: Fourier>(size: usize) -> bool {
    &&& forall|i: usize, w: M::Real, p: M::Real|
        i < size && #[trigger] hann_value::<M>(i, size).yields(w) && #[trigger] call_ensures(
            M::times,
            (M::ZERO, w),
            p,
        ) ==> p == M::ZERO
    &&& forall|s: M::Symbol| #[trigger]
        call_ensures(M::symbol, (M::ZERO, M::ZERO), s) ==> s == M::ORIGIN
    &&& forall|frame: Vec<M::Symbol>, bins: Vec<M::Symbol>, k: int|
        #[trigger] call_ensures(M::spectrum, (frame,), bins) && frame@ == Seq::new(
            frame@.len(),
            |i: int| M::ORIGIN,
        ) && 0 <= k < bins@.len() ==> #[trigger] bins@[k] == M::ORIGIN
}

/// Silence comes out at the level of the origin, which the small term in the logarithm keeps
/// finite, in every number system in which silence stays silent.
pub proof fn law_silence_has_the_lowest_level<M: Fourier>(
    samples: Seq<M::Real>,
    size: usize,
    hop: int,
    columns: Seq<Vec<M::Real>>,
    f: int,
    k: int,
)
    requires
        size > 0,
        hop > 0,
        silence_stays_silent::<M>(size),
        forall|i: int| 0 <= i < samples.len() ==> #[trigger] samples[i] == M::ZERO,
        is_stft::<M>(samples, size, hop, columns),
        0 <= f < columns.len(),
        0 <= k < columns[f]@.len(),
    ensures
        log_magnitude::<M>(M::ORIGIN).yields(columns[f]@[k]),
{
    law_single_frame_has_the_same_column::<M>(samples, size, hop, columns, f);
    let window = choose|window: Seq<M::Real>|
        #[trigger] hann::<M>(size, window) && short_time_spectrum::<M>(
            samples,
            hop,
            window,
            columns,
        );
    let column = columns[f]@;
    let start = f * hop;
    assert(0 <= start) by (nonlinear_arith)
        requires
            start == f * hop,
            0 <= f,
            hop > 0,
    ;
    assert(spectral_column::<M>(samples, start, window, column));
    let (frame, bins) = choose|frame: Vec<M::Symbol>, bins: Vec<M::Symbol>|
        windowed::<M>(samples, start, window, frame@) && #[trigger] transformed::<M>(
            frame,
            bins,
            column,
        );
    assert forall|i: int| 0 <= i < frame@.len() implies frame@[i] == M::ORIGIN by {
        assert(weighted::<M>(samples[start + i], window[i], frame@[i]));
        let p = choose|p: M::Real|
            #[trigger] call_ensures(M::times, (samples[start + i], window[i]), p) && call_ensures(
                M::symbol,
                (p, M::ZERO),
                frame@[i],
            );
        assert(hann_value::<M>(i as usize, size).yields(window[i]));
        assert(p == M::ZERO);
    }
    assert(frame@ =~= Seq::new(frame@.len(), |i: int| M::ORIGIN));
    assert(bins@[k] == M::ORIGIN);
}

} // verus!
