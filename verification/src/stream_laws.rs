//! Laws of whole transmissions and of streams of samples.

use vstd::prelude::*;

use crate::arith::{Arithmetic, Fourier};
use crate::bpsk::modulated;
use crate::capture::{rolled, trimmed};
use crate::carrier::raised;
use crate::chirp::is_chirp;
use crate::config::Config;
use crate::equalizer::usable_training;
use crate::exact::{abs, total, Exact};
use crate::frame::{bits_of, encoded};
use crate::monitor::percentile_ranks;
use crate::playback::filled_from;
use crate::pulse::{pulse_train, rrc_filter};
use crate::receiver_laws::law_levelling_brings_the_peak_to_its_target;
use crate::rx::nominal_symbols;
use crate::shape_laws::{
    bin_level, law_column_is_the_spectrum_under_the_window, law_pulse_train_is_a_sum_of_pulses,
    pulse_part,
};
use crate::signal_laws::{
    angle, hann_curve, law_carrier_has_its_frequency, law_chirp_runs_from_f0_to_f1,
    law_window_follows_its_curve, turns,
};
use crate::spectrogram::{frame_count, hann, is_stft, short_time_spectrum, spectral_column};
use crate::tx::{carries, gap, levelled, sent_bits, transmission};
use crate::wav::{first_of_each, frames_in};

verus! {

// ---------------------------------------------------------------------------------------------
// Transmissions
// ---------------------------------------------------------------------------------------------

/// Sample `i` of the chirp, of `n` samples.
pub open spec fn chirp_curve<M: Arithmetic>(v: Exact<M>, cfg: Config<M>, i: int, n: int) -> real {
    (v.sin)(
        2real * v.pi * turns::<M>(v, i, n, cfg.sample_rate, cfg.chirp_f0_hz, cfg.chirp_f1_hz),
    ) * hann_curve::<M>(v, i, n)
}

/// Sample `m` of the data: the pulses of the symbols on the carrier.
pub open spec fn data_curve<M: Arithmetic>(
    v: Exact<M>,
    cfg: Config<M>,
    symbols: Seq<M::Symbol>,
    taps: Seq<M::Real>,
    fs: M::Real,
    m: int,
) -> real {
    let sps = cfg.samples_per_symbol() as int;
    total(symbols.len(), pulse_part::<M>(v, v.re, symbols, sps, taps, m)) * (v.cos)(
        angle::<M>(v, cfg.carrier_hz, fs, m),
    ) - total(symbols.len(), pulse_part::<M>(v, v.im, symbols, sps, taps, m)) * (v.sin)(
        angle::<M>(v, cfg.carrier_hz, fs, m),
    )
}

/// Sample `i` of a transmission before it is levelled: a chirp of `n` samples, two symbols of
/// silence, and the data.
pub open spec fn sent_curve<M: Arithmetic>(
    v: Exact<M>,
    cfg: Config<M>,
    symbols: Seq<M::Symbol>,
    taps: Seq<M::Real>,
    fs: M::Real,
    n: int,
    i: int,
) -> real {
    let start = n + 2 * cfg.samples_per_symbol();
    if i < n {
        chirp_curve::<M>(v, cfg, i, n)
    } else if i < start {
        0real
    } else {
        data_curve::<M>(v, cfg, symbols, taps, fs, i - start)
    }
}

/// A transmission is a chirp, a gap of two symbols and the bits of the packet, one pulse a bit, on
/// a carrier; all of it is levelled so that its loudest sample is nine tenths of full scale.
pub proof fn law_transmission_is_chirp_gap_and_data<M: Arithmetic>(
    v: Exact<M>,
    payload: Seq<u8>,
    cfg: Config<M>,
    out: Seq<M::Real>,
)
    requires
        v.holds(),
        cfg.sample_rate > 0,
        out.len() <= usize::MAX,
        transmission::<M>(payload, cfg, out),
    ensures
        exists|n: int, taps: Seq<M::Real>, fs: M::Real|
            #[trigger] is_sent::<M>(v, payload, cfg, out, n, taps, fs),
{
    let (preamble, passband, target) = choose|
        preamble: Seq<M::Real>,
        passband: Seq<M::Real>,
        target: M::Real,
    |
        {
            &&& is_chirp::<M>(cfg, preamble)
            &&& carries::<M>(payload, cfg, passband)
            &&& call_ensures(M::fraction, (9, 10), target)
            &&& #[trigger] levelled::<M>(preamble + gap::<M>(cfg) + passband, target, out)
        };
    let symbols = modulated::<M>(sent_bits::<M>(payload, cfg));
    let sps = cfg.samples_per_symbol() as int;
    let (taps, baseband, fs) = choose|
        taps: Seq<M::Real>,
        baseband: Seq<M::Symbol>,
        fs: M::Real,
    |
        {
            &&& rrc_filter::<M>(
                cfg.samples_per_symbol() as usize,
                cfg.rrc_span_symbols,
                cfg.rrc_beta,
                taps,
            )
            &&& #[trigger] pulse_train::<M>(symbols, sps, taps, baseband)
            &&& call_ensures(M::count, (cfg.sample_rate as usize,), fs)
            &&& #[trigger] raised::<M>(baseband, cfg.carrier_hz, fs, passband)
        };
    let x = preamble + gap::<M>(cfg) + passband;
    let n = preamble.len() as int;
    law_levelling_brings_the_peak_to_its_target::<M>(v, x, target, out);
    assert(v.of(target) == 9real / 10real);
    assert(gap::<M>(cfg).len() == 2 * sps);
    assert(passband.len() == baseband.len());
    assert forall|i: int| 0 <= i < x.len() implies v.of(#[trigger] x[i]) == sent_curve::<M>(
        v,
        cfg,
        symbols,
        taps,
        fs,
        n,
        i,
    ) by {
        if i < n {
            law_chirp_runs_from_f0_to_f1::<M>(v, cfg, preamble, i);
            assert(x[i] == preamble[i]);
        } else if i < n + 2 * sps {
            assert(x[i] == gap::<M>(cfg)[i - n]);
        } else {
            let m = i - (n + 2 * sps);
            assert(x[i] == passband[m]);
            law_carrier_has_its_frequency::<M>(v, baseband, cfg.carrier_hz, fs, passband, m);
            law_pulse_train_is_a_sum_of_pulses::<M>(v, symbols, sps, taps, baseband, m);
        }
    }
    if exists|i: int| 0 <= i < x.len() && v.of(#[trigger] x[i]) != 0real {
        let p = choose|p: int|
            0 <= p < x.len() && (forall|i: int|
                0 <= i < x.len() ==> abs(v.of(#[trigger] x[i])) <= abs(v.of(x[p])) && v.of(out[i])
                    * abs(v.of(x[p])) == v.of(x[i]) * v.of(target)) && #[trigger] abs(v.of(x[p]))
                > 0real;
        let at = |i: int| sent_curve::<M>(v, cfg, symbols, taps, fs, n, i);
        assert(at(p) == v.of(x[p]));
        assert forall|i: int| 0 <= i < out.len() implies v.of(#[trigger] out[i]) * abs(
            sent_curve::<M>(v, cfg, symbols, taps, fs, n, p),
        ) == sent_curve::<M>(v, cfg, symbols, taps, fs, n, i) * (9real / 10real) by {
            let y = x[i];
        }
        assert(keeps_shape::<M>(v, cfg, symbols, taps, fs, n, out, p));
    } else {
        assert forall|i: int| 0 <= i < out.len() implies v.of(#[trigger] out[i]) == 0real by {
            let y = x[i];
        }
    }
    assert(is_sent::<M>(v, payload, cfg, out, n, taps, fs));
}

/// `out` is the transmission, scaled so that what is sample `p` of it comes to nine tenths.
pub open spec fn keeps_shape<M: Arithmetic>(
    v: Exact<M>,
    cfg: Config<M>,
    symbols: Seq<M::Symbol>,
    taps: Seq<M::Real>,
    fs: M::Real,
    n: int,
    out: Seq<M::Real>,
    p: int,
) -> bool {
    &&& 0 <= p < out.len()
    &&& sent_curve::<M>(v, cfg, symbols, taps, fs, n, p) != 0real
    &&& forall|i: int|
        0 <= i < out.len() ==> v.of(#[trigger] out[i]) * abs(
            sent_curve::<M>(v, cfg, symbols, taps, fs, n, p),
        ) == sent_curve::<M>(v, cfg, symbols, taps, fs, n, i) * (9real / 10real)
}

/// `out` is a levelled transmission of `payload`, with a chirp of `n` samples and pulses of the
/// shape `taps`.
pub open spec fn is_sent<M: Arithmetic>(
    v: Exact<M>,
    payload: Seq<u8>,
    cfg: Config<M>,
    out: Seq<M::Real>,
    n: int,
    taps: Seq<M::Real>,
    fs: M::Real,
) -> bool {
    let symbols = modulated::<M>(bits_of(encoded(payload, cfg.modulation)));
    let sps = cfg.samples_per_symbol() as int;
    &&& v.of(fs) == cfg.sample_rate as real
    &&& rrc_filter::<M>(sps as usize, cfg.rrc_span_symbols, cfg.rrc_beta, taps)
    &&& out.len() == n + 2 * sps + symbols.len() * sps + taps.len() - 1
    &&& {
        ||| forall|i: int| 0 <= i < out.len() ==> v.of(#[trigger] out[i]) == 0real
        ||| {
            &&& forall|i: int| 0 <= i < out.len() ==> abs(v.of(#[trigger] out[i])) <= 9real / 10real
            &&& exists|p: int| #[trigger] keeps_shape::<M>(v, cfg, symbols, taps, fs, n, out, p)
        }
    }
}

// ---------------------------------------------------------------------------------------------
// Spectrograms
// ---------------------------------------------------------------------------------------------

/// The windows of a spectrogram lie `hop` samples apart, as many as fit: one more would reach
/// beyond the last sample.
pub proof fn law_windows_fill_the_signal(n: nat, size: nat, hop: nat)
    requires
        hop > 0,
    ensures
        n < size ==> frame_count(n, size, hop) == 0,
        n >= size ==> frame_count(n, size, hop) > 0 && (frame_count(n, size, hop) - 1) * hop + size
            <= n < frame_count(n, size, hop) * hop + size,
{
    if n >= size {
        let q = (n - size) / hop as int;
        vstd::arithmetic::div_mod::lemma_fundamental_div_mod((n - size) as int, hop as int);
        assert((q + 1) * hop == q * hop + hop) by (nonlinear_arith);
        assert(q * hop == hop as int * q) by (nonlinear_arith);
    }
}

/// Column `f` of a spectrogram holds the levels of the spectrum of the samples from `f * hop` on,
/// under a Hann window.
pub proof fn law_spectrogram_columns_follow_the_signal<M: Fourier>(
    v: Exact<M>,
    samples: Seq<M::Real>,
    size: usize,
    hop: int,
    columns: Seq<Vec<M::Real>>,
    f: int,
)
    requires
        v.holds(),
        samples.len() >= size,
        is_stft::<M>(samples, size, hop, columns),
        0 <= f < columns.len(),
    ensures
        exists|frame: Vec<M::Symbol>, bins: Vec<M::Symbol>|
            {
                &&& #[trigger] call_ensures(M::spectrum, (frame,), bins)
                &&& frame@.len() == size
                &&& forall|i: int|
                    0 <= i < size ==> v.re(#[trigger] frame@[i]) == v.of(samples[f * hop + i])
                        * hann_curve::<M>(v, i, size as int) && v.im(frame@[i]) == 0real
                &&& columns[f]@.len() <= size / 2 + 1
                &&& columns[f]@.len() == size / 2 + 1 || columns[f]@.len() == bins@.len()
                &&& forall|k: int|
                    0 <= k < columns[f]@.len() ==> v.of(#[trigger] columns[f]@[k]) == bin_level::<
                        M,
                    >(v, bins@[k])
            },
{
    let window = choose|window: Seq<M::Real>|
        #[trigger] hann::<M>(size, window) && short_time_spectrum::<M>(
            samples,
            hop,
            window,
            columns,
        );
    assert(spectral_column::<M>(samples, f * hop, window, columns[f]@));
    law_column_is_the_spectrum_under_the_window::<M>(v, samples, f * hop, window, columns[f]@);
    let (frame, bins) = choose|frame: Vec<M::Symbol>, bins: Vec<M::Symbol>|
        {
            &&& #[trigger] call_ensures(M::spectrum, (frame,), bins)
            &&& frame@.len() == window.len()
            &&& forall|i: int|
                0 <= i < frame@.len() ==> v.re(#[trigger] frame@[i]) == v.of(
                    samples[f * hop + i],
                ) * v.of(window[i]) && v.im(frame@[i]) == 0real
            &&& columns[f]@.len() <= window.len() / 2 + 1
            &&& columns[f]@.len() <= bins@.len()
            &&& columns[f]@.len() == window.len() / 2 + 1 || columns[f]@.len() == bins@.len()
            &&& forall|k: int|
                0 <= k < columns[f]@.len() ==> v.of(#[trigger] columns[f]@[k]) == bin_level::<M>(
                    v,
                    bins@[k],
                )
        };
    assert forall|i: int| 0 <= i < size implies v.re(#[trigger] frame@[i]) == v.of(
        samples[f * hop + i],
    ) * hann_curve::<M>(v, i, size as int) && v.im(frame@[i]) == 0real by {
        law_window_follows_its_curve::<M>(v, i as usize, size, window[i]);
    }
    assert(call_ensures(M::spectrum, (frame,), bins));
}

/// The colours of a spectrogram leave out the lowest and the highest twentieth of the levels.
pub proof fn law_percentiles_leave_out_a_twentieth(n: int)
    requires
        n > 0,
    ensures
        ({
            let (lo, hi) = percentile_ranks(n);
            &&& 20 * lo <= n < 20 * (lo + 1)
            &&& 20 * hi <= 19 * n < 20 * (hi + 1)
        }),
{
}

// ---------------------------------------------------------------------------------------------
// Streams
// ---------------------------------------------------------------------------------------------

/// A trimmed capture keeps the newest samples: everything while it fits, and half of what fits
/// from then on.
pub proof fn law_trimming_keeps_the_newest<T>(buf: Seq<T>, max: int)
    requires
        max >= 0,
    ensures
        buf.len() <= max ==> trimmed(buf, max) == buf,
        buf.len() > max ==> trimmed(buf, max).len() == max / 2,
        forall|back: int|
            1 <= back <= trimmed(buf, max).len() ==> #[trigger] trimmed(buf, max)[trimmed(
                buf,
                max,
            ).len() - back] == buf[buf.len() - back],
{
}

/// The ring keeps the newest samples, the fresh ones last.
pub proof fn law_ring_keeps_the_newest<T>(buf: Seq<T>, fresh: Seq<T>, max: int)
    requires
        buf.len() <= max,
    ensures
        buf.len() + fresh.len() <= max ==> rolled(buf, fresh, max) == buf + fresh,
        buf.len() + fresh.len() > max ==> rolled(buf, fresh, max).len() == max,
        forall|back: int|
            1 <= back <= rolled(buf, fresh, max).len() ==> #[trigger] rolled(
                buf,
                fresh,
                max,
            )[rolled(buf, fresh, max).len() - back] == if back <= fresh.len() {
                fresh[fresh.len() - back]
            } else {
                buf[buf.len() + fresh.len() - back]
            },
{
    if buf.len() + fresh.len() <= max {
        assert(rolled(buf, fresh, max) =~= buf + fresh);
    }
}

/// Sample `f` of a mono signal is the first sample of frame `f`, and the last frame counts even if
/// it is cut short.
pub proof fn law_mono_takes_the_first_channel<T>(data: Seq<T>, channels: int)
    requires
        channels > 0,
    ensures
        ({
            let n = first_of_each(data, channels).len();
            &&& data.len() <= n * channels < data.len() + channels
            &&& forall|f: int|
                0 <= f < n ==> #[trigger] first_of_each(data, channels)[f] == data[channels * f]
        }),
{
    let m = data.len() + channels - 1;
    let q = m / channels;
    vstd::arithmetic::div_mod::lemma_fundamental_div_mod(m, channels);
    assert(frames_in(data.len() as int, channels) == q);
    assert(q >= 0) by (nonlinear_arith)
        requires
            q == m / channels,
            m >= 0,
            channels > 0,
    ;
    assert(q * channels == channels * q) by (nonlinear_arith);
    assert forall|f: int| 0 <= f < q implies #[trigger] first_of_each(data, channels)[f]
        == data[channels * f] by {
        assert(f * channels == channels * f) by (nonlinear_arith);
    }
}

/// Playing gives every channel of frame `f` the sample that is due, and silence after the last.
pub proof fn law_every_channel_plays_the_sample_that_is_due<T>(
    samples: Seq<T>,
    position: int,
    before: Seq<T>,
    channels: int,
    silence: T,
    f: int,
    c: int,
)
    requires
        channels > 0,
        0 <= position,
        0 <= c < channels,
        0 <= f,
        (f + 1) * channels <= before.len(),
    ensures
        filled_from(samples, position, before, channels, silence).len() == before.len(),
        filled_from(samples, position, before, channels, silence)[f * channels + c] == if position
            + f < samples.len() {
            samples[position + f]
        } else {
            silence
        },
{
    let p = f * channels + c;
    assert(p < before.len() && p >= 0) by (nonlinear_arith)
        requires
            p == f * channels + c,
            0 <= f,
            0 <= c < channels,
            (f + 1) * channels <= before.len(),
    ;
    vstd::arithmetic::div_mod::lemma_fundamental_div_mod_converse(p, channels, f, c);
    let q = before.len() as int / channels;
    vstd::arithmetic::div_mod::lemma_fundamental_div_mod(before.len() as int, channels);
    assert(p < q * channels) by (nonlinear_arith)
        requires
            p == f * channels + c,
            0 <= c < channels,
            (f + 1) * channels <= before.len(),
            before.len() == channels * q + before.len() as int % channels,
            before.len() as int % channels < channels,
            channels > 0,
    ;
}

/// As many symbols are looked for as fit behind the filter's delay.
pub proof fn law_symbols_fit_behind_the_delay(len: nat, delay: nat, sps: nat)
    requires
        sps > 0,
    ensures
        len <= delay + 1 ==> nominal_symbols(len, delay, sps) == 0,
        len > delay + 1 ==> {
            let n = nominal_symbols(len, delay, sps);
            delay + 1 + n * sps <= len < delay + 1 + (n + 1) * sps
        },
{
    if len > delay + 1 {
        let m = len - delay - 1;
        let q = m / sps as int;
        vstd::arithmetic::div_mod::lemma_fundamental_div_mod(m, sps as int);
        assert(q >= 0) by (nonlinear_arith)
            requires
                q == m / sps as int,
                m >= 0,
                sps > 0,
        ;
        assert((q + 1) * sps == q * sps + sps) by (nonlinear_arith);
        assert(q * sps == sps as int * q) by (nonlinear_arith);
    }
}

/// Training uses the least of what was asked for, what is known and what was received.
pub proof fn law_training_is_limited_by_what_there_is(asked: int, known: nat, received: nat)
    ensures
        ({
            let n = usable_training(asked, known, received);
            &&& n <= asked && n <= known && n <= received
            &&& n == asked || n == known || n == received
        }),
{
}

} // verus!
