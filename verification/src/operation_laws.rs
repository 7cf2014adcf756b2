//! What the operations of the library return, over exact arithmetic.
//!
//! Each law here speaks of one operation, by its arguments and its result.

use vstd::arithmetic::power2::pow2;
use vstd::prelude::*;

use crate::arith::{clamped, Arithmetic, Fourier};
use crate::bpsk::{demodulate, modulate, slice_symbol};
use crate::capture::buffer_limit;
use crate::carrier::{downconvert, upconvert};
use crate::chirp::{detect_chirp, make_chirp, ChirpHit};
use crate::config::{Config, Modulation};
use crate::equalizer::{default_mu, estimate_channel};
use crate::exact::{lemma_clamped, max, squares, total, within, Exact};
use crate::frame::{
    bits_to_bytes, bytes_of, bytes_to_bits, crc32_iso_hdlc, decode, encode, law_bytes_roundtrip,
    DecodedFrame, FrameError, TRAINING_SEQUENCE,
};
use crate::measure_laws::{
    law_axes_reach_beyond_the_points, law_buffer_holds_its_seconds,
    law_levels_are_shown_in_decibels, law_lock_is_judged_by_the_threshold,
    law_meter_falls_to_four_fifths, law_read_sample_is_its_part_of_full_scale,
    law_written_sample_is_the_nearest, powers,
};
use crate::monitor::{constellation_scale, decay, decibels, lock_state, Lock};
use crate::order::sort;
use crate::picture_laws::{law_bits_become_signs, lemma_rises};
use crate::pulse::{convolve, rrc_taps, upsample_and_filter};
use crate::receiver_laws::{
    is_top, law_channel_estimate_is_a_mean, law_data_starts_after_chirp_and_gap,
    law_detector_finds_the_most_alike_place, law_slicer_reads_the_sign, likeness, match_im,
    match_re,
};
use crate::reception_laws::{is_judged, law_receiver_locks_on_the_most_alike_place};
use crate::rx::{can_locate, decode_samples_traced, locate_data, DecodeError, DecodeTrace};
use crate::shape_laws::{
    bin_level, law_filter_has_unit_energy, law_filtering_is_convolution,
    law_pulse_train_is_a_sum_of_pulses, pulse_part, rrc_curve, rrc_place, rrc_squares,
};
use crate::signal_laws::{
    angle, hann_curve, law_carrier_has_its_frequency, law_chirp_lasts_as_long_as_asked,
    law_chirp_runs_from_f0_to_f1, law_downconversion_turns_back, turns,
};
use crate::spectrogram::stft;
use crate::stream_laws::{
    is_sent, law_mono_takes_the_first_channel, law_spectrogram_columns_follow_the_signal,
    law_transmission_is_chirp_gap_and_data, law_windows_fill_the_signal,
};
use crate::tx::{encode_samples, peak_target};
use crate::wav::{first_of_each, from_pcm, from_reals, limited, to_pcm};
use crate::wire_laws::{
    four_bytes, law_bits_run_from_the_most_significant, law_first_fault_is_told, law_packet_layout,
    two_bytes,
};

verus! {

/// Mixing up turns every sample by the angle of the carrier and takes the real part; a constant 1
/// becomes the cosine of a wave at `fc`.
pub proof fn law_upconvert<M: Arithmetic>(
    v: Exact<M>,
    baseband: &[M::Symbol],
    fc: M::Real,
    fs: M::Real,
    passband: Vec<M::Real>,
    n: int,
)
    requires
        v.holds(),
        v.of(fs) > 0real,
        call_ensures(upconvert::<M>, (baseband, fc, fs), passband),
        baseband@.len() <= usize::MAX,
        0 <= n < baseband@.len(),
    ensures
        passband@.len() == baseband@.len(),
        v.of(passband@[n]) == v.re(baseband@[n]) * (v.cos)(angle::<M>(v, fc, fs, n)) - v.im(
            baseband@[n],
        ) * (v.sin)(angle::<M>(v, fc, fs, n)),
        v.re(baseband@[n]) == 1real && v.im(baseband@[n]) == 0real ==> v.of(passband@[n]) == (
        v.cos)(angle::<M>(v, fc, fs, n)),
{
    law_carrier_has_its_frequency::<M>(v, baseband@, fc, fs, passband@, n);
    lemma_products_with(v.re(baseband@[n]), v.im(baseband@[n]), angle::<M>(v, fc, fs, n), v);
}

proof fn lemma_products_with<M: Arithmetic>(a: real, b: real, x: real, v: Exact<M>)
    ensures
        a == 1real && b == 0real ==> a * (v.cos)(x) - b * (v.sin)(x) == (v.cos)(x),
{
    lemma_one_and_none(a, b, (v.cos)(x), (v.sin)(x));
}

proof fn lemma_one_and_none(a: real, b: real, c: real, s: real)
    by (nonlinear_arith)
    ensures
        a == 1real && b == 0real ==> a * c - b * s == c,
{
}

/// Mixing down turns every sample back by the angle of the carrier.
pub proof fn law_downconvert<M: Arithmetic>(
    v: Exact<M>,
    passband: &[M::Real],
    fc: M::Real,
    fs: M::Real,
    baseband: Vec<M::Symbol>,
    n: int,
)
    requires
        v.holds(),
        v.of(fs) > 0real,
        call_ensures(downconvert::<M>, (passband, fc, fs), baseband),
        passband@.len() <= usize::MAX,
        0 <= n < passband@.len(),
    ensures
        baseband@.len() == passband@.len(),
        v.re(baseband@[n]) == v.of(passband@[n]) * (v.cos)(angle::<M>(v, fc, fs, n)),
        v.im(baseband@[n]) == -v.of(passband@[n]) * (v.sin)(angle::<M>(v, fc, fs, n)),
{
    law_downconversion_turns_back::<M>(v, passband@, fc, fs, baseband@, n);
}

/// The chirp sweeps from its first to its second frequency under a Hann window, and lasts for the
/// number of samples nearest to its duration.
pub proof fn law_make_chirp<M: Arithmetic>(
    v: Exact<M>,
    cfg: &Config<M>,
    chirp: Vec<M::Real>,
    i: int,
)
    requires
        v.holds(),
        cfg.sample_rate > 0,
        call_ensures(make_chirp::<M>, (cfg,), chirp),
        0 <= i < chirp@.len(),
    ensures
        v.of(chirp@[i]) == (v.sin)(
            2real * v.pi * turns::<M>(
                v,
                i,
                chirp@.len() as int,
                cfg.sample_rate,
                cfg.chirp_f0_hz,
                cfg.chirp_f1_hz,
            ),
        ) * hann_curve::<M>(v, i, chirp@.len() as int),
        v.of(cfg.chirp_dur_ms) / 1000real * (cfg.sample_rate as real) >= 0real ==> -1real <= 2real
            * (v.of(cfg.chirp_dur_ms) / 1000real * (cfg.sample_rate as real) - (
        chirp@.len() as real)) <= 1real,
{
    law_chirp_runs_from_f0_to_f1::<M>(v, *cfg, chirp@, i);
    if v.of(cfg.chirp_dur_ms) / 1000real * (cfg.sample_rate as real) >= 0real {
        law_chirp_lasts_as_long_as_asked::<M>(v, *cfg, chirp@);
    }
}

/// The detector finds the place that is most like the chirp, if it is like it enough.
pub proof fn law_detect_chirp<M: Arithmetic>(
    v: Exact<M>,
    signal: &[M::Real],
    chirp: &[M::Real],
    threshold_ratio: M::Real,
    hit: Option<ChirpHit<M>>,
)
    requires
        v.holds(),
        call_ensures(detect_chirp::<M>, (signal, chirp, threshold_ratio), hit),
    ensures
        signal@.len() < chirp@.len() ==> hit is None,
        signal@.len() >= chirp@.len() ==> {
            let last = signal@.len() - chirp@.len();
            let energy = total(chirp@.len(), squares::<M>(v, chirp@));
            match hit {
                Some(h) => {
                    &&& 0 <= h.start <= last
                    &&& v.of(h.self_energy) == energy
                    &&& v.of(h.peak_correlation) == likeness::<M>(
                        v,
                        signal@,
                        chirp@,
                        h.start as int,
                    )
                    &&& v.of(h.peak_correlation) > energy * v.of(threshold_ratio)
                    &&& if 0 < h.start < last {
                        is_top(
                            likeness::<M>(v, signal@, chirp@, h.start - 1),
                            v.of(h.peak_correlation),
                            likeness::<M>(v, signal@, chirp@, h.start + 1),
                            v.of(h.sub_sample),
                        )
                    } else {
                        v.of(h.sub_sample) == 0real
                    }
                    &&& forall|i: int|
                        0 <= i <= last ==> #[trigger] likeness::<M>(v, signal@, chirp@, i) <= v.of(
                            h.peak_correlation,
                        )
                },
                None => forall|i: int|
                    0 <= i <= last ==> #[trigger] likeness::<M>(v, signal@, chirp@, i) <= energy
                        * v.of(threshold_ratio),
            }
        },
{
    if signal@.len() >= chirp@.len() {
        law_detector_finds_the_most_alike_place::<M>(v, signal@, chirp@, threshold_ratio, hit);
    }
}

/// The taps lie on a root-raised-cosine pulse, scaled to unit energy.
pub proof fn law_rrc_taps<M: Arithmetic>(
    v: Exact<M>,
    sps: usize,
    span: usize,
    beta: M::Real,
    taps: Vec<M::Real>,
)
    requires
        v.holds(),
        v.of(beta) > 0real,
        sps > 0,
        sps * span < usize::MAX,
        call_ensures(rrc_taps::<M>, (sps, span, beta), taps),
        exists|i: int|
            0 <= i <= sps * span && #[trigger] rrc_curve::<M>(
                v,
                rrc_place(i, sps * span + 1, sps as int),
                v.of(beta),
            ) != 0real,
    ensures
        taps@.len() == sps * span + 1,
        total(taps@.len(), squares::<M>(v, taps@)) == 1real,
        forall|i: int|
            0 <= i < taps@.len() ==> v.of(#[trigger] taps@[i]) == rrc_curve::<M>(
                v,
                rrc_place(i, sps * span + 1, sps as int),
                v.of(beta),
            ) / (v.sqrt)(
                total(
                    taps@.len(),
                    rrc_squares::<M>(v, sps * span + 1, sps as int, v.of(beta)),
                ),
            ),
{
    law_filter_has_unit_energy::<M>(v, sps, span, beta, taps@);
}

/// Every symbol starts a pulse, `sps` samples after the one before it.
pub proof fn law_upsample_and_filter<M: Arithmetic>(
    v: Exact<M>,
    symbols: &[M::Symbol],
    sps: usize,
    taps: &[M::Real],
    out: Vec<M::Symbol>,
    m: int,
)
    requires
        v.holds(),
        call_ensures(upsample_and_filter::<M>, (symbols, sps, taps), out),
        0 <= m < out@.len(),
    ensures
        out@.len() == symbols@.len() * sps + taps@.len() - 1,
        v.re(out@[m]) == total(
            symbols@.len(),
            pulse_part::<M>(v, v.re, symbols@, sps as int, taps@, m),
        ),
        v.im(out@[m]) == total(
            symbols@.len(),
            pulse_part::<M>(v, v.im, symbols@, sps as int, taps@, m),
        ),
{
    law_pulse_train_is_a_sum_of_pulses::<M>(v, symbols@, sps as int, taps@, out@, m);
}

/// Convolving gives the full convolution.
pub proof fn law_convolve<M: Arithmetic>(
    v: Exact<M>,
    x: &[M::Symbol],
    h: &[M::Real],
    y: Vec<M::Symbol>,
    m: int,
)
    requires
        v.holds(),
        call_ensures(convolve::<M>, (x, h), y),
        0 <= m < y@.len(),
    ensures
        y@.len() == x@.len() + h@.len() - 1,
        v.re(y@[m]) == total(x@.len(), pulse_part::<M>(v, v.re, x@, 1, h@, m)),
        v.im(y@[m]) == total(x@.len(), pulse_part::<M>(v, v.im, x@, 1, h@, m)),
{
    law_filtering_is_convolution::<M>(v, x@, h@, y@, m);
}

/// Column `f` of a spectrogram holds the levels of the spectrum of `window_size` samples from
/// `f * hop` on, under a Hann window, and there are as many columns as fit.
pub proof fn law_stft<M: Fourier>(
    v: Exact<M>,
    samples: &[M::Real],
    window_size: usize,
    hop: usize,
    columns: Vec<Vec<M::Real>>,
    f: int,
)
    requires
        v.holds(),
        window_size > 0,
        hop > 0,
        call_ensures(stft::<M>, (samples, window_size, hop), columns),
    ensures
        samples@.len() < window_size ==> columns@.len() == 0,
        samples@.len() >= window_size ==> columns@.len() > 0 && (columns@.len() - 1) * hop
            + window_size <= samples@.len() < columns@.len() * hop + window_size,
        0 <= f < columns@.len() ==> exists|frame: Vec<M::Symbol>, bins: Vec<M::Symbol>|
            {
                &&& #[trigger] call_ensures(M::spectrum, (frame,), bins)
                &&& frame@.len() == window_size
                &&& forall|i: int|
                    0 <= i < window_size ==> v.re(#[trigger] frame@[i]) == v.of(
                        samples@[f * hop + i],
                    ) * hann_curve::<M>(v, i, window_size as int) && v.im(frame@[i]) == 0real
                &&& columns@[f]@.len() == window_size / 2 + 1 || columns@[f]@.len() == bins@.len()
                &&& forall|k: int|
                    0 <= k < columns@[f]@.len() ==> v.of(#[trigger] columns@[f]@[k]) == bin_level::<
                        M,
                    >(v, bins@[k])
            },
{
    law_windows_fill_the_signal(samples@.len(), window_size as nat, hop as nat);
    if 0 <= f < columns@.len() {
        law_spectrogram_columns_follow_the_signal::<M>(
            v,
            samples@,
            window_size,
            hop as int,
            columns@,
            f,
        );
    }
}

/// A payload of up to 65535 bytes becomes a chirp, a gap and the data; a longer one is refused.
pub proof fn law_encode_samples<M: Arithmetic>(
    v: Exact<M>,
    payload: &[u8],
    cfg: &Config<M>,
    r: Result<Vec<M::Real>, FrameError>,
)
    requires
        v.holds(),
        cfg.sample_rate > 0,
        call_ensures(encode_samples::<M>, (payload, cfg), r),
    ensures
        r is Ok <==> payload@.len() <= 65_535,
        r is Ok && r->Ok_0@.len() <= usize::MAX ==> exists|n: int, taps: Seq<M::Real>, fs: M::Real|
            #[trigger] is_sent::<M>(v, payload@, *cfg, r->Ok_0@, n, taps, fs),
        r is Err ==> r->Err_0 == FrameError::PayloadTooLarge(payload@.len() as usize),
{
    if r is Ok && r->Ok_0@.len() <= usize::MAX {
        law_transmission_is_chirp_gap_and_data::<M>(v, payload@, *cfg, r->Ok_0@);
    }
}

/// The loudest sample of a transmission is nine tenths of full scale.
pub proof fn law_peak_target<M: Arithmetic>(v: Exact<M>, t: M::Real)
    requires
        v.holds(),
        call_ensures(peak_target::<M>, (), t),
    ensures
        10real * v.of(t) == 9real,
{
    assert(v.of(t) == 9real / 10real);
}

/// The equalizer learns with a step of one fiftieth.
pub proof fn law_default_mu<M: Arithmetic>(v: Exact<M>, mu: M::Real)
    requires
        v.holds(),
        call_ensures(default_mu::<M>, (), mu),
    ensures
        50real * v.of(mu) == 1real,
{
    assert(v.of(mu) == 2real / 100real);
}

/// The receiver judges by the likeness to the chirp.
pub proof fn law_decode_samples_traced<M: Arithmetic>(
    v: Exact<M>,
    samples: &[M::Real],
    cfg: &Config<M>,
    r: (Result<Vec<u8>, DecodeError>, DecodeTrace<M>),
)
    requires
        v.holds(),
        call_ensures(decode_samples_traced::<M>, (samples, cfg), r),
    ensures
        exists|chirp: Seq<M::Real>|
            #[trigger] is_judged::<M>(v, *cfg, samples@, chirp, r.0, r.1),
{
    law_receiver_locks_on_the_most_alike_place::<M>(v, *cfg, samples@, r.0, r.1);
}

/// The data starts one chirp and two symbols after the refined start of the chirp.
pub proof fn law_locate_data<M: Arithmetic>(
    v: Exact<M>,
    hit: &ChirpHit<M>,
    chirp_len: usize,
    cfg: &Config<M>,
    at: M::Real,
)
    requires
        v.holds(),
        can_locate::<M>(*cfg),
        call_ensures(locate_data::<M>, (hit, chirp_len, cfg), at),
    ensures
        v.of(at) == (hit.start as real) + v.of(hit.sub_sample) + (chirp_len as real) + ((
        cfg.samples_per_symbol() * 2) as real),
{
    law_data_starts_after_chirp_and_gap::<M>(
        v,
        *hit,
        chirp_len as nat,
        cfg.samples_per_symbol(),
        at,
    );
}

/// The estimate of a channel is the mean of received symbol times conjugate target.
pub proof fn law_estimate_channel<M: Arithmetic>(
    v: Exact<M>,
    received: &[M::Symbol],
    targets: &[M::Symbol],
    n: nat,
    c: M::Symbol,
)
    requires
        v.holds(),
        n <= received@.len(),
        n <= targets@.len(),
        n == received@.len() || n == targets@.len(),
        0 < n <= usize::MAX,
        call_ensures(estimate_channel::<M>, (received, targets), c),
    ensures
        v.re(c) == total(n, match_re::<M>(v, received@, targets@)) / (n as real),
        v.im(c) == total(n, match_im::<M>(v, received@, targets@)) / (n as real),
{
    law_channel_estimate_is_a_mean::<M>(v, received@, targets@, n, c);
}

/// Bits become signs on the real axis.
pub proof fn law_modulate<M: Arithmetic>(
    v: Exact<M>,
    bits: &[u8],
    symbols: Vec<M::Symbol>,
    i: int,
)
    requires
        v.holds(),
        call_ensures(modulate::<M>, (bits,), symbols),
        0 <= i < bits@.len(),
    ensures
        symbols@.len() == bits@.len(),
        v.im(symbols@[i]) == 0real,
        v.re(symbols@[i]) == if bits@[i] == 0 {
            1real
        } else {
            -1real
        },
{
    law_bits_become_signs::<M>(v, bits@, i);
}

/// Symbols are read by the sign of their real part.
pub proof fn law_demodulate<M: Arithmetic>(
    v: Exact<M>,
    symbols: &[M::Symbol],
    bits: Vec<u8>,
    i: int,
)
    requires
        v.holds(),
        call_ensures(demodulate::<M>, (symbols,), bits),
        0 <= i < symbols@.len(),
    ensures
        bits@.len() == symbols@.len(),
        bits@[i] == if v.re(symbols@[i]) > 0real {
            0u8
        } else {
            1u8
        },
{
    law_slicer_reads_the_sign::<M>(v, symbols@[i], bits@[i]);
}

/// A symbol is read by the sign of its real part.
pub proof fn law_slice_symbol<M: Arithmetic>(v: Exact<M>, s: M::Symbol, b: u8)
    requires
        v.holds(),
        call_ensures(slice_symbol::<M>, (s,), b),
    ensures
        b == if v.re(s) > 0real {
            0u8
        } else {
            1u8
        },
{
    law_slicer_reads_the_sign::<M>(v, s, b);
}

/// Bytes become bits from the most significant on.
pub proof fn law_bytes_to_bits(bytes: &[u8], bits: Vec<u8>, i: int)
    requires
        call_ensures(bytes_to_bits, (bytes,), bits),
        0 <= i < bytes@.len(),
    ensures
        bits@.len() == 8 * bytes@.len(),
        bytes@[i] == 128 * bits@[8 * i] + 64 * bits@[8 * i + 1] + 32 * bits@[8 * i + 2] + 16
            * bits@[8 * i + 3] + 8 * bits@[8 * i + 4] + 4 * bits@[8 * i + 5] + 2 * bits@[8 * i + 6]
            + bits@[8 * i + 7],
{
    law_bits_run_from_the_most_significant(bytes@, i);
}

/// Samples are written as the nearest 16-bit integers.
pub proof fn law_to_pcm<M: Arithmetic>(
    v: Exact<M>,
    samples: &[M::Real],
    pcm: Vec<i16>,
    i: int,
)
    requires
        v.holds(),
        call_ensures(to_pcm::<M>, (samples,), pcm),
        0 <= i < samples@.len(),
    ensures
        pcm@.len() == samples@.len(),
        -32768real <= v.of(samples@[i]) * 32767real <= 32767real ==> -1real <= 2real * (v.of(
            samples@[i],
        ) * 32767real - (pcm@[i] as real)) <= 1real,
        v.of(samples@[i]) * 32767real >= 32767real ==> pcm@[i] == 32767,
        v.of(samples@[i]) * 32767real <= -32768real ==> pcm@[i] == -32768,
{
    law_written_sample_is_the_nearest::<M>(v, samples@[i], pcm@[i]);
}

/// The meter falls to four fifths.
pub proof fn law_decay<M: Arithmetic>(v: Exact<M>, level: M::Real, r: M::Real)
    requires
        v.holds(),
        call_ensures(decay::<M>, (level,), r),
    ensures
        5real * v.of(r) == 4real * v.of(level),
{
    law_meter_falls_to_four_fifths::<M>(v, level, r);
}

/// Levels are shown in decibels, -120 for next to nothing.
pub proof fn law_decibels<M: Arithmetic>(v: Exact<M>, level: M::Real, r: M::Real)
    requires
        v.holds(),
        call_ensures(decibels::<M>, (level,), r),
    ensures
        v.of(level) > 1real / 1_000_000real ==> v.of(r) == 20real * (v.log)(v.of(level)),
        v.of(level) <= 1real / 1_000_000real ==> v.of(r) == -120real,
{
    law_levels_are_shown_in_decibels::<M>(v, level, r);
}

/// The lock is held from the threshold on, and near from half of it on.
pub proof fn law_lock_state<M: Arithmetic>(
    v: Exact<M>,
    ratio: M::Real,
    threshold: M::Real,
    lock: Lock,
)
    requires
        v.holds(),
        call_ensures(lock_state::<M>, (ratio, threshold), lock),
    ensures
        lock == Lock::Locked <==> v.of(ratio) >= v.of(threshold),
        lock == Lock::Near <==> v.of(ratio) < v.of(threshold) && 2real * v.of(ratio) >= v.of(
            threshold,
        ),
{
    law_lock_is_judged_by_the_threshold::<M>(v, ratio, threshold, lock);
}

/// The axes of a constellation reach two and a half times the root mean square of its points.
pub proof fn law_constellation_scale<M: Arithmetic>(
    v: Exact<M>,
    points: &[M::Symbol],
    scale: M::Real,
)
    requires
        v.holds(),
        points@.len() <= usize::MAX,
        call_ensures(constellation_scale::<M>, (points,), scale),
    ensures
        points@.len() == 0 ==> v.of(scale) == 5real / 2real,
        points@.len() > 0 ==> v.of(scale) == max(
            (v.sqrt)(total(points@.len(), powers::<M>(v, points@)) / (points@.len() as real)),
            1real / 1_000_000real,
        ) * (5real / 2real),
{
    law_axes_reach_beyond_the_points::<M>(v, points@, scale);
}

/// Bits become bytes, eight at a time, the first the most significant; what is left over is
/// dropped.
pub proof fn law_bits_to_bytes(bits: &[u8], out: Vec<u8>, i: int)
    requires
        call_ensures(bits_to_bytes, (bits,), out),
        forall|k: int| 0 <= k < bits@.len() ==> #[trigger] bits@[k] <= 1,
        0 <= i < out@.len(),
    ensures
        8 * out@.len() <= bits@.len() < 8 * out@.len() + 8,
        out@[i] == 128 * bits@[8 * i] + 64 * bits@[8 * i + 1] + 32 * bits@[8 * i + 2] + 16
            * bits@[8 * i + 3] + 8 * bits@[8 * i + 4] + 4 * bits@[8 * i + 5] + 2 * bits@[8 * i + 6]
            + bits@[8 * i + 7],
{
    let n = out@.len() as int;
    let whole = bits@.subrange(0, 8 * n);
    assert(bytes_of(whole) =~= out@) by {
        assert forall|k: int| 0 <= k < n implies bytes_of(whole)[k] == out@[k] by {
            assert(whole.subrange(8 * k, 8 * k + 8) =~= bits@.subrange(8 * k, 8 * k + 8));
        }
    }
    law_bytes_roundtrip(whole);
    law_bits_run_from_the_most_significant(out@, i);
}

/// Integer samples of the first channel are read as parts of full scale, kept from -1 to 1.
pub proof fn law_from_pcm<M: Arithmetic>(
    v: Exact<M>,
    interleaved: &[i32],
    channels: usize,
    bits: u16,
    samples: Vec<M::Real>,
    i: int,
)
    requires
        v.holds(),
        channels > 0,
        2 <= bits <= 64,
        call_ensures(from_pcm::<M>, (interleaved, channels, bits), samples),
        0 <= i < samples@.len(),
    ensures
        ({
            let full = (pow2((bits - 1) as nat) - 1) as real;
            v.of(samples@[i]) == within(
                (interleaved@[channels * i] as real) * (1real / full),
                -1real,
                1real,
            )
        }),
        interleaved@.len() <= samples@.len() * channels < interleaved@.len() + channels,
{
    let full = (pow2((bits - 1) as nat) - 1) as u64;
    vstd::arithmetic::power2::lemma2_to64();
    vstd::arithmetic::power2::lemma2_to64_rest();
    if bits > 2 {
        vstd::arithmetic::power2::lemma_pow2_strictly_increases(1, (bits - 1) as nat);
    }
    if bits < 64 {
        vstd::arithmetic::power2::lemma_pow2_strictly_increases((bits - 1) as nat, 63);
    }
    assert(0 < full && full == pow2((bits - 1) as nat) - 1);
    law_mono_takes_the_first_channel(interleaved@, channels as int);
    let q = first_of_each(interleaved@, channels as int)[i];
    assert(q == interleaved@[channels * i]);
    law_read_sample_is_its_part_of_full_scale::<M>(v, q, full, samples@[i]);
}

/// Samples of the first channel are kept from -1 to 1.
pub proof fn law_from_reals<M: Arithmetic>(
    v: Exact<M>,
    interleaved: &[M::Real],
    channels: usize,
    samples: Vec<M::Real>,
    i: int,
)
    requires
        v.holds(),
        channels > 0,
        call_ensures(from_reals::<M>, (interleaved, channels), samples),
        0 <= i < samples@.len(),
    ensures
        v.of(samples@[i]) == within(v.of(interleaved@[channels * i]), -1real, 1real),
        interleaved@.len() <= samples@.len() * channels < interleaved@.len() + channels,
{
    law_mono_takes_the_first_channel(interleaved@, channels as int);
    let x = first_of_each(interleaved@, channels as int)[i];
    assert(x == interleaved@[channels * i]);
    let low = choose|low: M::Real|
        call_ensures(M::negated, (M::ONE,), low) && #[trigger] clamped::<M>(
            x,
            low,
            M::ONE,
            samples@[i],
        );
    assert(limited::<M>(x, samples@[i]));
    lemma_clamped::<M>(v, x, low, M::ONE, samples@[i]);
}

/// A payload is framed as the layout of a packet says, and one of more than 65535 bytes is refused.
pub proof fn law_encode(payload: &[u8], modulation: Modulation, r: Result<Vec<u8>, FrameError>)
    requires
        call_ensures(encode, (payload, modulation), r),
    ensures
        r is Ok <==> payload@.len() <= 65_535,
        r is Ok ==> {
            let e = r->Ok_0@;
            let n = payload@.len() as int;
            &&& e.len() == 27 + n
            &&& e.subrange(0, 16) == TRAINING_SEQUENCE@
            &&& e[16] == 0x1A && e[17] == 0xCF && e[18] == 0xFC && e[19] == 0x1D
            &&& two_bytes(e, 20) == n
            &&& e[22] == 0
            &&& e.subrange(23, 23 + n) == payload@
            &&& four_bytes(e, 23 + n) == crc32_iso_hdlc(e.subrange(20, 23 + n))
        },
        r is Err ==> r->Err_0 == FrameError::PayloadTooLarge(payload@.len() as usize),
{
    if payload@.len() <= 65_535 {
        law_packet_layout(payload@, modulation);
    }
}

/// A packet with nothing wrong gives its payload, and how many bytes it took.
pub proof fn law_decode(bytes: &[u8], r: Result<(DecodedFrame, usize), FrameError>)
    requires
        bytes@.len() <= usize::MAX,
        call_ensures(decode, (bytes,), r),
    ensures
        r is Ok <==> {
            let n = two_bytes(bytes@, 20);
            &&& bytes@.len() >= 27
            &&& bytes@.subrange(0, 16) == TRAINING_SEQUENCE@
            &&& bytes@[16] == 0x1A && bytes@[17] == 0xCF && bytes@[18] == 0xFC && bytes@[19] == 0x1D
            &&& bytes@[22] == 0
            &&& bytes@.len() >= 27 + n
            &&& four_bytes(bytes@, 23 + n) == crc32_iso_hdlc(bytes@.subrange(20, 23 + n))
        },
        r is Ok ==> {
            let n = two_bytes(bytes@, 20);
            &&& r->Ok_0.0.payload@ == bytes@.subrange(23, 23 + n)
            &&& r->Ok_0.1 == 27 + n
        },
{
    law_first_fault_is_told(bytes@);
}

/// Sorting keeps the values and puts them into rising order.
pub proof fn law_sort<M: Arithmetic>(v: Exact<M>, s: &[M::Real], out: Vec<M::Real>, i: int, j: int)
    requires
        v.holds(),
        call_ensures(sort::<M>, (s,), out),
        0 <= i <= j < out@.len(),
    ensures
        out@.to_multiset() == s@.to_multiset(),
        v.of(out@[i]) <= v.of(out@[j]),
{
    lemma_rises::<M>(v, out@, i, j);
}

/// A buffer holds the samples of its length in seconds.
pub proof fn law_buffer_limit<M: Arithmetic>(
    v: Exact<M>,
    seconds: u64,
    sample_rate: u32,
    n: usize,
)
    requires
        v.holds(),
        call_ensures(buffer_limit::<M>, (seconds, sample_rate), n),
    ensures
        n as real <= (seconds as real) * (sample_rate as real) < (n as real) + 1real,
{
    law_buffer_holds_its_seconds::<M>(v, seconds, sample_rate, n);
}

} // verus!
