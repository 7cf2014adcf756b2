//! Laws of the receiver as a whole over exact arithmetic.

use vstd::prelude::*;

use crate::arith::Arithmetic;
use crate::bpsk::{demodulated, modulated};
use crate::carrier::lowered;
use crate::chirp::{found, is_chirp, ChirpHit};
use crate::config::Config;
use crate::equalizer::{channel_estimate, Dfe};
use crate::exact::{lemma_same_total, squares, total, Exact};
use crate::frame::{bits_of, bytes_of, decoded, TRAINING_SEQUENCE};
use crate::pulse::rrc_filter;
use crate::receiver_laws::{
    is_whole, law_aligning_divides_by_the_estimate, law_best_phase_has_the_most_energy,
    law_channel_estimate_is_a_mean, law_data_starts_after_chirp_and_gap,
    law_detector_finds_the_most_alike_place, law_peak_ratio_is_likeness_by_energy,
    law_slicer_reads_the_sign, law_symbols_are_read_at_their_places, likeness, match_im, match_re,
    place, symbol_energies,
};
use crate::rx::{
    attempted, data_position, equalized, equalized_from, followed, heard, leads_on, lock_on,
    matched, nominal_symbols, received, sampled, sought, tells, understood, DecodeError,
    DecodeTrace,
};
use crate::shape_laws::{law_filtering_is_convolution, pulse_part};
use crate::signal_laws::{angle, law_downconversion_turns_back};

verus! {

/// What sample `i` of the passband adds to the real part of sample `m` of the matched filter's
/// output, for a carrier with the waves `wave`.
pub open spec fn filter_part<M: Arithmetic>(
    v: Exact<M>,
    wave: spec_fn(real) -> real,
    sign: real,
    cfg: Config<M>,
    passband: Seq<M::Real>,
    fs: M::Real,
    taps: Seq<M::Real>,
    m: int,
) -> spec_fn(int) -> real {
    |i: int|
        {
            let since = m - i;
            if 0 <= since < taps.len() {
                sign * v.of(passband[i]) * wave(angle::<M>(v, cfg.carrier_hz, fs, i)) * v.of(
                    taps[since],
                )
            } else {
                0real
            }
        }
}

/// `filtered` is the passband, turned back by the carrier and sent through the filter `taps`.
pub open spec fn is_filtered<M: Arithmetic>(
    v: Exact<M>,
    cfg: Config<M>,
    passband: Seq<M::Real>,
    fs: M::Real,
    taps: Seq<M::Real>,
    filtered: Seq<M::Symbol>,
) -> bool {
    &&& v.of(fs) == cfg.sample_rate as real
    &&& rrc_filter::<M>(
        cfg.samples_per_symbol() as usize,
        cfg.rrc_span_symbols,
        cfg.rrc_beta,
        taps,
    )
    &&& filtered.len() == passband.len() + taps.len() - 1
    &&& forall|m: int|
        0 <= m < filtered.len() ==> v.re(#[trigger] filtered[m]) == total(
            passband.len(),
            filter_part::<M>(v, v.cos, 1real, cfg, passband, fs, taps, m),
        ) && v.im(filtered[m]) == total(
            passband.len(),
            filter_part::<M>(v, v.sin, -1real, cfg, passband, fs, taps, m),
        )
}

proof fn lemma_matched<M: Arithmetic>(
    v: Exact<M>,
    cfg: Config<M>,
    passband: Seq<M::Real>,
    fs: M::Real,
    baseband: Seq<M::Symbol>,
    taps: Seq<M::Real>,
    filtered: Seq<M::Symbol>,
)
    requires
        v.holds(),
        cfg.sample_rate > 0,
        passband.len() <= usize::MAX,
        matched::<M>(cfg, passband, fs, baseband, taps, filtered),
    ensures
        is_filtered::<M>(v, cfg, passband, fs, taps, filtered),
{
    let n = passband.len();
    assert(lowered::<M>(passband, cfg.carrier_hz, fs, baseband));
    assert forall|i: int| 0 <= i < n implies v.re(#[trigger] baseband[i]) == v.of(passband[i]) * (
    v.cos)(angle::<M>(v, cfg.carrier_hz, fs, i)) && v.im(baseband[i]) == -v.of(passband[i]) * (
    v.sin)(angle::<M>(v, cfg.carrier_hz, fs, i)) by {
        law_downconversion_turns_back::<M>(v, passband, cfg.carrier_hz, fs, baseband, i);
    }
    assert(baseband.len() == n);
    assert forall|m: int| 0 <= m < filtered.len() implies v.re(#[trigger] filtered[m]) == total(
        n,
        filter_part::<M>(v, v.cos, 1real, cfg, passband, fs, taps, m),
    ) && v.im(filtered[m]) == total(
        n,
        filter_part::<M>(v, v.sin, -1real, cfg, passband, fs, taps, m),
    ) by {
        law_filtering_is_convolution::<M>(v, baseband, taps, filtered, m);
        let (f, g) = (
            pulse_part::<M>(v, v.re, baseband, 1, taps, m),
            filter_part::<M>(v, v.cos, 1real, cfg, passband, fs, taps, m),
        );
        assert forall|i: int| 0 <= i < n implies #[trigger] f(i) == g(i) by {
            let s = baseband[i];
            assert((v.re)(s) == v.re(s));
            assert(1real * v.of(passband[i]) == v.of(passband[i]));
        }
        lemma_same_total(n, f, g);
        let (p, q) = (
            pulse_part::<M>(v, v.im, baseband, 1, taps, m),
            filter_part::<M>(v, v.sin, -1real, cfg, passband, fs, taps, m),
        );
        assert forall|i: int| 0 <= i < n implies #[trigger] p(i) == q(i) by {
            let s = baseband[i];
            assert((v.im)(s) == v.im(s));
            assert(-1real * v.of(passband[i]) == -v.of(passband[i]));
        }
        lemma_same_total(n, p, q);
    }
}

/// `trace` tells the phase and the symbols that were read from `filtered`: among the phases within
/// half a symbol of the delay of both filters, the one with the most energy; from there on one
/// symbol after the other, as far as the signal goes.
pub open spec fn reads_symbols<M: Arithmetic>(
    v: Exact<M>,
    cfg: Config<M>,
    filtered: Seq<M::Symbol>,
    frac: M::Real,
    trace: DecodeTrace<M>,
) -> bool {
    let sps = cfg.samples_per_symbol() as int;
    let delay = sps * cfg.rrc_span_symbols;
    let n = nominal_symbols(filtered.len(), delay as nat, sps as nat);
    let best = trace.best_phase_offset as int;
    let raw = trace.pre_eq_symbols@;
    &&& -(sps / 2) <= best <= sps / 2
    &&& forall|o: int|
        -(sps / 2) <= o <= sps / 2 ==> total(
            n,
            #[trigger] symbol_energies::<M>(v, filtered, delay + o, frac, sps),
        ) <= total(n, symbol_energies::<M>(v, filtered, delay + best, frac, sps))
    &&& raw.len() <= n
    &&& forall|k: int, i: int|
        0 <= k < raw.len() && #[trigger] is_whole(
            i,
            place::<M>(v, delay + best, frac, sps, k),
        ) ==> {
            let f = place::<M>(v, delay + best, frac, sps, k) - (i as real);
            &&& 0 <= i < filtered.len() - 1
            &&& v.re(raw[k]) == v.re(filtered[i]) * (1real - f) + v.re(filtered[i + 1]) * f
            &&& v.im(raw[k]) == v.im(filtered[i]) * (1real - f) + v.im(filtered[i + 1]) * f
        }
    &&& raw.len() < n ==> forall|i: int| #[trigger]
        is_whole(i, place::<M>(v, delay + best, frac, sps, raw.len() as int)) ==> i < 0 || i + 1
            >= filtered.len()
}

/// What is heard behind the chirp is turned back by the carrier, sent through the matched filter,
/// and read symbol by symbol at the phase with the most energy.
pub proof fn law_receiver_reads_at_the_best_phase<M: Arithmetic>(
    v: Exact<M>,
    cfg: Config<M>,
    passband: Seq<M::Real>,
    frac: M::Real,
    result: Result<Vec<u8>, DecodeError>,
    trace: DecodeTrace<M>,
)
    requires
        v.holds(),
        cfg.sample_rate > 0,
        cfg.samples_per_symbol() > 0,
        passband.len() + cfg.samples_per_symbol() * cfg.rrc_span_symbols + 1 <= usize::MAX,
        cfg.samples_per_symbol() * cfg.rrc_span_symbols + cfg.samples_per_symbol() <= i32::MAX,
        heard::<M>(cfg, passband, frac, result, trace),
    ensures
        exists|fs: M::Real, taps: Seq<M::Real>, filtered: Seq<M::Symbol>|
            #[trigger] is_filtered::<M>(v, cfg, passband, fs, taps, filtered) && reads_symbols::<M>(
                v,
                cfg,
                filtered,
                frac,
                trace,
            ),
{
    let (fs, baseband, taps, filtered) = choose|
        fs: M::Real,
        baseband: Seq<M::Symbol>,
        taps: Seq<M::Real>,
        filtered: Seq<M::Symbol>,
    |
        #[trigger] matched::<M>(cfg, passband, fs, baseband, taps, filtered) && understood::<M>(
            cfg,
            filtered,
            frac,
            result,
            trace,
        );
    lemma_matched::<M>(v, cfg, passband, fs, baseband, taps, filtered);
    let sps = cfg.samples_per_symbol() as int;
    let delay = sps * cfg.rrc_span_symbols;
    let n = nominal_symbols(filtered.len(), delay as nat, sps as nat);
    assert(delay >= 0) by (nonlinear_arith)
        requires
            delay == sps * cfg.rrc_span_symbols,
            sps > 0,
    ;
    assert(taps.len() == delay + 1);
    assert(n * sps <= usize::MAX) by {
        crate::stream_laws::law_symbols_fit_behind_the_delay(
            filtered.len(),
            delay as nat,
            sps as nat,
        );
        if n == 0 {
            assert(n * sps == 0) by (nonlinear_arith)
                requires
                    n == 0,
            ;
        }
    }
    let best = trace.best_phase_offset as int;
    law_best_phase_has_the_most_energy::<M>(v, filtered, delay, sps / 2, frac, sps, n, best);
    let raw = trace.pre_eq_symbols@;
    assert(sampled::<M>(filtered, delay + best, frac, sps, n, raw));
    assert forall|k: int, i: int|
        0 <= k < raw.len() && #[trigger] is_whole(
            i,
            place::<M>(v, delay + best, frac, sps, k),
        ) implies {
        let f = place::<M>(v, delay + best, frac, sps, k) - (i as real);
        &&& 0 <= i < filtered.len() - 1
        &&& v.re(raw[k]) == v.re(filtered[i]) * (1real - f) + v.re(filtered[i + 1]) * f
        &&& v.im(raw[k]) == v.im(filtered[i]) * (1real - f) + v.im(filtered[i + 1]) * f
    } by {
        assert(0 <= k * sps <= n * sps) by (nonlinear_arith)
            requires
                0 <= k < n,
                sps > 0,
        ;
        let s = raw[k];
        law_symbols_are_read_at_their_places::<M>(
            v,
            filtered,
            delay + best,
            frac,
            sps,
            k,
            i,
            Some(raw[k]),
        );
    }
    if raw.len() < n {
        let k = raw.len() as int;
        assert forall|i: int| #[trigger]
            is_whole(i, place::<M>(v, delay + best, frac, sps, k)) implies i < 0 || i + 1
            >= filtered.len() by {
            assert(0 <= k * sps <= n * sps) by (nonlinear_arith)
                requires
                    0 <= k < n,
                    sps > 0,
            ;
            law_symbols_are_read_at_their_places::<M>(
                v,
                filtered,
                delay + best,
                frac,
                sps,
                k,
                i,
                None,
            );
        }
    }
    assert(reads_symbols::<M>(v, cfg, filtered, frac, trace));
}

/// The bits that the signs of the symbols stand for.
pub open spec fn sign_bits<M: Arithmetic>(v: Exact<M>, symbols: Seq<M::Symbol>) -> Seq<u8> {
    Seq::new(
        symbols.len(),
        |i: int|
            if v.re(symbols[i]) > 0real {
                0u8
            } else {
                1u8
            },
    )
}

/// What the receiver delivers is the payload of the packet that the signs of the equalized symbols
/// spell, or what is wrong with that packet.
pub proof fn law_receiver_delivers_what_the_signs_spell<M: Arithmetic>(
    v: Exact<M>,
    cfg: Config<M>,
    passband: Seq<M::Real>,
    frac: M::Real,
    result: Result<Vec<u8>, DecodeError>,
    trace: DecodeTrace<M>,
)
    requires
        v.holds(),
        heard::<M>(cfg, passband, frac, result, trace),
    ensures
        match (decoded(bytes_of(sign_bits::<M>(v, trace.symbols@))), result) {
            (Ok(reading), Ok(payload)) => payload@ == reading.payload,
            (Err(fault), Err(e)) => e == DecodeError::Frame(fault),
            _ => false,
        },
        equalized::<M>(trace.pre_eq_symbols@, trace.symbols@),
{
    let (fs, baseband, taps, filtered) = choose|
        fs: M::Real,
        baseband: Seq<M::Symbol>,
        taps: Seq<M::Real>,
        filtered: Seq<M::Symbol>,
    |
        #[trigger] matched::<M>(cfg, passband, fs, baseband, taps, filtered) && understood::<M>(
            cfg,
            filtered,
            frac,
            result,
            trace,
        );
    let bits = choose|bits: Seq<u8>|
        #[trigger] demodulated::<M>(trace.symbols@, bits) && tells(result, bits);
    assert forall|i: int| 0 <= i < bits.len() implies bits[i] == sign_bits::<M>(
        v,
        trace.symbols@,
    )[i] by {
        law_slicer_reads_the_sign::<M>(v, trace.symbols@[i], bits[i]);
    }
    assert(bits =~= sign_bits::<M>(v, trace.symbols@));
}

/// The known symbols that every packet starts with.
pub open spec fn known<M: Arithmetic>() -> Seq<M::Symbol> {
    modulated::<M>(bits_of(TRAINING_SEQUENCE@))
}

/// The equalizer starts from symbols divided by the channel, which is estimated from the first 16
/// symbols, with nine taps of which the middle one is 1, seven feedback taps of zero and a step of
/// one fiftieth, and it trains on 128 symbols.
pub open spec fn is_set_up<M: Arithmetic>(
    v: Exact<M>,
    raw: Seq<M::Symbol>,
    c: M::Symbol,
    straight: Seq<M::Symbol>,
    dfe: Dfe<M>,
    after: Dfe<M>,
    out: Seq<M::Symbol>,
) -> bool {
    let n: nat = if raw.len() < 16 {
        raw.len()
    } else {
        16
    };
    &&& n > 0 ==> v.re(c) == total(n, match_re::<M>(v, raw, known::<M>())) / (n as real)
    &&& n > 0 ==> v.im(c) == total(n, match_im::<M>(v, raw, known::<M>())) / (n as real)
    &&& straight.len() == raw.len()
    &&& v.norm(c) >= 1real / 1_000_000_000_000real ==> forall|i: int|
        0 <= i < raw.len() ==> v.is_product(#[trigger] straight[i], c, raw[i])
    &&& v.norm(c) < 1real / 1_000_000_000_000real ==> straight == raw
    &&& dfe.h_ff@.len() == 9
    &&& dfe.h_fb@.len() == 7
    &&& forall|j: int|
        0 <= j < 9 ==> v.im(#[trigger] dfe.h_ff@[j]) == 0real && v.re(dfe.h_ff@[j]) == if j == 4 {
            1real
        } else {
            0real
        }
    &&& forall|j: int|
        0 <= j < 7 ==> v.re(#[trigger] dfe.h_fb@[j]) == 0real && v.im(dfe.h_fb@[j]) == 0real
    &&& 50real * v.of(dfe.mu) == 1real
    &&& dfe.processed(straight, known::<M>(), 128, after, out)
}

/// The equalizer is set up as described, for whatever symbols were read.
pub proof fn law_equalizer_is_set_up<M: Arithmetic>(
    v: Exact<M>,
    raw: Seq<M::Symbol>,
    out: Seq<M::Symbol>,
)
    requires
        v.holds(),
        equalized::<M>(raw, out),
    ensures
        exists|c: M::Symbol, straight: Seq<M::Symbol>, dfe: Dfe<M>, after: Dfe<M>|
            #[trigger] is_set_up::<M>(v, raw, c, straight, dfe, after, out),
{
    let (c, straight, dfe, after) = choose|
        c: M::Symbol,
        straight: Seq<M::Symbol>,
        dfe: Dfe<M>,
        after: Dfe<M>,
    |
        #[trigger] equalized_from::<M>(raw, c, straight, dfe, after, out);
    let n: nat = if raw.len() < 16 {
        raw.len()
    } else {
        16
    };
    let (head, sent) = (raw.subrange(0, n as int), known::<M>().subrange(0, n as int));
    assert(known::<M>().len() == 128);
    assert(channel_estimate::<M>(head, sent, c));
    law_channel_estimate_is_a_mean::<M>(v, head, sent, n, c);
    let (f, g) = (match_re::<M>(v, head, sent), match_re::<M>(v, raw, known::<M>()));
    assert forall|i: int| 0 <= i < n implies #[trigger] f(i) == g(i) by {
        assert(head[i] == raw[i] && sent[i] == known::<M>()[i]);
    }
    lemma_same_total(n, f, g);
    let (p, q) = (match_im::<M>(v, head, sent), match_im::<M>(v, raw, known::<M>()));
    assert forall|i: int| 0 <= i < n implies #[trigger] p(i) == q(i) by {
        assert(head[i] == raw[i] && sent[i] == known::<M>()[i]);
    }
    lemma_same_total(n, p, q);
    law_aligning_divides_by_the_estimate::<M>(v, raw, c, straight);
    assert(v.of(dfe.mu) == 2real / 100real);
    assert(is_set_up::<M>(v, raw, c, straight, dfe, after, out));
}

/// `chirp` decides on `result` and `trace`: without a place that is like the chirp at all, or with
/// a likeness below the threshold's part of the chirp's energy, no chirp was found.
pub open spec fn is_judged<M: Arithmetic>(
    v: Exact<M>,
    cfg: Config<M>,
    samples: Seq<M::Real>,
    chirp: Seq<M::Real>,
    result: Result<Vec<u8>, DecodeError>,
    trace: DecodeTrace<M>,
) -> bool {
    let energy = total(chirp.len(), squares::<M>(v, chirp));
    let last = samples.len() - chirp.len();
    let ratio = v.of(trace.chirp_peak_ratio);
    &&& is_chirp::<M>(cfg, chirp)
    &&& {
        ||| {
            &&& result == Err::<Vec<u8>, DecodeError>(DecodeError::ChirpNotFound)
            &&& ratio == 0real
            &&& forall|i: int|
                0 <= i <= last ==> #[trigger] likeness::<M>(v, samples, chirp, i) <= 0real
        }
        ||| exists|hit: ChirpHit<M>|
            {
                &&& 0 <= hit.start <= last
                &&& forall|i: int|
                    0 <= i <= last ==> #[trigger] likeness::<M>(v, samples, chirp, i) <= likeness::<
                        M,
                    >(v, samples, chirp, hit.start as int)
                &&& v.of(trace.chirp_sub_sample) == v.of(hit.sub_sample)
                &&& energy > 0real ==> ratio * energy == likeness::<M>(
                    v,
                    samples,
                    chirp,
                    hit.start as int,
                )
                &&& ratio < v.of(cfg.chirp_detect_threshold) ==> result == Err::<
                    Vec<u8>,
                    DecodeError,
                >(DecodeError::ChirpNotFound)
                &&& ratio >= v.of(cfg.chirp_detect_threshold) ==> #[trigger] followed::<M>(
                    cfg,
                    samples,
                    chirp.len(),
                    hit,
                    result,
                    trace,
                )
            }
    }
}

/// The receiver judges by the likeness to the chirp, and goes on behind the place that is most
/// like it.
pub proof fn law_receiver_locks_on_the_most_alike_place<M: Arithmetic>(
    v: Exact<M>,
    cfg: Config<M>,
    samples: Seq<M::Real>,
    result: Result<Vec<u8>, DecodeError>,
    trace: DecodeTrace<M>,
)
    requires
        v.holds(),
        received::<M>(cfg, samples, result, trace),
    ensures
        exists|chirp: Seq<M::Real>|
            #[trigger] is_judged::<M>(v, cfg, samples, chirp, result, trace),
{
    let (chirp, hit) = choose|chirp: Seq<M::Real>, hit: Option<ChirpHit<M>>|
        {
            &&& is_chirp::<M>(cfg, chirp)
            &&& found::<M>(samples, chirp, M::ZERO, hit)
            &&& #[trigger] attempted::<M>(cfg, samples, chirp, hit, result, trace)
        };
    let energy = total(chirp.len(), squares::<M>(v, chirp));
    lemma_none_of(energy, v.of(M::ZERO));
    if chirp.len() <= samples.len() {
        law_detector_finds_the_most_alike_place::<M>(v, samples, chirp, M::ZERO, hit);
    }
    match hit {
        None => {},
        Some(h) => {
            law_peak_ratio_is_likeness_by_energy::<M>(v, h, trace.chirp_peak_ratio);
            if v.of(trace.chirp_peak_ratio) >= v.of(cfg.chirp_detect_threshold) {
                assert(followed::<M>(cfg, samples, chirp.len(), h, result, trace));
            } else {
                let g = followed::<M>(cfg, samples, chirp.len(), h, result, trace);
            }
        },
    }
    assert(is_judged::<M>(v, cfg, samples, chirp, result, trace));
}

/// `lock` tells whether the likeness to `chirp` reaches the threshold, where it is greatest, and
/// how long the chirp is.
pub open spec fn is_lock<M: Arithmetic>(
    v: Exact<M>,
    cfg: Config<M>,
    samples: Seq<M::Real>,
    chirp: Seq<M::Real>,
    lock: Option<(ChirpHit<M>, usize)>,
    trace: DecodeTrace<M>,
) -> bool {
    let energy = total(chirp.len(), squares::<M>(v, chirp));
    let last = samples.len() - chirp.len();
    let ratio = v.of(trace.chirp_peak_ratio);
    &&& is_chirp::<M>(cfg, chirp)
    &&& lock is Some ==> ratio >= v.of(cfg.chirp_detect_threshold)
    &&& lock is None ==> ratio < v.of(cfg.chirp_detect_threshold) || forall|i: int|
        0 <= i <= last ==> #[trigger] likeness::<M>(v, samples, chirp, i) <= 0real
    &&& lock is Some ==> {
        let (hit, n) = lock->0;
        let peak = likeness::<M>(v, samples, chirp, hit.start as int);
        &&& n == chirp.len()
        &&& 0 <= hit.start <= last
        &&& forall|i: int| 0 <= i <= last ==> #[trigger] likeness::<M>(v, samples, chirp, i) <= peak
        &&& energy > 0real ==> ratio * energy == peak
    }
}

/// The receiver holds a lock if the likeness to the chirp reaches the threshold's part of the
/// chirp's energy, at the place where it is greatest.
pub proof fn law_lock_on<M: Arithmetic>(
    v: Exact<M>,
    samples: &[M::Real],
    cfg: &Config<M>,
    r: (Option<(ChirpHit<M>, usize)>, DecodeTrace<M>),
)
    requires
        v.holds(),
        call_ensures(lock_on::<M>, (samples, cfg), r),
    ensures
        exists|chirp: Seq<M::Real>| #[trigger]
            is_lock::<M>(v, *cfg, samples@, chirp, r.0, r.1),
{
    let (chirp, hit) = choose|chirp: Seq<M::Real>, hit: Option<ChirpHit<M>>|
        #[trigger] sought::<M>(*cfg, samples@, chirp, hit, r.0, r.1);
    let energy = total(chirp.len(), squares::<M>(v, chirp));
    lemma_none_of(energy, v.of(M::ZERO));
    if chirp.len() <= samples@.len() {
        law_detector_finds_the_most_alike_place::<M>(v, samples@, chirp, M::ZERO, hit);
    }
    if hit is Some {
        law_peak_ratio_is_likeness_by_energy::<M>(v, hit->0, r.1.chirp_peak_ratio);
    }
    assert(is_lock::<M>(v, *cfg, samples@, chirp, r.0, r.1));
}

proof fn lemma_none_of(x: real, z: real)
    by (nonlinear_arith)
    requires
        z == 0real,
    ensures
        x * z == 0real,
{
}

/// The data is read from the sample just before its place on, with the rest as a fraction; a place
/// behind the last sample means that the signal was cut off.
pub proof fn law_data_is_read_from_its_place<M: Arithmetic>(
    v: Exact<M>,
    cfg: Config<M>,
    samples: Seq<M::Real>,
    chirp_len: nat,
    hit: ChirpHit<M>,
    result: Result<Vec<u8>, DecodeError>,
    trace: DecodeTrace<M>,
)
    requires
        v.holds(),
        chirp_len <= usize::MAX,
        cfg.samples_per_symbol() * 2 <= usize::MAX,
        (hit.start as real) + v.of(hit.sub_sample) >= 0real,
        followed::<M>(cfg, samples, chirp_len, hit, result, trace),
    ensures
        ({
            let at = (hit.start as real) + v.of(hit.sub_sample) + (chirp_len as real) + ((
            cfg.samples_per_symbol() * 2) as real);
            exists|start: int|
                #[trigger] is_whole(start, at) && if start >= samples.len() {
                    result == Err::<Vec<u8>, DecodeError>(DecodeError::Truncated)
                } else {
                    exists|frac: M::Real|
                        v.of(frac) == at - (start as real) && #[trigger] heard::<M>(
                            cfg,
                            samples.subrange(start, samples.len() as int),
                            frac,
                            result,
                            trace,
                        )
                }
        }),
{
    let sps = cfg.samples_per_symbol();
    let (at, start) = choose|at: M::Real, start: usize|
        {
            &&& data_position::<M>(hit, chirp_len, sps, at)
            &&& #[trigger] call_ensures(M::floor, (at,), start)
            &&& leads_on::<M>(cfg, samples, at, start, result, trace)
        };
    law_data_starts_after_chirp_and_gap::<M>(v, hit, chirp_len, sps, at);
    assert(is_whole(start as int, v.of(at)));
    if start < samples.len() {
        let (whole, frac) = choose|whole: M::Real, frac: M::Real|
            {
                &&& call_ensures(M::count, (start,), whole)
                &&& #[trigger] call_ensures(M::minus, (at, whole), frac)
                &&& heard::<M>(
                    cfg,
                    samples.subrange(start as int, samples.len() as int),
                    frac,
                    result,
                    trace,
                )
            };
        assert(v.of(frac) == v.of(at) - (start as real));
    }
}

} // verus!
