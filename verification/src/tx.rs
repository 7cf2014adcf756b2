//! From a payload to samples.

use vstd::prelude::*;

use crate::arith::{
    filled, lemma_reached_next, lemma_reached_none, reached, Arithmetic,
};
use crate::bpsk::{modulate, modulated};
use crate::carrier::{raised, upconvert};
use crate::chirp::{is_chirp, make_chirp};
use crate::config::Config;
use crate::frame::{
    bits_of, bytes_to_bits, encode, encoded, FrameError, MAX_PAYLOAD, OVERHEAD,
};
use crate::pulse::{pulse_train, rrc_filter, rrc_taps, upsample_and_filter};

verus! {

/// Inter-burst gap between the chirp tail and the start of the modulated data, in symbols. Gives
/// the chirp's Hann window time to ring out before data begins.
pub const POST_CHIRP_GAP_SYMBOLS: usize = 2;

/// Target peak amplitude for the final waveform, 0.9 of digital full-scale. Leaves a little
/// headroom.
pub fn peak_target<M: Arithmetic>() -> (t: M::Real)
    ensures
        call_ensures(M::fraction, (9, 10), t),
{
    M::fraction(9, 10)
}

/// Step `i` moves on to the magnitude of sample `i` if it is larger.
pub open spec fn loudest_step<M: Arithmetic>(x: Seq<M::Real>) -> spec_fn(
    int,
    M::Real,
    M::Real,
) -> bool {
    |i: int, a: M::Real, b: M::Real|
        exists|m: M::Real|
            call_ensures(M::magnitude, (x[i],), m) && #[trigger] call_ensures(
                M::larger,
                (a, m),
                b,
            )
}

/// `out` is `x` scaled so that its loudest sample `peak` becomes `target`; a silent signal stays
/// as it is.
pub open spec fn levelled_by<M: Arithmetic>(
    x: Seq<M::Real>,
    target: M::Real,
    peak: M::Real,
    out: Seq<M::Real>,
) -> bool {
    &&& reached(loudest_step::<M>(x), x.len(), M::ZERO, peak)
    &&& {
        ||| call_ensures(M::exceeds, (peak, M::ZERO), false) && out == x
        ||| call_ensures(M::exceeds, (peak, M::ZERO), true) && exists|scale: M::Real|
            {
                &&& #[trigger] call_ensures(M::over, (target, peak), scale)
                &&& out.len() == x.len()
                &&& forall|i: int|
                    0 <= i < x.len() ==> call_ensures(M::times, (x[i], scale), #[trigger] out[i])
            }
    }
}

/// `out` is `x` brought to the peak `target`.
pub open spec fn levelled<M: Arithmetic>(
    x: Seq<M::Real>,
    target: M::Real,
    out: Seq<M::Real>,
) -> bool {
    exists|peak: M::Real| #[trigger] levelled_by::<M>(x, target, peak, out)
}

/// Scales `samples` so that the loudest becomes `target`.
pub fn normalize_peak<M: Arithmetic>(samples: &mut Vec<M::Real>, target: M::Real)
    ensures
        levelled::<M>(old(samples)@, target, final(samples)@),
{
    let ghost x = samples@;
    let n: usize = samples.len();
    let ghost step = loudest_step::<M>(x);
    let mut peak = M::ZERO;
    proof {
        lemma_reached_none(step, peak);
    }
    let mut i: usize = 0;
    while i < n
        invariant
            i <= n == x.len(),
            samples@ == x,
            step == loudest_step::<M>(x),
            reached(step, i as nat, M::ZERO, peak),
        decreases n - i,
    {
        let m = M::magnitude(samples[i]);
        let more = M::larger(peak, m);
        proof {
            assert(call_ensures(M::larger, (peak, m), more));
            assert(step(i as int, peak, more));
            lemma_reached_next(step, i as nat, M::ZERO, peak, more);
        }
        peak = more;
        i = i + 1;
    }
    if M::exceeds(peak, M::ZERO) {
        let scale = M::over(target, peak);
        assert(call_ensures(M::over, (target, peak), scale));
        let mut k: usize = 0;
        while k < n
            invariant
                k <= n == x.len(),
                samples@.len() == n,
                forall|j: int|
                    0 <= j < k ==> call_ensures(M::times, (x[j], scale), #[trigger] samples@[j]),
                forall|j: int| k <= j < n ==> #[trigger] samples@[j] == x[j],
            decreases n - k,
        {
            let s = M::times(samples[k], scale);
            samples.set(k, s);
            k = k + 1;
        }
    }
    assert(levelled_by::<M>(x, target, peak, samples@));
}

/// The bits that are sent for `payload`.
pub open spec fn sent_bits<M: Arithmetic>(payload: Seq<u8>, cfg: Config<M>) -> Seq<u8> {
    bits_of(encoded(payload, cfg.modulation))
}

/// `passband` carries the bits of `payload`.
pub open spec fn carries<M: Arithmetic>(
    payload: Seq<u8>,
    cfg: Config<M>,
    passband: Seq<M::Real>,
) -> bool {
    exists|taps: Seq<M::Real>, baseband: Seq<M::Symbol>, fs: M::Real|
        {
            &&& rrc_filter::<M>(
                cfg.samples_per_symbol() as usize,
                cfg.rrc_span_symbols,
                cfg.rrc_beta,
                taps,
            )
            &&& #[trigger] pulse_train::<M>(
                modulated::<M>(sent_bits::<M>(payload, cfg)),
                cfg.samples_per_symbol() as int,
                taps,
                baseband,
            )
            &&& call_ensures(M::count, (cfg.sample_rate as usize,), fs)
            &&& #[trigger] raised::<M>(baseband, cfg.carrier_hz, fs, passband)
        }
}

/// The silence between chirp and data.
pub open spec fn gap<M: Arithmetic>(cfg: Config<M>) -> Seq<M::Real> {
    Seq::new(cfg.samples_per_symbol() * POST_CHIRP_GAP_SYMBOLS as nat, |i: int| M::ZERO)
}

/// `out` is the waveform that is played for `payload`: the chirp, the gap and the carrier with
/// the data, brought to the target level.
pub open spec fn transmission<M: Arithmetic>(
    payload: Seq<u8>,
    cfg: Config<M>,
    out: Seq<M::Real>,
) -> bool {
    exists|preamble: Seq<M::Real>, passband: Seq<M::Real>, target: M::Real|
        {
            &&& is_chirp::<M>(cfg, preamble)
            &&& carries::<M>(payload, cfg, passband)
            &&& call_ensures(M::fraction, (9, 10), target)
            &&& #[trigger] levelled::<M>(preamble + gap::<M>(cfg) + passband, target, out)
        }
}

/// The symbol rate is not zero, a symbol has at least one sample, and the samples of a frame
/// around `n` payload bytes can be counted.
pub open spec fn can_carry<M: Arithmetic>(cfg: Config<M>, n: nat) -> bool {
    &&& cfg.baud > 0
    &&& cfg.samples_per_symbol() > 0
    &&& 8 * (OVERHEAD + n) * cfg.samples_per_symbol() + cfg.samples_per_symbol()
        * cfg.rrc_span_symbols + 1 <= usize::MAX
}

/// Encode `payload` into a real-valued audio waveform.
///
/// Pipeline: frame, bits, symbols, pulse shape, carrier, then the chirp preamble in front, and
/// last the peak level.
pub fn encode_samples<M: Arithmetic>(payload: &[u8], cfg: &Config<M>) -> (r: Result<
    Vec<M::Real>,
    FrameError,
>)
    requires
        payload@.len() <= MAX_PAYLOAD ==> can_carry::<M>(*cfg, payload@.len()),
    ensures
        match r {
            Ok(out) => payload@.len() <= MAX_PAYLOAD && transmission::<M>(
                payload@,
                *cfg,
                out@,
            ),
            Err(e) => payload@.len() > MAX_PAYLOAD && e == FrameError::PayloadTooLarge(
                payload@.len() as usize,
            ),
        },
{
    let frame_bytes = match encode(payload, cfg.modulation) {
        Ok(bytes) => bytes,
        Err(e) => return Err(e),
    };
    let sps: usize = cfg.sps();
    let ghost n = payload@.len();
    assert(frame_bytes@.len() == OVERHEAD + n);
    assert(8 * (OVERHEAD + n) <= 8 * (OVERHEAD + n) * sps) by (nonlinear_arith)
        requires
            sps > 0,
            n >= 0,
    ;
    let bits = bytes_to_bits(frame_bytes.as_slice());
    let symbols = modulate::<M>(bits.as_slice());
    let taps = rrc_taps::<M>(sps, cfg.rrc_span_symbols, cfg.rrc_beta);
    let baseband = upsample_and_filter::<M>(symbols.as_slice(), sps, taps.as_slice());
    let fs = M::count(cfg.sample_rate as usize);
    let passband = upconvert::<M>(baseband.as_slice(), cfg.carrier_hz, fs);
    proof {
        assert(sps == cfg.samples_per_symbol() as usize);
        assert(symbols@ == modulated::<M>(sent_bits::<M>(payload@, *cfg)));
        assert(pulse_train::<M>(
            modulated::<M>(sent_bits::<M>(payload@, *cfg)),
            cfg.samples_per_symbol() as int,
            taps@,
            baseband@,
        ));
        assert(raised::<M>(baseband@, cfg.carrier_hz, fs, passband@));
        assert(carries::<M>(payload@, *cfg, passband@));
    }

    let mut out = make_chirp::<M>(cfg);
    let ghost preamble = out@;
    assert(sps * POST_CHIRP_GAP_SYMBOLS <= 8 * (OVERHEAD + n) * sps) by (nonlinear_arith)
        requires
            sps > 0,
            n >= 0,
    ;
    let silence: Vec<M::Real> = filled(M::ZERO, sps * POST_CHIRP_GAP_SYMBOLS);
    append(&mut out, silence);
    append(&mut out, passband);
    let target = peak_target::<M>();
    assert(out@ =~= preamble + gap::<M>(*cfg) + passband@);
    normalize_peak::<M>(&mut out, target);
    assert(levelled::<M>(preamble + gap::<M>(*cfg) + passband@, target, out@));
    Ok(out)
}

/// A transmission is as long as its chirp, the gap, one symbol period for each bit of the frame
/// and the tail of the pulse.
pub proof fn law_transmission_length<M: Arithmetic>(
    payload: Seq<u8>,
    cfg: Config<M>,
    out: Seq<M::Real>,
)
    requires
        can_carry::<M>(cfg, payload.len()),
        payload.len() <= MAX_PAYLOAD,
        transmission::<M>(payload, cfg, out),
    ensures
        exists|preamble: Seq<M::Real>| #[trigger]
            is_chirp::<M>(cfg, preamble) && out.len() == preamble.len() + (
            POST_CHIRP_GAP_SYMBOLS + 8 * (OVERHEAD + payload.len()) + cfg.rrc_span_symbols)
                * cfg.samples_per_symbol(),
{
    let (preamble, passband, target) = choose|
        preamble: Seq<M::Real>,
        passband: Seq<M::Real>,
        target: M::Real,
    |
        {
            &&& is_chirp::<M>(cfg, preamble)
            &&& carries::<M>(payload, cfg, passband)
            &&& call_ensures(M::fraction, (9, 10), target)
            &&& #[trigger] levelled::<M>(preamble + gap::<M>(cfg) + passband, target, out)
        };
    let sps = cfg.samples_per_symbol();
    assert(sps * cfg.rrc_span_symbols <= usize::MAX && sps <= usize::MAX) by (nonlinear_arith)
        requires
            8 * (OVERHEAD + payload.len()) * sps + sps * cfg.rrc_span_symbols + 1 <= usize::MAX,
            OVERHEAD == 27,
            sps >= 0,
            payload.len() >= 0,
            cfg.rrc_span_symbols >= 0,
    ;
    assert((POST_CHIRP_GAP_SYMBOLS + 8 * (OVERHEAD + payload.len()) + cfg.rrc_span_symbols)
        * sps == sps * POST_CHIRP_GAP_SYMBOLS + 8 * (OVERHEAD + payload.len()) * sps + sps
        * cfg.rrc_span_symbols) by (nonlinear_arith);
    assert(sent_bits::<M>(payload, cfg).len() == 8 * (OVERHEAD + payload.len()));
    assert(is_chirp::<M>(cfg, preamble));
}

/// Moves `tail` to the end of `head`.
fn append<T>(head: &mut Vec<T>, tail: Vec<T>)
    ensures
        final(head)@ == old(head)@ + tail@,
{
    let mut tail = tail;
    head.append(&mut tail);
}

} // verus!
