//! From samples to a payload.

use vstd::prelude::*;
use vstd::string::*;

use crate::arith::{
    lemma_reached_keeps, lemma_reached_next, lemma_reached_none, reached, Arithmetic,
};
use crate::bpsk::{demodulate, demodulated, modulated, sliced, tells_apart};
use crate::carrier::{downconvert, lowered};
use crate::chirp::{detect_chirp, found, is_chirp, make_chirp, ChirpHit};
use crate::config::{Config, Modulation};
use crate::determinism::{deterministic, law_decoding_has_one_outcome, same_result};
use crate::equalizer::{
    channel_estimate, default_mu, estimate_channel, exact_at_rest, is_sent,
    law_clean_channel_passes_through, Dfe, DEFAULT_FBF_LEN, DEFAULT_FFF_LEN, PHASE_EST_LEN,
};
use crate::frame::{
    bits_of, bits_to_bytes, bytes_of, decode, decoded, encoded, law_bits_are_binary,
    law_bits_roundtrip, law_bytes_of_concatenation, law_frame_roundtrip, training_symbols,
    FrameError, MAX_PAYLOAD, TRAINING_SEQUENCE,
};
use crate::pulse::{convolution, convolve, rrc_filter, rrc_taps};
use crate::tx::{sent_bits, POST_CHIRP_GAP_SYMBOLS};

verus! {

#[derive(Clone, Copy, Debug, PartialEq, Eq, Structural)]
pub enum DecodeError {
    ChirpNotFound,
    Truncated,
    Frame(FrameError),
}

impl DecodeError {
    /// The text that tells a user what went wrong.
    pub open spec fn text(self) -> Seq<char> {
        match self {
            DecodeError::ChirpNotFound => "chirp preamble not found"@,
            DecodeError::Truncated => "signal truncated after chirp"@,
            DecodeError::Frame(e) => "frame error: "@ + e.text(),
        }
    }

    /// Tells a user what went wrong.
    pub fn message(&self) -> (s: String)
        ensures
            s@ == self.text(),
    {
        match *self {
            DecodeError::ChirpNotFound => "chirp preamble not found".to_owned(),
            DecodeError::Truncated => "signal truncated after chirp".to_owned(),
            DecodeError::Frame(e) => {
                let mut s = "frame error: ".to_owned();
                let inner = e.message();
                s.append(inner.as_str());
                s
            },
        }
    }
}

impl From<FrameError> for DecodeError {
    fn from(e: FrameError) -> (d: Self) {
        DecodeError::Frame(e)
    }
}

impl vstd::std_specs::convert::FromSpecImpl<FrameError> for DecodeError {
    open spec fn obeys_from_spec() -> bool {
        true
    }

    open spec fn from_spec(e: FrameError) -> Self {
        DecodeError::Frame(e)
    }
}

// ---------------------------------------------------------------------------------------------
// From bits to payload
// ---------------------------------------------------------------------------------------------

/// What the bits of a received signal say.
pub open spec fn delivered(bits: Seq<u8>) -> Result<Seq<u8>, DecodeError> {
    match decoded(bytes_of(bits)) {
        Ok(r) => Ok(r.payload),
        Err(e) => Err(DecodeError::Frame(e)),
    }
}

/// `result` reports what the bits say.
pub open spec fn tells(result: Result<Vec<u8>, DecodeError>, bits: Seq<u8>) -> bool {
    match result {
        Ok(payload) => delivered(bits) == Ok::<Seq<u8>, DecodeError>(payload@),
        Err(e) => delivered(bits) == Err::<Seq<u8>, DecodeError>(e),
    }
}

/// The payload of the frame that `bits` starts with.
pub fn decode_bits(bits: &[u8]) -> (result: Result<Vec<u8>, DecodeError>)
    ensures
        tells(result, bits@),
{
    let bytes = bits_to_bytes(bits);
    match decode(bytes.as_slice()) {
        Ok((frame, _consumed)) => Ok(frame.payload),
        Err(e) => Err(DecodeError::from(e)),
    }
}

// ---------------------------------------------------------------------------------------------
// Sampling between samples
// ---------------------------------------------------------------------------------------------

/// `at` is the position of symbol `k`, when the first lies at `base` and symbols are `sps` apart.
pub open spec fn position<M: Arithmetic>(
    base: int,
    frac: M::Real,
    sps: int,
    k: int,
    at: M::Real,
) -> bool {
    exists|first: M::Real, way: M::Real, whole: M::Real|
        {
            &&& call_ensures(M::offset, (base as i32,), first)
            &&& call_ensures(M::count, ((k * sps) as usize,), way)
            &&& #[trigger] call_ensures(M::plus, (first, way), whole)
            &&& call_ensures(M::plus, (whole, frac), at)
        }
}

/// `s` lies between `left` and `right`, `f` of the way.
pub open spec fn between<M: Arithmetic>(
    left: M::Symbol,
    right: M::Symbol,
    f: M::Real,
    s: M::Symbol,
) -> bool {
    exists|g: M::Real, l: M::Symbol, r: M::Symbol|
        {
            &&& call_ensures(M::minus, (M::ONE, f), g)
            &&& #[trigger] call_ensures(M::scaled, (left, g), l)
            &&& call_ensures(M::scaled, (right, f), r)
            &&& #[trigger] call_ensures(M::sum, (l, r), s)
        }
}

/// `s` is the value of `buf` at the position `at`: nothing before its first entry or from its
/// last entry on, otherwise the straight line between the two entries next to `at`.
pub open spec fn interpolated<M: Arithmetic>(
    buf: Seq<M::Symbol>,
    at: M::Real,
    s: Option<M::Symbol>,
) -> bool {
    ||| call_ensures(M::below, (at, M::ZERO), true) && s is None
    ||| call_ensures(M::below, (at, M::ZERO), false) && exists|i: usize|
        #[trigger] call_ensures(M::floor, (at,), i) && if i + 1 >= buf.len() {
            s is None
        } else {
            s is Some && exists|whole: M::Real, f: M::Real|
                {
                    &&& call_ensures(M::count, (i,), whole)
                    &&& #[trigger] call_ensures(M::minus, (at, whole), f)
                    &&& between::<M>(buf[i as int], buf[i + 1], f, s.unwrap())
                }
        }
}

/// The value of `buf` at the position `at`.
fn sample_linear<M: Arithmetic>(buf: &[M::Symbol], at: M::Real) -> (s: Option<M::Symbol>)
    ensures
        interpolated::<M>(buf@, at, s),
{
    if M::below(at, M::ZERO) {
        return None;
    }
    let i: usize = M::floor(at);
    assert(call_ensures(M::floor, (at,), i));
    if i >= buf.len() || i + 1 >= buf.len() {
        return None;
    }
    let whole = M::count(i);
    let f = M::minus(at, whole);
    assert(call_ensures(M::minus, (at, whole), f));
    let g = M::minus(M::ONE, f);
    let l = M::scaled(buf[i], g);
    let r = M::scaled(buf[i + 1], f);
    let s = M::sum(l, r);
    assert(call_ensures(M::scaled, (buf[i as int], g), l) && call_ensures(M::sum, (l, r), s));
    Some(s)
}

/// The position of symbol `k`.
fn symbol_position<M: Arithmetic>(base: i32, frac: M::Real, sps: usize, k: usize) -> (at: M::Real)
    requires
        k * sps <= usize::MAX,
    ensures
        position::<M>(base as int, frac, sps as int, k as int, at),
{
    let first = M::offset(base);
    let way = M::count(k * sps);
    let whole = M::plus(first, way);
    assert(call_ensures(M::plus, (first, way), whole));
    M::plus(whole, frac)
}

/// `s` is what `buf` holds at symbol `k`.
pub open spec fn symbol_at<M: Arithmetic>(
    buf: Seq<M::Symbol>,
    base: int,
    frac: M::Real,
    sps: int,
    k: int,
    s: Option<M::Symbol>,
) -> bool {
    exists|at: M::Real|
        #[trigger] position::<M>(base, frac, sps, k, at) && interpolated::<M>(buf, at, s)
}

/// What `buf` holds at symbol `k`.
fn read_symbol<M: Arithmetic>(
    buf: &[M::Symbol],
    base: i32,
    frac: M::Real,
    sps: usize,
    k: usize,
) -> (s: Option<M::Symbol>)
    requires
        k * sps <= usize::MAX,
    ensures
        symbol_at::<M>(buf@, base as int, frac, sps as int, k as int, s),
{
    let at = symbol_position::<M>(base, frac, sps, k);
    sample_linear::<M>(buf, at)
}

// ---------------------------------------------------------------------------------------------
// Symbol timing
// ---------------------------------------------------------------------------------------------

/// Step `k` adds the energy of symbol `k`, if there is one.
pub open spec fn energy_step<M: Arithmetic>(
    buf: Seq<M::Symbol>,
    base: int,
    frac: M::Real,
    sps: int,
) -> spec_fn(int, M::Real, M::Real) -> bool {
    |k: int, a: M::Real, b: M::Real|
        exists|s: Option<M::Symbol>|
            #[trigger] symbol_at::<M>(buf, base, frac, sps, k, s) && match s {
                Some(v) => exists|e: M::Real|
                    #[trigger] call_ensures(M::energy, (v,), e) && call_ensures(
                        M::plus,
                        (a, e),
                        b,
                    ),
                None => b == a,
            }
}

/// `m` is the energy of the first `n` symbols.
pub open spec fn symbol_energy<M: Arithmetic>(
    buf: Seq<M::Symbol>,
    base: int,
    frac: M::Real,
    sps: int,
    n: nat,
    m: M::Real,
) -> bool {
    reached(energy_step::<M>(buf, base, frac, sps), n, M::ZERO, m)
}

/// The energy of the first `n` symbols.
fn symbol_energy_metric<M: Arithmetic>(
    buf: &[M::Symbol],
    base: i32,
    frac: M::Real,
    sps: usize,
    n: usize,
) -> (m: M::Real)
    requires
        n * sps <= usize::MAX,
    ensures
        symbol_energy::<M>(buf@, base as int, frac, sps as int, n as nat, m),
{
    let ghost step = energy_step::<M>(buf@, base as int, frac, sps as int);
    let mut m = M::ZERO;
    proof {
        lemma_reached_none(step, m);
    }
    let mut k: usize = 0;
    while k < n
        invariant
            k <= n,
            n * sps <= usize::MAX,
            step == energy_step::<M>(buf@, base as int, frac, sps as int),
            reached(step, k as nat, M::ZERO, m),
        decreases n - k,
    {
        assert(k * sps <= n * sps) by (nonlinear_arith)
            requires
                k <= n,
        ;
        let s = read_symbol::<M>(buf, base, frac, sps, k);
        let more = match s {
            Some(v) => {
                let e = M::energy(v);
                assert(call_ensures(M::energy, (v,), e));
                M::plus(m, e)
            },
            None => m,
        };
        proof {
            assert(step(k as int, m, more));
            lemma_reached_next(step, k as nat, M::ZERO, m, more);
        }
        m = more;
        k = k + 1;
    }
    m
}

/// Step `t` tries the offset `t - search` and moves on to it if its energy exceeds the best so
/// far.
pub open spec fn phase_step<M: Arithmetic>(
    buf: Seq<M::Symbol>,
    delay: int,
    search: int,
    frac: M::Real,
    sps: int,
    n: nat,
) -> spec_fn(int, (int, M::Real), (int, M::Real)) -> bool {
    |t: int, a: (int, M::Real), b: (int, M::Real)|
        exists|m: M::Real|
            #[trigger] symbol_energy::<M>(buf, delay + (t - search), frac, sps, n, m) && {
                ||| call_ensures(M::exceeds, (m, a.1), true) && b == (t - search, m)
                ||| call_ensures(M::exceeds, (m, a.1), false) && b == a
            }
}

/// `best` is the first of the offsets from `-search` to `search` at which the first `n` symbols
/// have the most energy.
pub open spec fn best_phase<M: Arithmetic>(
    buf: Seq<M::Symbol>,
    delay: int,
    search: int,
    frac: M::Real,
    sps: int,
    n: nat,
    best: int,
) -> bool {
    exists|m: M::Real|
        #[trigger] reached(
            phase_step::<M>(buf, delay, search, frac, sps, n),
            (2 * search + 1) as nat,
            (0int, M::LOWEST),
            (best, m),
        )
}

/// Brute-force search for the integer phase offset, over half a symbol both ways.
fn find_phase<M: Arithmetic>(
    buf: &[M::Symbol],
    delay: usize,
    search: i32,
    frac: M::Real,
    sps: usize,
    n: usize,
) -> (best: i32)
    requires
        n * sps <= usize::MAX,
        0 <= search,
        delay + search <= i32::MAX,
    ensures
        best_phase::<M>(
            buf@,
            delay as int,
            search as int,
            frac,
            sps as int,
            n as nat,
            best as int,
        ),
        -search <= best <= search,
{
    let ghost step = phase_step::<M>(
        buf@,
        delay as int,
        search as int,
        frac,
        sps as int,
        n as nat,
    );
    let ghost start: (int, M::Real) = (0int, M::LOWEST);
    let mut best: i32 = 0;
    let mut best_metric = M::LOWEST;
    proof {
        lemma_reached_none(step, start);
    }
    let tries: i64 = 2 * (search as i64) + 1;
    let mut t: i64 = 0;
    while t < tries
        invariant
            n * sps <= usize::MAX,
            0 <= search,
            delay + search <= i32::MAX,
            0 <= t <= tries == 2 * search + 1,
            -search <= best <= search,
            start == (0int, M::LOWEST),
            step == phase_step::<M>(
                buf@,
                delay as int,
                search as int,
                frac,
                sps as int,
                n as nat,
            ),
            reached(step, t as nat, start, (best as int, best_metric)),
        decreases tries - t,
    {
        let ghost before = (best as int, best_metric);
        let offset: i32 = (t - search as i64) as i32;
        let m = symbol_energy_metric::<M>(buf, delay as i32 + offset, frac, sps, n);
        if M::exceeds(m, best_metric) {
            best_metric = m;
            best = offset;
        }
        proof {
            assert(symbol_energy::<M>(
                buf@,
                delay + (t - search),
                frac,
                sps as int,
                n as nat,
                m,
            ));
            assert(step(t as int, before, (best as int, best_metric)));
            lemma_reached_next(step, t as nat, start, before, (best as int, best_metric));
        }
        t = t + 1;
    }
    assert(reached(step, (2 * search + 1) as nat, start, (best as int, best_metric)));
    best
}

/// `symbols` is what `buf` holds at up to `n` symbols, as far as it reaches.
pub open spec fn sampled<M: Arithmetic>(
    buf: Seq<M::Symbol>,
    base: int,
    frac: M::Real,
    sps: int,
    n: nat,
    symbols: Seq<M::Symbol>,
) -> bool {
    &&& symbols.len() <= n
    &&& forall|k: int|
        0 <= k < symbols.len() ==> symbol_at::<M>(
            buf,
            base,
            frac,
            sps,
            k,
            Some(#[trigger] symbols[k]),
        )
    &&& symbols.len() < n ==> symbol_at::<M>(buf, base, frac, sps, symbols.len() as int, None)
}

/// Takes up to `n` symbols out of `buf`.
fn take_symbols<M: Arithmetic>(
    buf: &[M::Symbol],
    base: i32,
    frac: M::Real,
    sps: usize,
    n: usize,
) -> (symbols: Vec<M::Symbol>)
    requires
        n * sps <= usize::MAX,
    ensures
        sampled::<M>(buf@, base as int, frac, sps as int, n as nat, symbols@),
{
    let mut symbols: Vec<M::Symbol> = Vec::with_capacity(n);
    let mut k: usize = 0;
    while k < n
        invariant
            k <= n,
            n * sps <= usize::MAX,
            symbols@.len() == k,
            forall|i: int|
                0 <= i < k ==> symbol_at::<M>(
                    buf@,
                    base as int,
                    frac,
                    sps as int,
                    i,
                    Some(#[trigger] symbols@[i]),
                ),
        decreases n - k,
    {
        assert(k * sps <= n * sps) by (nonlinear_arith)
            requires
                k <= n,
        ;
        match read_symbol::<M>(buf, base, frac, sps, k) {
            Some(s) => {
                symbols.push(s);
            },
            None => {
                return symbols;
            },
        }
        k = k + 1;
    }
    symbols
}

// ---------------------------------------------------------------------------------------------
// Equalization
// ---------------------------------------------------------------------------------------------

/// `out` is `symbols` divided by the channel estimate `c`, unless `c` is next to nothing.
pub open spec fn aligned<M: Arithmetic>(
    symbols: Seq<M::Symbol>,
    c: M::Symbol,
    out: Seq<M::Symbol>,
) -> bool {
    exists|e: M::Real, tiny: M::Real|
        {
            &&& #[trigger] call_ensures(M::energy, (c,), e)
            &&& #[trigger] call_ensures(M::fraction, (1, 1_000_000_000_000), tiny)
            &&& {
                ||| call_ensures(M::below, (e, tiny), true) && out == symbols
                ||| call_ensures(M::below, (e, tiny), false) && out.len() == symbols.len()
                    && forall|i: int|
                    0 <= i < out.len() ==> call_ensures(
                        M::quotient,
                        (symbols[i], c),
                        #[trigger] out[i],
                    )
            }
        }
}

/// The known symbols that every frame starts with.
pub open spec fn training<M: Arithmetic>() -> Seq<M::Symbol> {
    modulated::<M>(bits_of(TRAINING_SEQUENCE@))
}

/// How many of `n` received symbols the channel estimate uses.
pub open spec fn head_len(n: nat) -> int {
    if n < PHASE_EST_LEN {
        n as int
    } else {
        PHASE_EST_LEN as int
    }
}

/// `out` is what a new equalizer makes of `raw` after it was aligned by the channel estimate.
pub open spec fn equalized_from<M: Arithmetic>(
    raw: Seq<M::Symbol>,
    c: M::Symbol,
    straight: Seq<M::Symbol>,
    dfe: Dfe<M>,
    after: Dfe<M>,
    out: Seq<M::Symbol>,
) -> bool {
    &&& channel_estimate::<M>(
        raw.subrange(0, head_len(raw.len())),
        training::<M>().subrange(0, head_len(raw.len())),
        c,
    )
    &&& aligned::<M>(raw, c, straight)
    &&& dfe.passes_through(DEFAULT_FFF_LEN as nat, DEFAULT_FBF_LEN as nat)
    &&& call_ensures(M::fraction, (2, 100), dfe.mu)
    &&& dfe.processed(straight, training::<M>(), 128, after, out)
}

/// `out` is `raw` with the channel taken out.
pub open spec fn equalized<M: Arithmetic>(raw: Seq<M::Symbol>, out: Seq<M::Symbol>) -> bool {
    exists|c: M::Symbol, straight: Seq<M::Symbol>, dfe: Dfe<M>, after: Dfe<M>|
        #[trigger] equalized_from::<M>(raw, c, straight, dfe, after, out)
}

/// Divides every symbol by `c`, unless `c` is next to nothing.
fn align<M: Arithmetic>(symbols: &[M::Symbol], c: M::Symbol) -> (out: Vec<M::Symbol>)
    ensures
        aligned::<M>(symbols@, c, out@),
{
    let e = M::energy(c);
    let tiny = M::fraction(1, 1_000_000_000_000);
    assert(call_ensures(M::energy, (c,), e));
    assert(call_ensures(M::fraction, (1, 1_000_000_000_000), tiny));
    if M::below(e, tiny) {
        let out = vstd::slice::slice_to_vec(symbols);
        assert(out@ =~= symbols@);
        return out;
    }
    let mut out: Vec<M::Symbol> = Vec::with_capacity(symbols.len());
    let mut i: usize = 0;
    while i < symbols.len()
        invariant
            i <= symbols@.len(),
            out@.len() == i,
            forall|k: int|
                0 <= k < i ==> call_ensures(M::quotient, (symbols@[k], c), #[trigger] out@[k]),
        decreases symbols@.len() - i,
    {
        out.push(M::quotient(symbols[i], c));
        i = i + 1;
    }
    out
}

/// Takes the channel out of `raw`: a joint phase and gain estimate from the head of the training
/// preamble first, then the decision-feedback equalizer.
fn equalize<M: Arithmetic>(raw: &[M::Symbol]) -> (out: Vec<M::Symbol>)
    ensures
        equalized::<M>(raw@, out@),
        out@.len() == raw@.len(),
{
    let targets = training_symbols::<M>();
    let head: usize = if raw.len() < PHASE_EST_LEN {
        raw.len()
    } else {
        PHASE_EST_LEN
    };
    let c = estimate_channel::<M>(
        vstd::slice::slice_subrange(raw, 0, head),
        vstd::slice::slice_subrange(targets.as_slice(), 0, head),
    );
    let straight = align::<M>(raw, c);
    let mut dfe = Dfe::<M>::new(DEFAULT_FFF_LEN, DEFAULT_FBF_LEN, default_mu::<M>());
    let ghost new = dfe;
    let out = dfe.process(straight.as_slice(), targets.as_slice(), targets.len());
    assert(equalized_from::<M>(raw@, c, straight@, new, dfe, out@));
    out
}

// ---------------------------------------------------------------------------------------------
// The receiver
// ---------------------------------------------------------------------------------------------

/// What an attempt to decode saw on its way.
#[derive(Debug)]
pub struct DecodeTrace<M: Arithmetic> {
    /// Best chirp matched-filter peak / chirp self-energy.
    pub chirp_peak_ratio: M::Real,
    /// Sub-sample chirp peak refinement, about half a sample both ways.
    pub chirp_sub_sample: M::Real,
    /// Integer symbol-phase offset chosen by the timing search.
    pub best_phase_offset: i32,
    /// Post-equalizer symbols: what the constellation should plot.
    /// Without a chirp lock this is empty.
    pub symbols: Vec<M::Symbol>,
    /// Pre-equalizer symbols (after the pulse filter). Useful for a comparison of before and
    /// after when debugging the equalizer.
    pub pre_eq_symbols: Vec<M::Symbol>,
}

impl<M: Arithmetic> DecodeTrace<M> {
    /// Nothing was seen after the chirp search.
    pub open spec fn ends_at_chirp(self) -> bool {
        &&& self.best_phase_offset == 0
        &&& self.symbols@ == Seq::<M::Symbol>::empty()
        &&& self.pre_eq_symbols@ == Seq::<M::Symbol>::empty()
    }
}

impl<M: Arithmetic> Clone for DecodeTrace<M> {
    fn clone(&self) -> (t: Self)
        ensures
            t.chirp_peak_ratio == self.chirp_peak_ratio,
            t.chirp_sub_sample == self.chirp_sub_sample,
            t.best_phase_offset == self.best_phase_offset,
            t.symbols@ == self.symbols@,
            t.pre_eq_symbols@ == self.pre_eq_symbols@,
    {
        let symbols = vstd::slice::slice_to_vec(self.symbols.as_slice());
        let pre_eq_symbols = vstd::slice::slice_to_vec(self.pre_eq_symbols.as_slice());
        assert(symbols@ =~= self.symbols@);
        assert(pre_eq_symbols@ =~= self.pre_eq_symbols@);
        DecodeTrace {
            chirp_peak_ratio: self.chirp_peak_ratio,
            chirp_sub_sample: self.chirp_sub_sample,
            best_phase_offset: self.best_phase_offset,
            symbols,
            pre_eq_symbols,
        }
    }
}

impl<M: Arithmetic> Default for DecodeTrace<M> {
    fn default() -> (t: Self)
        ensures
            t.chirp_peak_ratio == M::ZERO,
            t.chirp_sub_sample == M::ZERO,
            t.ends_at_chirp(),
    {
        let symbols: Vec<M::Symbol> = Vec::new();
        let pre_eq_symbols: Vec<M::Symbol> = Vec::new();
        DecodeTrace {
            chirp_peak_ratio: M::ZERO,
            chirp_sub_sample: M::ZERO,
            best_phase_offset: 0,
            symbols,
            pre_eq_symbols,
        }
    }
}

/// `ratio` is the peak of `hit` as a part of the chirp's self-energy.
pub open spec fn peak_ratio<M: Arithmetic>(hit: ChirpHit<M>, ratio: M::Real) -> bool {
    ||| call_ensures(M::exceeds, (hit.self_energy, M::ZERO), true) && call_ensures(
        M::over,
        (hit.peak_correlation, hit.self_energy),
        ratio,
    )
    ||| call_ensures(M::exceeds, (hit.self_energy, M::ZERO), false) && ratio == M::ZERO
}

/// `at` is where the data begins after a chirp of `chirp_len` samples at `hit`.
pub open spec fn data_position<M: Arithmetic>(
    hit: ChirpHit<M>,
    chirp_len: nat,
    sps: nat,
    at: M::Real,
) -> bool {
    exists|
        start: M::Real,
        peak: M::Real,
        length: M::Real,
        end: M::Real,
        rest: M::Real,
    |
        {
            &&& call_ensures(M::count, (hit.start,), start)
            &&& #[trigger] call_ensures(M::plus, (start, hit.sub_sample), peak)
            &&& call_ensures(M::count, (chirp_len as usize,), length)
            &&& #[trigger] call_ensures(M::plus, (peak, length), end)
            &&& call_ensures(M::count, ((sps * POST_CHIRP_GAP_SYMBOLS) as usize,), rest)
            &&& #[trigger] call_ensures(M::plus, (end, rest), at)
        }
}

/// Symbols that a filtered signal of `len` samples can hold after the filter's delay.
pub open spec fn nominal_symbols(len: nat, delay: nat, sps: nat) -> nat {
    if len > delay + 1 {
        ((len - delay - 1) / sps as int) as nat
    } else {
        0
    }
}

/// `filtered` is what the matched filter makes of `passband`.
pub open spec fn matched<M: Arithmetic>(
    cfg: Config<M>,
    passband: Seq<M::Real>,
    fs: M::Real,
    baseband: Seq<M::Symbol>,
    taps: Seq<M::Real>,
    filtered: Seq<M::Symbol>,
) -> bool {
    &&& call_ensures(M::count, (cfg.sample_rate as usize,), fs)
    &&& lowered::<M>(passband, cfg.carrier_hz, fs, baseband)
    &&& rrc_filter::<M>(
        cfg.samples_per_symbol() as usize,
        cfg.rrc_span_symbols,
        cfg.rrc_beta,
        taps,
    )
    &&& convolution::<M>(baseband, taps, filtered)
}

/// `trace` holds the symbols of `filtered`, before and after the equalizer, and `result` what
/// their bits say.
pub open spec fn understood<M: Arithmetic>(
    cfg: Config<M>,
    filtered: Seq<M::Symbol>,
    frac: M::Real,
    result: Result<Vec<u8>, DecodeError>,
    trace: DecodeTrace<M>,
) -> bool {
    let sps = cfg.samples_per_symbol();
    let delay = sps * cfg.rrc_span_symbols as nat;
    let n = nominal_symbols(filtered.len(), delay, sps);
    &&& best_phase::<M>(
        filtered,
        delay as int,
        sps as int / 2,
        frac,
        sps as int,
        n,
        trace.best_phase_offset as int,
    )
    &&& sampled::<M>(
        filtered,
        delay + trace.best_phase_offset,
        frac,
        sps as int,
        n,
        trace.pre_eq_symbols@,
    )
    &&& equalized::<M>(trace.pre_eq_symbols@, trace.symbols@)
    &&& exists|bits: Seq<u8>|
        #[trigger] demodulated::<M>(trace.symbols@, bits) && tells(result, bits)
}

/// `result` and `trace` are what the data from `passband` on says.
pub open spec fn heard<M: Arithmetic>(
    cfg: Config<M>,
    passband: Seq<M::Real>,
    frac: M::Real,
    result: Result<Vec<u8>, DecodeError>,
    trace: DecodeTrace<M>,
) -> bool {
    exists|
        fs: M::Real,
        baseband: Seq<M::Symbol>,
        taps: Seq<M::Real>,
        filtered: Seq<M::Symbol>,
    |
        #[trigger] matched::<M>(cfg, passband, fs, baseband, taps, filtered) && understood::<M>(
            cfg,
            filtered,
            frac,
            result,
            trace,
        )
}

/// `result` and `trace` are what the data says that begins at `at`, which is in sample `start`: the
/// signal is cut short if there is no such sample.
pub open spec fn leads_on<M: Arithmetic>(
    cfg: Config<M>,
    samples: Seq<M::Real>,
    at: M::Real,
    start: usize,
    result: Result<Vec<u8>, DecodeError>,
    trace: DecodeTrace<M>,
) -> bool {
    if start >= samples.len() {
        result == Err::<Vec<u8>, DecodeError>(DecodeError::Truncated) && trace.ends_at_chirp()
    } else {
        exists|whole: M::Real, frac: M::Real|
            {
                &&& call_ensures(M::count, (start,), whole)
                &&& #[trigger] call_ensures(M::minus, (at, whole), frac)
                &&& heard::<M>(
                    cfg,
                    samples.subrange(start as int, samples.len() as int),
                    frac,
                    result,
                    trace,
                )
            }
    }
}

/// `result` and `trace` are what follows a chirp of `chirp_len` samples at `hit`.
pub open spec fn followed<M: Arithmetic>(
    cfg: Config<M>,
    samples: Seq<M::Real>,
    chirp_len: nat,
    hit: ChirpHit<M>,
    result: Result<Vec<u8>, DecodeError>,
    trace: DecodeTrace<M>,
) -> bool {
    exists|at: M::Real, start: usize|
        {
            &&& data_position::<M>(hit, chirp_len, cfg.samples_per_symbol(), at)
            &&& #[trigger] call_ensures(M::floor, (at,), start)
            &&& leads_on::<M>(cfg, samples, at, start, result, trace)
        }
}

/// `result` and `trace` are the outcome once the search for the chirp gave `hit`.
pub open spec fn attempted<M: Arithmetic>(
    cfg: Config<M>,
    samples: Seq<M::Real>,
    preamble: Seq<M::Real>,
    hit: Option<ChirpHit<M>>,
    result: Result<Vec<u8>, DecodeError>,
    trace: DecodeTrace<M>,
) -> bool {
    match hit {
        None => {
            &&& result == Err::<Vec<u8>, DecodeError>(DecodeError::ChirpNotFound)
            &&& trace.chirp_peak_ratio == M::ZERO
            &&& trace.chirp_sub_sample == M::ZERO
            &&& trace.ends_at_chirp()
        },
        Some(h) => {
            &&& peak_ratio::<M>(h, trace.chirp_peak_ratio)
            &&& trace.chirp_sub_sample == h.sub_sample
            &&& {
                ||| {
                    &&& call_ensures(
                        M::reaches,
                        (trace.chirp_peak_ratio, cfg.chirp_detect_threshold),
                        false,
                    )
                    &&& result == Err::<Vec<u8>, DecodeError>(DecodeError::ChirpNotFound)
                    &&& trace.ends_at_chirp()
                }
                ||| {
                    &&& call_ensures(
                        M::reaches,
                        (trace.chirp_peak_ratio, cfg.chirp_detect_threshold),
                        true,
                    )
                    &&& followed::<M>(cfg, samples, preamble.len(), h, result, trace)
                }
            }
        },
    }
}

/// `result` and `trace` are the outcome of decoding `samples`.
pub open spec fn received<M: Arithmetic>(
    cfg: Config<M>,
    samples: Seq<M::Real>,
    result: Result<Vec<u8>, DecodeError>,
    trace: DecodeTrace<M>,
) -> bool {
    exists|preamble: Seq<M::Real>, hit: Option<ChirpHit<M>>|
        {
            &&& is_chirp::<M>(cfg, preamble)
            &&& found::<M>(samples, preamble, M::ZERO, hit)
            &&& #[trigger] attempted::<M>(cfg, samples, preamble, hit, result, trace)
        }
}

/// The chirp may be found in `samples` as `hit`, behind a template of `chirp_len` samples.
pub open spec fn may_lock<M: Arithmetic>(
    cfg: Config<M>,
    samples: Seq<M::Real>,
    chirp_len: nat,
    hit: ChirpHit<M>,
) -> bool {
    exists|preamble: Seq<M::Real>, ratio: M::Real|
        {
            &&& is_chirp::<M>(cfg, preamble)
            &&& preamble.len() == chirp_len
            &&& #[trigger] found::<M>(samples, preamble, M::ZERO, Some(hit))
            &&& #[trigger] peak_ratio::<M>(hit, ratio)
            &&& call_ensures(M::reaches, (ratio, cfg.chirp_detect_threshold), true)
        }
}

/// The symbol rate is not zero, and the gap after the chirp can be counted.
pub open spec fn can_locate<M: Arithmetic>(cfg: Config<M>) -> bool {
    &&& cfg.baud > 0
    &&& cfg.samples_per_symbol() * POST_CHIRP_GAP_SYMBOLS <= usize::MAX
}

/// Positions in the filtered form of `n` samples of data can be counted, and a symbol has at least
/// one sample if there is room for symbols.
pub open spec fn can_hear<M: Arithmetic>(cfg: Config<M>, n: nat) -> bool {
    let sps = cfg.samples_per_symbol();
    &&& n > 1 ==> sps > 0
    &&& sps * cfg.rrc_span_symbols + sps / 2 <= i32::MAX
    &&& n + sps * cfg.rrc_span_symbols + 1 <= usize::MAX
}

/// Wherever the chirp may be found in `samples`, data can be located, and where data follows, it
/// can be heard.
pub open spec fn can_receive<M: Arithmetic>(cfg: Config<M>, samples: Seq<M::Real>) -> bool {
    forall|chirp_len: nat, hit: ChirpHit<M>|
        #[trigger] may_lock::<M>(cfg, samples, chirp_len, hit) ==> {
            &&& can_locate::<M>(cfg)
            &&& forall|at: M::Real, start: usize|
                #[trigger] data_position::<M>(hit, chirp_len, cfg.samples_per_symbol(), at)
                    && #[trigger] call_ensures(M::floor, (at,), start) && start < samples.len()
                    ==> can_hear::<M>(cfg, (samples.len() - start) as nat)
        }
}

/// Where the data begins after a chirp of `chirp_len` samples at `hit`.
pub fn locate_data<M: Arithmetic>(
    hit: &ChirpHit<M>,
    chirp_len: usize,
    cfg: &Config<M>,
) -> (at: M::Real)
    requires
        can_locate::<M>(*cfg),
    ensures
        data_position::<M>(*hit, chirp_len as nat, cfg.samples_per_symbol(), at),
{
    let sps: usize = cfg.sps();
    let start = M::count(hit.start);
    let peak = M::plus(start, hit.sub_sample);
    let length = M::count(chirp_len);
    let end = M::plus(peak, length);
    let rest = M::count(sps * POST_CHIRP_GAP_SYMBOLS);
    let at = M::plus(end, rest);
    assert(call_ensures(M::plus, (start, hit.sub_sample), peak));
    assert(call_ensures(M::plus, (peak, length), end));
    assert(call_ensures(M::plus, (end, rest), at));
    at
}

/// Demodulates the data from the start of `passband` on.
#[verifier::rlimit(30)]
fn hear<M: Arithmetic>(
    cfg: &Config<M>,
    passband: &[M::Real],
    frac: M::Real,
    trace: &mut DecodeTrace<M>,
) -> (result: Result<Vec<u8>, DecodeError>)
    requires
        passband@.len() > 0,
        cfg.baud > 0,
        can_hear::<M>(*cfg, passband@.len()),
    ensures
        heard::<M>(*cfg, passband@, frac, result, *final(trace)),
        final(trace).chirp_peak_ratio == old(trace).chirp_peak_ratio,
        final(trace).chirp_sub_sample == old(trace).chirp_sub_sample,
{
    let sps: usize = cfg.sps();
    let fs = M::count(cfg.sample_rate as usize);
    let baseband = downconvert::<M>(passband, cfg.carrier_hz, fs);
    let taps = rrc_taps::<M>(sps, cfg.rrc_span_symbols, cfg.rrc_beta);
    let filtered = convolve::<M>(baseband.as_slice(), taps.as_slice());
    let delay: usize = sps * cfg.rrc_span_symbols;
    let n: usize = if filtered.len() > delay + 1 {
        (filtered.len() - delay - 1) / sps
    } else {
        0
    };
    assert(n * sps <= filtered@.len()) by (nonlinear_arith)
        requires
            n == 0 || sps > 0,
            n == 0 || n == (filtered@.len() - delay - 1) / (sps as int),
            n == 0 || filtered@.len() > delay + 1,
            delay >= 0,
            filtered@.len() >= 0,
    ;
    let best = find_phase::<M>(filtered.as_slice(), delay, (sps / 2) as i32, frac, sps, n);
    trace.best_phase_offset = best;
    let raw = take_symbols::<M>(filtered.as_slice(), delay as i32 + best, frac, sps, n);
    let out = equalize::<M>(raw.as_slice());
    let bits = demodulate::<M>(out.as_slice());
    trace.pre_eq_symbols = raw;
    trace.symbols = out;
    let result = decode_bits(bits.as_slice());
    assert(matched::<M>(*cfg, passband@, fs, baseband@, taps@, filtered@));
    assert(understood::<M>(*cfg, filtered@, frac, result, *trace));
    result
}

/// The search for the chirp in `samples` ended with `lock`, the hit and the length of the chirp, or
/// nothing, and `trace` says what it saw.
pub open spec fn sought<M: Arithmetic>(
    cfg: Config<M>,
    samples: Seq<M::Real>,
    preamble: Seq<M::Real>,
    hit: Option<ChirpHit<M>>,
    lock: Option<(ChirpHit<M>, usize)>,
    trace: DecodeTrace<M>,
) -> bool {
    &&& is_chirp::<M>(cfg, preamble)
    &&& found::<M>(samples, preamble, M::ZERO, hit)
    &&& trace.ends_at_chirp()
    &&& match hit {
        None => {
            &&& lock is None
            &&& trace.chirp_peak_ratio == M::ZERO
            &&& trace.chirp_sub_sample == M::ZERO
        },
        Some(h) => {
            &&& peak_ratio::<M>(h, trace.chirp_peak_ratio)
            &&& trace.chirp_sub_sample == h.sub_sample
            &&& call_ensures(
                M::reaches,
                (trace.chirp_peak_ratio, cfg.chirp_detect_threshold),
                lock is Some,
            )
            &&& lock is Some ==> lock == Some((h, preamble.len() as usize))
        },
    }
}

/// Searches `samples` for the chirp. Returns the hit and the length of the chirp if the peak
/// reaches the threshold, and a trace of the search.
pub fn lock_on<M: Arithmetic>(samples: &[M::Real], cfg: &Config<M>) -> (r: (
    Option<(ChirpHit<M>, usize)>,
    DecodeTrace<M>,
))
    ensures
        exists|preamble: Seq<M::Real>, hit: Option<ChirpHit<M>>|
            #[trigger] sought::<M>(*cfg, samples@, preamble, hit, r.0, r.1),
{
    let mut trace: DecodeTrace<M> = DecodeTrace::default();
    let preamble = make_chirp::<M>(cfg);
    let found_hit = detect_chirp::<M>(samples, preamble.as_slice(), M::ZERO);
    let lock = match found_hit {
        Some(hit) => {
            trace.chirp_peak_ratio = if M::exceeds(hit.self_energy, M::ZERO) {
                M::over(hit.peak_correlation, hit.self_energy)
            } else {
                M::ZERO
            };
            trace.chirp_sub_sample = hit.sub_sample;
            if M::reaches(trace.chirp_peak_ratio, cfg.chirp_detect_threshold) {
                Some((hit, preamble.len()))
            } else {
                None
            }
        },
        None => None,
    };
    let r = (lock, trace);
    assert(sought::<M>(*cfg, samples@, preamble@, found_hit, r.0, r.1));
    r
}

/// Same as [`decode_samples`] but also returns a [`DecodeTrace`] populated as far as the attempt
/// got. The trace's `symbols` field holds the constellation after the equalizer;
/// `pre_eq_symbols` holds the input to the equalizer.
#[verifier::rlimit(30)]
pub fn decode_samples_traced<M: Arithmetic>(samples: &[M::Real], cfg: &Config<M>) -> (r: (
    Result<Vec<u8>, DecodeError>,
    DecodeTrace<M>,
))
    requires
        can_receive::<M>(*cfg, samples@),
    ensures
        received::<M>(*cfg, samples@, r.0, r.1),
{
    let (lock, found_trace) = lock_on::<M>(samples, cfg);
    let mut trace = found_trace;
    let ghost (preamble, found_hit) = choose|preamble: Seq<M::Real>, hit: Option<ChirpHit<M>>|
        #[trigger] sought::<M>(*cfg, samples@, preamble, hit, lock, trace);
    let (hit, chirp_len) = match lock {
        Some(l) => l,
        None => {
            let result: Result<Vec<u8>, DecodeError> = Err(DecodeError::ChirpNotFound);
            assert(attempted::<M>(*cfg, samples@, preamble, found_hit, result, trace));
            return (result, trace);
        },
    };
    assert(found_hit == Some(hit) && chirp_len == preamble.len());
    assert(peak_ratio::<M>(hit, trace.chirp_peak_ratio));
    assert(may_lock::<M>(*cfg, samples@, chirp_len as nat, hit));
    let at = locate_data::<M>(&hit, chirp_len, cfg);
    let start: usize = M::floor(at);
    assert(call_ensures(M::floor, (at,), start));
    if start >= samples.len() {
        let result: Result<Vec<u8>, DecodeError> = Err(DecodeError::Truncated);
        assert(followed::<M>(*cfg, samples@, preamble.len(), hit, result, trace));
        assert(attempted::<M>(*cfg, samples@, preamble, found_hit, result, trace));
        return (result, trace);
    }
    let whole = M::count(start);
    let frac = M::minus(at, whole);
    assert(call_ensures(M::minus, (at, whole), frac));
    let passband = vstd::slice::slice_subrange(samples, start, samples.len());
    let result = hear::<M>(cfg, passband, frac, &mut trace);
    assert(followed::<M>(*cfg, samples@, preamble.len(), hit, result, trace));
    assert(attempted::<M>(*cfg, samples@, preamble, found_hit, result, trace));
    (result, trace)
}

/// Decode `samples` back to the original payload bytes.
pub fn decode_samples<M: Arithmetic>(samples: &[M::Real], cfg: &Config<M>) -> (result: Result<
    Vec<u8>,
    DecodeError,
>)
    requires
        can_receive::<M>(*cfg, samples@),
    ensures
        exists|trace: DecodeTrace<M>|
            {
                &&& #[trigger] received::<M>(*cfg, samples@, result, trace)
                &&& call_ensures(decode_samples_traced::<M>, (samples, cfg), (result, trace))
            },
        deterministic::<M>() ==> forall|r: Result<Vec<u8>, DecodeError>, t: DecodeTrace<M>|
            #[trigger] call_ensures(decode_samples_traced::<M>, (samples, cfg), (r, t))
                ==> same_result(result, r),
{
    let (result, trace) = decode_samples_traced::<M>(samples, cfg);
    assert(received::<M>(*cfg, samples@, result, trace));
    proof {
        if deterministic::<M>() {
            assert forall|r: Result<Vec<u8>, DecodeError>, t: DecodeTrace<M>|
                #[trigger] call_ensures(
                    decode_samples_traced::<M>,
                    (samples, cfg),
                    (r, t),
                ) implies same_result(result, r) by {
                law_decoding_has_one_outcome::<M>(*cfg, samples@, result, trace, r, t);
            }
        }
    }
    result
}

// ---------------------------------------------------------------------------------------------
// Laws of the receiver
// ---------------------------------------------------------------------------------------------

/// The bits of a frame deliver its payload, whatever bits follow them.
pub proof fn law_frame_bits_deliver_payload(
    payload: Seq<u8>,
    modulation: Modulation,
    rest: Seq<u8>,
)
    requires
        payload.len() <= MAX_PAYLOAD,
    ensures
        delivered(bits_of(encoded(payload, modulation)) + rest) == Ok::<Seq<u8>, DecodeError>(
            payload,
        ),
{
    let sent = encoded(payload, modulation);
    let bits = bits_of(sent);
    law_bytes_of_concatenation(bits, rest);
    law_bits_roundtrip(sent, Seq::<u8>::empty());
    assert(bits + Seq::<u8>::empty() =~= bits);
    law_frame_roundtrip(payload, modulation, bytes_of(rest));
}

/// An attempt either ends at the chirp, with the error that says so, or its trace holds the
/// symbols that its result was read from.
#[verifier::rlimit(30)]
proof fn lemma_outcomes<M: Arithmetic>(
    cfg: Config<M>,
    samples: Seq<M::Real>,
    result: Result<Vec<u8>, DecodeError>,
    trace: DecodeTrace<M>,
)
    requires
        received::<M>(cfg, samples, result, trace),
    ensures
        ({
            ||| trace.ends_at_chirp() && result == Err::<Vec<u8>, DecodeError>(
                DecodeError::ChirpNotFound,
            )
            ||| {
                &&& call_ensures(
                    M::reaches,
                    (trace.chirp_peak_ratio, cfg.chirp_detect_threshold),
                    true,
                )
                &&& {
                    ||| trace.ends_at_chirp() && result == Err::<Vec<u8>, DecodeError>(
                        DecodeError::Truncated,
                    )
                    ||| exists|filtered: Seq<M::Symbol>, frac: M::Real|
                        #[trigger] understood::<M>(cfg, filtered, frac, result, trace)
                }
            }
        }),
{
    let (preamble, hit) = choose|preamble: Seq<M::Real>, hit: Option<ChirpHit<M>>|
        {
            &&& is_chirp::<M>(cfg, preamble)
            &&& found::<M>(samples, preamble, M::ZERO, hit)
            &&& #[trigger] attempted::<M>(cfg, samples, preamble, hit, result, trace)
        };
    if let Some(h) = hit {
        if followed::<M>(cfg, samples, preamble.len(), h, result, trace) {
            let (at, start) = choose|at: M::Real, start: usize|
                {
                    &&& data_position::<M>(h, preamble.len(), cfg.samples_per_symbol(), at)
                    &&& #[trigger] call_ensures(M::floor, (at,), start)
                    &&& leads_on::<M>(cfg, samples, at, start, result, trace)
                };
            assert(leads_on::<M>(cfg, samples, at, start, result, trace));
        }
    }
}

/// The timing search stays within half a symbol.
proof fn lemma_phase_is_near<M: Arithmetic>(
    cfg: Config<M>,
    filtered: Seq<M::Symbol>,
    frac: M::Real,
    result: Result<Vec<u8>, DecodeError>,
    trace: DecodeTrace<M>,
)
    requires
        understood::<M>(cfg, filtered, frac, result, trace),
    ensures
        -(cfg.samples_per_symbol() as int / 2) <= trace.best_phase_offset
            <= cfg.samples_per_symbol() as int / 2,
{
    let sps = cfg.samples_per_symbol();
    let search = sps as int / 2;
    let delay = sps * cfg.rrc_span_symbols as nat;
    let n = nominal_symbols(filtered.len(), delay, sps);
    let step = phase_step::<M>(filtered, delay as int, search, frac, sps as int, n);
    let best = trace.best_phase_offset as int;
    let tries = (2 * search + 1) as nat;
    let m = choose|m: M::Real| #[trigger]
        reached(step, tries, (0int, M::LOWEST), (best, m));
    let keeps = |t: int, b: (int, M::Real)| -search <= b.0 <= search;
    lemma_reached_keeps(step, tries, (0int, M::LOWEST), (best, m), keeps);
    assert(keeps(tries as int, (best, m)));
}

/// A trace tells how far the attempt got: there are as many symbols after the equalizer as
/// before it; without a lock, and when the signal ends with the chirp, there are none; a payload
/// only comes out after a lock, and of symbols; and the timing search stays within half a symbol.
#[verifier::rlimit(30)]
pub proof fn law_trace_tells_how_far_it_got<M: Arithmetic>(
    cfg: Config<M>,
    samples: Seq<M::Real>,
    result: Result<Vec<u8>, DecodeError>,
    trace: DecodeTrace<M>,
)
    requires
        received::<M>(cfg, samples, result, trace),
    ensures
        trace.symbols@.len() == trace.pre_eq_symbols@.len(),
        result is Ok ==> call_ensures(
            M::reaches,
            (trace.chirp_peak_ratio, cfg.chirp_detect_threshold),
            true,
        ),
        result is Ok ==> trace.symbols@.len() > 0,
        -(cfg.samples_per_symbol() as int / 2) <= trace.best_phase_offset
            <= cfg.samples_per_symbol() as int / 2,
        result == Err::<Vec<u8>, DecodeError>(DecodeError::ChirpNotFound) ==> trace.ends_at_chirp(),
        result == Err::<Vec<u8>, DecodeError>(DecodeError::Truncated) ==> trace.ends_at_chirp(),
{
    lemma_outcomes::<M>(cfg, samples, result, trace);
    if exists|filtered: Seq<M::Symbol>, frac: M::Real|
        #[trigger] understood::<M>(cfg, filtered, frac, result, trace) {
        let (filtered, frac) = choose|filtered: Seq<M::Symbol>, frac: M::Real|
            #[trigger] understood::<M>(cfg, filtered, frac, result, trace);
        lemma_phase_is_near::<M>(cfg, filtered, frac, result, trace);
        assert(equalized::<M>(trace.pre_eq_symbols@, trace.symbols@));
        let (c, straight, dfe, after) = choose|
            c: M::Symbol,
            straight: Seq<M::Symbol>,
            dfe: Dfe<M>,
            after: Dfe<M>,
        |
            #[trigger] equalized_from::<M>(
                trace.pre_eq_symbols@,
                c,
                straight,
                dfe,
                after,
                trace.symbols@,
            );
        assert(aligned::<M>(trace.pre_eq_symbols@, c, straight));
        let bits = choose|bits: Seq<u8>|
            #[trigger] demodulated::<M>(trace.symbols@, bits) && tells(result, bits);
        assert(result is Ok ==> bytes_of(bits).len() > 0);
    }
}

/// The slicer reads `bits` off the first of `symbols`, however far each of them is from where it
/// was sent.
pub open spec fn reads_as<M: Arithmetic>(symbols: Seq<M::Symbol>, bits: Seq<u8>) -> bool {
    &&& bits.len() <= symbols.len()
    &&& forall|i: int, b: u8|
        0 <= i < bits.len() && #[trigger] sliced::<M>(symbols[i], b) ==> b == bits[i]
}

/// Once there are symbols, the result is what their bits say.
proof fn lemma_symbols_tell<M: Arithmetic>(
    cfg: Config<M>,
    samples: Seq<M::Real>,
    result: Result<Vec<u8>, DecodeError>,
    trace: DecodeTrace<M>,
) -> (bits: Seq<u8>)
    requires
        received::<M>(cfg, samples, result, trace),
        trace.pre_eq_symbols@.len() > 0 || trace.symbols@.len() > 0,
    ensures
        equalized::<M>(trace.pre_eq_symbols@, trace.symbols@),
        demodulated::<M>(trace.symbols@, bits),
        tells(result, bits),
{
    lemma_outcomes::<M>(cfg, samples, result, trace);
    assert(!trace.ends_at_chirp());
    let (filtered, frac) = choose|filtered: Seq<M::Symbol>, frac: M::Real|
        #[trigger] understood::<M>(cfg, filtered, frac, result, trace);
    choose|bits: Seq<u8>| #[trigger] demodulated::<M>(trace.symbols@, bits) && tells(result, bits)
}

/// Bits sliced from symbols that read as `sent` start with `sent`.
proof fn lemma_readable_bits<M: Arithmetic>(
    symbols: Seq<M::Symbol>,
    sent: Seq<u8>,
    bits: Seq<u8>,
)
    requires
        reads_as::<M>(symbols, sent),
        demodulated::<M>(symbols, bits),
    ensures
        bits == sent + bits.subrange(sent.len() as int, bits.len() as int),
{
    assert forall|i: int| 0 <= i < sent.len() implies bits[i] == sent[i] by {
        assert(sliced::<M>(symbols[i], bits[i]));
    }
    assert(bits =~= sent + bits.subrange(sent.len() as int, bits.len() as int));
}

/// A receiver that got as far as the equalizer, and whose equalized symbols the slicer reads as
/// the bits that were sent for a payload, delivers the payload, whatever follows the frame.
#[verifier::rlimit(30)]
pub proof fn law_readable_symbols_deliver_payload<M: Arithmetic>(
    payload: Seq<u8>,
    cfg: Config<M>,
    samples: Seq<M::Real>,
    result: Result<Vec<u8>, DecodeError>,
    trace: DecodeTrace<M>,
)
    requires
        payload.len() <= MAX_PAYLOAD,
        received::<M>(cfg, samples, result, trace),
        reads_as::<M>(trace.symbols@, sent_bits::<M>(payload, cfg)),
    ensures
        result matches Ok(out) && out@ == payload,
{
    let sent = sent_bits::<M>(payload, cfg);
    assert(sent.len() > 0);
    let bits = lemma_symbols_tell::<M>(cfg, samples, result, trace);
    lemma_readable_bits::<M>(trace.symbols@, sent, bits);
    law_frame_bits_deliver_payload(
        payload,
        cfg.modulation,
        bits.subrange(sent.len() as int, bits.len() as int),
    );
}

/// Symbols that arrive as they were sent are readable, in every number system whose slicer tells
/// the two symbols apart.
pub proof fn law_sent_symbols_are_readable<M: Arithmetic>(
    payload: Seq<u8>,
    cfg: Config<M>,
    rest: Seq<M::Symbol>,
)
    requires
        tells_apart::<M>(),
    ensures
        reads_as::<M>(
            modulated::<M>(sent_bits::<M>(payload, cfg)) + rest,
            sent_bits::<M>(payload, cfg),
        ),
{
    let sent = sent_bits::<M>(payload, cfg);
    let symbols = modulated::<M>(sent) + rest;
    assert forall|i: int, b: u8|
        0 <= i < sent.len() && #[trigger] sliced::<M>(symbols[i], b) implies b == sent[i] by {
        assert(symbols[i] == modulated::<M>(sent)[i]);
        law_bits_are_binary(encoded(payload, cfg.modulation), i);
    }
}

/// What `bits` arrive as over a channel that turns the symbols for 0 and 1 into `space` and
/// `mark`.
pub open spec fn through<M: Arithmetic>(
    bits: Seq<u8>,
    space: M::Symbol,
    mark: M::Symbol,
) -> Seq<M::Symbol> {
    bits.map_values(
        |b: u8|
            if b == 0 {
                space
            } else {
                mark
            },
    )
}

/// The bits that the channel estimate is made from.
pub open spec fn head_bits() -> Seq<u8> {
    bits_of(TRAINING_SEQUENCE@).subrange(0, PHASE_EST_LEN as int)
}

/// Dividing by the estimate of a channel that turns the two symbols into `space` and `mark`
/// restores them.
pub open spec fn estimate_restores<M: Arithmetic>(space: M::Symbol, mark: M::Symbol) -> bool {
    forall|c: M::Symbol|
        #[trigger] channel_estimate::<M>(
            through::<M>(head_bits(), space, mark),
            modulated::<M>(head_bits()),
            c,
        ) ==> {
            &&& forall|r: M::Symbol| #[trigger]
                call_ensures(M::quotient, (space, c), r) ==> r == M::SPACE
            &&& forall|r: M::Symbol| #[trigger]
                call_ensures(M::quotient, (mark, c), r) ==> r == M::MARK
            &&& forall|e: M::Real, tiny: M::Real| #[trigger]
                call_ensures(M::energy, (c,), e) && call_ensures(
                    M::fraction,
                    (1, 1_000_000_000_000),
                    tiny,
                ) ==> !#[trigger] call_ensures(M::below, (e, tiny), true)
        }
}

/// The training sequence comes first in what is sent.
proof fn lemma_training_comes_first<M: Arithmetic>(payload: Seq<u8>, cfg: Config<M>)
    ensures
        sent_bits::<M>(payload, cfg).len() >= 128,
        forall|i: int|
            0 <= i < 128 ==> #[trigger] sent_bits::<M>(payload, cfg)[i] == bits_of(
                TRAINING_SEQUENCE@,
            )[i],
{
    let bytes = encoded(payload, cfg.modulation);
    assert forall|i: int| 0 <= i < 128 implies #[trigger] sent_bits::<M>(payload, cfg)[i]
        == bits_of(TRAINING_SEQUENCE@)[i] by {
        assert(bytes[i / 8] == TRAINING_SEQUENCE@[i / 8]);
    }
}

/// Dividing by an estimate that restores the two symbols restores all of them.
proof fn lemma_alignment_restores<M: Arithmetic>(
    bits: Seq<u8>,
    space: M::Symbol,
    mark: M::Symbol,
    c: M::Symbol,
    straight: Seq<M::Symbol>,
)
    requires
        aligned::<M>(through::<M>(bits, space, mark), c, straight),
        forall|r: M::Symbol| #[trigger]
            call_ensures(M::quotient, (space, c), r) ==> r == M::SPACE,
        forall|r: M::Symbol| #[trigger]
            call_ensures(M::quotient, (mark, c), r) ==> r == M::MARK,
        forall|e: M::Real, tiny: M::Real| #[trigger]
            call_ensures(M::energy, (c,), e) && call_ensures(
                M::fraction,
                (1, 1_000_000_000_000),
                tiny,
            ) ==> !#[trigger] call_ensures(M::below, (e, tiny), true),
    ensures
        straight == modulated::<M>(bits),
{
    let raw = through::<M>(bits, space, mark);
    assert(straight.len() == raw.len());
    assert forall|i: int| 0 <= i < raw.len() implies straight[i] == modulated::<M>(bits)[i] by {
        assert(call_ensures(M::quotient, (raw[i], c), straight[i]));
    }
    assert(straight =~= modulated::<M>(bits));
}

/// Bits that start with the training sequence come out of the equalizer as they were sent.
#[verifier::rlimit(30)]
proof fn lemma_equalizer_restores<M: Arithmetic>(
    bits: Seq<u8>,
    space: M::Symbol,
    mark: M::Symbol,
    out: Seq<M::Symbol>,
)
    requires
        bits.len() >= 128,
        forall|i: int| 0 <= i < 128 ==> #[trigger] bits[i] == bits_of(TRAINING_SEQUENCE@)[i],
        tells_apart::<M>(),
        forall|mu: M::Real| #[trigger]
            call_ensures(M::fraction, (2, 100), mu) ==> exact_at_rest::<M>(mu),
        estimate_restores::<M>(space, mark),
        equalized::<M>(through::<M>(bits, space, mark), out),
    ensures
        out == modulated::<M>(bits),
{
    let raw = through::<M>(bits, space, mark);
    let (c, straight, dfe, after) = choose|
        c: M::Symbol,
        straight: Seq<M::Symbol>,
        dfe: Dfe<M>,
        after: Dfe<M>,
    |
        #[trigger] equalized_from::<M>(raw, c, straight, dfe, after, out);
    let n = PHASE_EST_LEN as int;
    assert(head_len(raw.len()) == n);
    assert(raw.subrange(0, n) =~= through::<M>(head_bits(), space, mark));
    assert(training::<M>().subrange(0, n) =~= modulated::<M>(head_bits()));
    lemma_alignment_restores::<M>(bits, space, mark, c, straight);
    let known = training::<M>();
    assert forall|i: int| 0 <= i < 128 implies #[trigger] known[i] == straight[i] by {
        assert(bits[i] == bits_of(TRAINING_SEQUENCE@)[i]);
    }
    assert forall|i: int| 0 <= i < straight.len() implies is_sent::<M>(#[trigger] straight[i]) by {
        assert(straight[i] == modulated::<M>(bits)[i]);
    }
    law_clean_channel_passes_through::<M>(
        dfe,
        DEFAULT_FFF_LEN as nat,
        DEFAULT_FBF_LEN as nat,
        straight,
        known,
        128,
        after,
        out,
    );
}

/// A channel that only scales and turns does no harm: when the symbols that reach the equalizer
/// are those of a frame, each turned into the same other symbol, and the estimate of the channel
/// restores the two symbols, the payload is delivered, whatever bits follow the frame.
#[verifier::rlimit(30)]
pub proof fn law_one_tap_channel_delivers_payload<M: Arithmetic>(
    payload: Seq<u8>,
    rest: Seq<u8>,
    space: M::Symbol,
    mark: M::Symbol,
    cfg: Config<M>,
    samples: Seq<M::Real>,
    result: Result<Vec<u8>, DecodeError>,
    trace: DecodeTrace<M>,
)
    requires
        payload.len() <= MAX_PAYLOAD,
        tells_apart::<M>(),
        forall|mu: M::Real| #[trigger]
            call_ensures(M::fraction, (2, 100), mu) ==> exact_at_rest::<M>(mu),
        estimate_restores::<M>(space, mark),
        received::<M>(cfg, samples, result, trace),
        trace.pre_eq_symbols@ == through::<M>(sent_bits::<M>(payload, cfg) + rest, space, mark),
    ensures
        result matches Ok(out) && out@ == payload,
        trace.symbols@ == modulated::<M>(sent_bits::<M>(payload, cfg) + rest),
{
    let sent = sent_bits::<M>(payload, cfg);
    let bits = sent + rest;
    lemma_training_comes_first::<M>(payload, cfg);
    assert(trace.pre_eq_symbols@.len() == bits.len());
    let _read = lemma_symbols_tell::<M>(cfg, samples, result, trace);
    assert forall|i: int| 0 <= i < 128 implies #[trigger] bits[i] == bits_of(
        TRAINING_SEQUENCE@,
    )[i] by {
        assert(bits[i] == sent[i]);
    }
    lemma_equalizer_restores::<M>(bits, space, mark, trace.symbols@);
    assert(modulated::<M>(bits) =~= modulated::<M>(sent) + modulated::<M>(rest));
    law_sent_symbols_are_readable::<M>(payload, cfg, modulated::<M>(rest));
    law_readable_symbols_deliver_payload::<M>(payload, cfg, samples, result, trace);
}

} // verus!
