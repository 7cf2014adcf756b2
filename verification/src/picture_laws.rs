//! Laws of settings, logs and pictures.

use vstd::prelude::*;

use crate::arith::Arithmetic;
use crate::bpsk::modulated;
use crate::capture::BUFFER_CAPACITY_SECONDS;
use crate::config::Config;
use crate::exact::{max, within, Exact};
use crate::measure_laws::{law_colours_follow_the_levels, law_colours_span_the_window, warmth};
use crate::monitor::{
    bin_shown, cell_shows, column_shown, flattened, latest, percentile_ranks, percentiles, picture,
    shaded, window_span, Heat, LogView, SPECTROGRAM_SECONDS, STFT_HOP, STFT_WINDOW,
};
use crate::order::{ascending, in_order, sorted_from};

verus! {

// ---------------------------------------------------------------------------------------------
// Settings
// ---------------------------------------------------------------------------------------------

/// The default settings: 48 samples a symbol, a thousand symbols a second on a carrier of 6 kHz,
/// behind a chirp of 50 ms that sweeps the band around the carrier.
pub proof fn law_default_settings<M: Arithmetic>(v: Exact<M>, c: Config<M>)
    requires
        v.holds(),
        call_ensures(<Config<M> as Default>::default, (), c),
    ensures
        c.sample_rate == 48_000 && c.baud == 1_000 && c.samples_per_symbol() == 48,
        v.of(c.carrier_hz) == 6000real,
        v.of(c.chirp_f0_hz) == v.of(c.carrier_hz) - 2000real,
        v.of(c.chirp_f1_hz) == v.of(c.carrier_hz) + 2000real,
        v.of(c.chirp_dur_ms) == 50real,
        100real * v.of(c.rrc_beta) == 35real,
        c.rrc_span_symbols == 8,
        10real * v.of(c.chirp_detect_threshold) == 3real,
{
    assert(6000real / 1real == 6000real && 4000real / 1real == 4000real && 8000real / 1real
        == 8000real && 50real / 1real == 50real);
}

/// A symbol has as many whole samples as fit into its time.
pub proof fn law_samples_fit_into_a_symbol<M: Arithmetic>(c: Config<M>)
    requires
        c.baud > 0,
    ensures
        c.samples_per_symbol() * c.baud <= c.sample_rate < (c.samples_per_symbol() + 1) * c.baud,
{
    let q = c.sample_rate as int / c.baud as int;
    vstd::arithmetic::div_mod::lemma_fundamental_div_mod(c.sample_rate as int, c.baud as int);
    assert((q + 1) * c.baud == q * c.baud + c.baud) by (nonlinear_arith);
    assert(q * c.baud == c.baud as int * q) by (nonlinear_arith);
}

/// A 0 is sent as +1 and any other bit as -1, both on the real axis.
pub proof fn law_bits_become_signs<M: Arithmetic>(v: Exact<M>, bits: Seq<u8>, i: int)
    requires
        v.holds(),
        0 <= i < bits.len(),
    ensures
        modulated::<M>(bits).len() == bits.len(),
        v.im(modulated::<M>(bits)[i]) == 0real,
        v.re(modulated::<M>(bits)[i]) == if bits[i] == 0 {
            1real
        } else {
            -1real
        },
{
}

// ---------------------------------------------------------------------------------------------
// Logs
// ---------------------------------------------------------------------------------------------

/// Every attempt counts once, every payload counts once more, and only a payload changes what was
/// received last.
pub proof fn law_log_counts_attempts_and_payloads(log: LogView, payload: Option<Seq<u8>>)
    ensures
        log.after(payload).attempts == log.attempts + 1,
        match payload {
            Some(p) => {
                &&& log.after(payload).successes == log.successes + 1
                &&& log.after(payload).last_payload_len == Some(p.len())
                &&& log.after(payload).last_written == payload
            },
            None => {
                &&& log.after(payload).successes == log.successes
                &&& log.after(payload).last_payload_len == log.last_payload_len
                &&& log.after(payload).last_written == log.last_written
            },
        },
{
}

// ---------------------------------------------------------------------------------------------
// Pictures
// ---------------------------------------------------------------------------------------------

/// The windows of the spectrogram overlap by three quarters; it shows three seconds, and listening
/// remembers six.
pub proof fn law_windows_overlap_by_three_quarters()
    ensures
        STFT_WINDOW == 1_024 && 4 * STFT_HOP == STFT_WINDOW,
        SPECTROGRAM_SECONDS == 3 && BUFFER_CAPACITY_SECONDS == 6,
{
}

/// A constellation shows the newest symbols, the newest first, and 512 at most.
pub proof fn law_constellation_shows_the_newest<T>(symbols: Seq<T>)
    ensures
        latest(symbols).len() == if symbols.len() < 512 {
            symbols.len()
        } else {
            512
        },
        forall|i: int|
            0 <= i < latest(symbols).len() ==> #[trigger] latest(symbols)[i]
                == symbols[symbols.len() - 1 - i],
{
}

/// What is in ascending order rises from any place to any later one.
pub proof fn lemma_rises<M: Arithmetic>(v: Exact<M>, s: Seq<M::Real>, i: int, j: int)
    requires
        v.holds(),
        ascending::<M>(s),
        0 <= i <= j < s.len(),
    ensures
        v.of(s[i]) <= v.of(s[j]),
    decreases j - i,
{
    if i < j {
        lemma_rises::<M>(v, s, i, j - 1);
        assert(in_order::<M>(s[j - 1], s[j]));
    }
}

/// The colours reach from the level that a twentieth of all levels do not exceed to the level that
/// nineteen twentieths do not exceed.
pub proof fn law_colours_reach_from_percentile_to_percentile<M: Arithmetic>(
    v: Exact<M>,
    columns: Seq<Vec<M::Real>>,
    lo: M::Real,
    hi: M::Real,
)
    requires
        v.holds(),
        flattened(columns, columns.len()).len() > 0,
        percentiles::<M>(columns, lo, hi),
    ensures
        exists|sorted: Seq<M::Real>, a: int, b: int|
            {
                &&& #[trigger] sorted_from::<M>(flattened(columns, columns.len()), sorted)
                &&& sorted.to_multiset() == flattened(columns, columns.len()).to_multiset()
                &&& forall|i: int, j: int|
                    0 <= i <= j < sorted.len() ==> v.of(#[trigger] sorted[i]) <= v.of(
                        #[trigger] sorted[j],
                    )
                &&& 20 * a <= sorted.len() < 20 * (a + 1)
                &&& 20 * b <= 19 * sorted.len() < 20 * (b + 1)
                &&& lo == #[trigger] sorted[a]
                &&& hi == #[trigger] sorted[b]
            },
        v.of(lo) <= v.of(hi),
{
    let all = flattened(columns, columns.len());
    let sorted = choose|sorted: Seq<M::Real>|
        {
            &&& #[trigger] sorted_from::<M>(all, sorted)
            &&& sorted.len() == all.len()
            &&& lo == sorted[percentile_ranks(sorted.len() as int).0]
            &&& hi == sorted[percentile_ranks(sorted.len() as int).1]
        };
    let (a, b) = percentile_ranks(sorted.len() as int);
    assert forall|i: int, j: int| 0 <= i <= j < sorted.len() implies v.of(#[trigger] sorted[i])
        <= v.of(#[trigger] sorted[j]) by {
        lemma_rises::<M>(v, sorted, i, j);
    }
    assert(lo == sorted[a] && hi == sorted[b]);
}

/// Cell `cy * w + cx` shows row `cy` of column `cx`: the newest column on the right, the highest
/// frequency on top, in the colour nearest to its level; a cell without a column shows nothing.
pub proof fn law_cells_show_levels_row_by_row<M: Arithmetic>(
    v: Exact<M>,
    columns: Seq<Vec<M::Real>>,
    w: int,
    h: int,
    lo: M::Real,
    hi: M::Real,
    cells: Seq<Option<Heat>>,
    cx: int,
    cy: int,
)
    requires
        v.holds(),
        0 <= cx < w,
        0 <= cy < h,
        picture::<M>(columns, w, h, lo, hi, cells),
    ensures
        cells.len() == w * h,
        ({
            let n = columns.len() as int;
            let cell = cells[cy * w + cx];
            if w - cx > n {
                cell is None
            } else {
                let bins = columns[0]@.len() as int;
                let rows = if h > 2 {
                    h - 1
                } else {
                    1
                };
                let mag = columns[n - (w - cx)]@[((h - 1 - cy) * (bins - 1)) / rows];
                let place = within(
                    (v.of(mag) - v.of(lo)) / max(v.of(hi) - v.of(lo), 1real / 1_000_000real),
                    0real,
                    1real,
                );
                cell is Some && -1real <= 2real * (6real * place - (warmth(cell->0) as real))
                    <= 1real
            }
        }),
{
    let span = choose|span: M::Real|
        #[trigger] window_span::<M>(lo, hi, span) && forall|i: int|
            0 <= i < cells.len() ==> cell_shows::<M>(
                columns,
                w,
                h,
                lo,
                span,
                i % w,
                i / w,
                #[trigger] cells[i],
            );
    let i = cy * w + cx;
    assert(0 <= i < w * h) by (nonlinear_arith)
        requires
            i == cy * w + cx,
            0 <= cx < w,
            0 <= cy < h,
    ;
    vstd::arithmetic::div_mod::lemma_fundamental_div_mod_converse(i, w, cy, cx);
    let cell = cells[i];
    assert(cell_shows::<M>(columns, w, h, lo, span, cx, cy, cell));
    law_colours_span_the_window::<M>(v, lo, hi, span);
    let n = columns.len() as int;
    if w - cx <= n {
        let bins = columns[0]@.len() as int;
        let mag = columns[cx + n - w]@[bin_shown(cy, h, bins)];
        assert(column_shown(cx, w, n) == Some(cx + n - w));
        assert(shaded::<M>(mag, lo, span, cell->0));
        law_colours_follow_the_levels::<M>(v, mag, lo, span, cell->0);
    }
}

} // verus!
