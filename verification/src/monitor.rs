//! What a live display shows.

use vstd::prelude::*;
use vstd::string::*;

use crate::arith::{
    clamp, clamped, filled, lemma_reached_next, lemma_reached_none, reached, Arithmetic,
};
use crate::capture::time_is_up;
use crate::formula::{Formula, Term};
use crate::order::{sort, sorted_from};
use crate::rx::DecodeError;
use crate::text::{decimal, push_decimal, push_signed, signed_decimal};

verus! {

/// How many seconds of audio the display keeps.
pub const SPECTROGRAM_SECONDS: u64 = 3;

/// How many of the latest symbols the constellation shows.
pub const CONSTELLATION_POINTS: usize = 512;

/// Samples in a column of the spectrogram.
pub const STFT_WINDOW: usize = 1024;

/// Samples from one column of the spectrogram to the next.
pub const STFT_HOP: usize = 256;

// ---------------------------------------------------------------------------------------------
// The decoder's record
// ---------------------------------------------------------------------------------------------

/// What a decoder that runs all the time has seen.
pub struct DecoderLog {
    /// How often it tried.
    pub attempts: u64,
    /// How often it decoded a frame.
    pub successes: u64,
    /// The length of the payload that it decoded last.
    pub last_payload_len: Option<usize>,
    /// The payload that it handed out last.
    pub last_written: Option<Vec<u8>>,
}

/// A `DecoderLog` without its representation.
pub struct LogView {
    pub attempts: nat,
    pub successes: nat,
    pub last_payload_len: Option<nat>,
    pub last_written: Option<Seq<u8>>,
}

impl View for DecoderLog {
    type V = LogView;

    open spec fn view(&self) -> LogView {
        LogView {
            attempts: self.attempts as nat,
            successes: self.successes as nat,
            last_payload_len: match self.last_payload_len {
                Some(n) => Some(n as nat),
                None => None,
            },
            last_written: match self.last_written {
                Some(p) => Some(p@),
                None => None,
            },
        }
    }
}

/// What a decoder does after an attempt.
pub struct Reaction {
    /// The payload to hand out: one that differs from the one before.
    pub write: Option<Vec<u8>>,
    /// Whether to clear the capture, so that the same frame is not decoded again.
    pub clear: bool,
}

impl LogView {
    /// The record after an attempt that decoded `payload`, or nothing.
    pub open spec fn after(self, payload: Option<Seq<u8>>) -> LogView {
        match payload {
            Some(p) => LogView {
                attempts: self.attempts + 1,
                successes: self.successes + 1,
                last_payload_len: Some(p.len()),
                last_written: Some(p),
            },
            None => LogView { attempts: self.attempts + 1, ..self },
        }
    }

    /// What is handed out after an attempt that decoded `payload`, or nothing.
    pub open spec fn news(self, payload: Option<Seq<u8>>) -> Option<Seq<u8>> {
        if payload is Some && payload != self.last_written {
            payload
        } else {
            None
        }
    }

    /// There were no more successes than attempts.
    pub open spec fn wf(self) -> bool {
        self.successes <= self.attempts
    }
}

/// The payload that an attempt decoded.
pub open spec fn payload_of(result: Result<Vec<u8>, DecodeError>) -> Option<Seq<u8>> {
    match result {
        Ok(p) => Some(p@),
        Err(_) => None,
    }
}

fn same_bytes(a: &Vec<u8>, b: &Vec<u8>) -> (r: bool)
    ensures
        r == (a@ == b@),
{
    if a.len() != b.len() {
        return false;
    }
    let mut i: usize = 0;
    while i < a.len()
        invariant
            i <= a@.len(),
            a@.len() == b@.len(),
            forall|k: int| 0 <= k < i ==> a@[k] == b@[k],
        decreases a@.len() - i,
    {
        if a[i] != b[i] {
            return false;
        }
        i = i + 1;
    }
    assert(a@ =~= b@);
    true
}

impl DecoderLog {
    /// A decoder that has seen nothing.
    pub fn new() -> (log: Self)
        ensures
            log@ == (LogView {
                attempts: 0,
                successes: 0,
                last_payload_len: None,
                last_written: None,
            }),
            log@.wf(),
    {
        DecoderLog { attempts: 0, successes: 0, last_payload_len: None, last_written: None }
    }

    /// Records an attempt.
    pub fn record(&mut self, result: Result<Vec<u8>, DecodeError>) -> (r: Reaction)
        requires
            old(self)@.wf(),
            old(self).attempts < u64::MAX,
        ensures
            final(self)@.wf(),
            final(self)@ == old(self)@.after(payload_of(result)),
            match r.write {
                Some(p) => old(self)@.news(payload_of(result)) == Some(p@),
                None => old(self)@.news(payload_of(result)) is None,
            },
            r.clear == result is Ok,
    {
        self.attempts = self.attempts + 1;
        match result {
            Ok(payload) => {
                self.successes = self.successes + 1;
                self.last_payload_len = Some(payload.len());
                let known = match &self.last_written {
                    Some(last) => same_bytes(last, &payload),
                    None => false,
                };
                if known {
                    Reaction { write: None, clear: true }
                } else {
                    self.last_written = Some(payload.clone());
                    Reaction { write: Some(payload), clear: true }
                }
            },
            Err(_) => Reaction { write: None, clear: false },
        }
    }
}

/// What was handed out is handed out once: the same payload again is no news, and another one is.
pub proof fn law_news_are_new(log: LogView, first: Seq<u8>, second: Seq<u8>)
    ensures
        log.after(Some(first)).news(Some(second)) == if second == first {
            None
        } else {
            Some(second)
        },
        log.after(None).news(Some(second)) == log.news(Some(second)),
{
}

// ---------------------------------------------------------------------------------------------
// Keys and time
// ---------------------------------------------------------------------------------------------

/// A key, as far as the display cares.
#[derive(Clone, Copy, Debug, PartialEq, Eq, Structural)]
pub enum Key {
    Char(char),
    Esc,
    Other,
}

/// Whether a key, pressed together with Ctrl or without it, ends the display.
pub fn quits(key: Key, ctrl: bool) -> (r: bool)
    ensures
        r == (key == Key::Esc || key == Key::Char('q') || key == Key::Char('c') && ctrl),
{
    match key {
        Key::Char(c) => c == 'q' || (c == 'c' && ctrl),
        Key::Esc => true,
        Key::Other => false,
    }
}

/// Whether the display goes on: nobody has shut it down, and it has no time limit or has not
/// reached it.
pub fn goes_on(shutdown: bool, elapsed: u128, timeout: Option<u128>) -> (r: bool)
    ensures
        r == (!shutdown && (timeout matches Some(limit) ==> elapsed <= limit)),
{
    if shutdown {
        return false;
    }
    match timeout {
        Some(limit) => !time_is_up(elapsed, limit),
        None => true,
    }
}

// ---------------------------------------------------------------------------------------------
// The level meter
// ---------------------------------------------------------------------------------------------

/// `b` is the meter at `a` one picture later.
pub open spec fn decays<M: Arithmetic>(a: M::Real, b: M::Real) -> bool {
    exists|part: M::Real|
        call_ensures(M::fraction, (80, 100), part) && #[trigger] call_ensures(
            M::times,
            (a, part),
            b,
        )
}

/// Lets the meter decay between pictures, so that it follows the envelope.
pub fn decay<M: Arithmetic>(level: M::Real) -> (r: M::Real)
    ensures
        decays::<M>(level, r),
{
    let part = M::fraction(80, 100);
    let r = M::times(level, part);
    assert(call_ensures(M::times, (level, part), r));
    r
}

/// `r` is the level `level` in decibels below full scale, -120 for next to nothing.
pub open spec fn in_decibels<M: Arithmetic>(level: M::Real, r: M::Real) -> bool {
    exists|least: M::Real, heard: bool|
        {
            &&& call_ensures(M::fraction, (1, 1_000_000), least)
            &&& #[trigger] call_ensures(M::exceeds, (level, least), heard)
            &&& if heard {
                Formula::<M>::Fraction(20, 1).times(Formula::Given(level).logarithm()).yields(r)
            } else {
                Formula::<M>::Fraction(120, 1).negated().yields(r)
            }
        }
}

/// The level in decibels below full scale.
pub fn decibels<M: Arithmetic>(level: M::Real) -> (r: M::Real)
    ensures
        in_decibels::<M>(level, r),
{
    let least = M::fraction(1, 1_000_000);
    let heard = M::exceeds(level, least);
    assert(call_ensures(M::exceeds, (level, least), heard));
    if heard {
        Term::<M>::fraction(20, 1).times(Term::given(level).logarithm()).value
    } else {
        Term::<M>::fraction(120, 1).negated().value
    }
}

// ---------------------------------------------------------------------------------------------
// The spectrogram
// ---------------------------------------------------------------------------------------------

/// The ranks, among `n` sorted values, of the 5th and the 95th percentile.
pub open spec fn percentile_ranks(n: int) -> (int, int) {
    (n / 20, n * 19 / 20)
}

/// The 5th and the 95th percentile of `sorted`.
pub fn percentile_window<T: Copy>(sorted: &[T]) -> (r: (T, T))
    requires
        0 < sorted@.len(),
        sorted@.len() * 19 <= usize::MAX,
    ensures
        r == (
            sorted@[percentile_ranks(sorted@.len() as int).0],
            sorted@[percentile_ranks(sorted@.len() as int).1],
        ),
{
    let n: usize = sorted.len();
    (sorted[n / 20], sorted[n * 19 / 20])
}

/// The values of the first `n` columns, one after the other.
pub open spec fn flattened<R>(columns: Seq<Vec<R>>, n: nat) -> Seq<R>
    decreases n,
{
    if n == 0 {
        Seq::empty()
    } else {
        flattened(columns, (n - 1) as nat) + columns[n - 1]@
    }
}

/// `lo` and `hi` are the 5th and the 95th percentile of all values in `columns`.
pub open spec fn percentiles<M: Arithmetic>(
    columns: Seq<Vec<M::Real>>,
    lo: M::Real,
    hi: M::Real,
) -> bool {
    exists|sorted: Seq<M::Real>|
        {
            &&& #[trigger] sorted_from::<M>(flattened(columns, columns.len()), sorted)
            &&& sorted.len() == flattened(columns, columns.len()).len()
            &&& lo == sorted[percentile_ranks(sorted.len() as int).0]
            &&& hi == sorted[percentile_ranks(sorted.len() as int).1]
        }
}

/// The 5th and the 95th percentile of all values in `columns`: a window for the magnitudes that
/// does not depend on the absolute signal level.
pub fn magnitude_window<M: Arithmetic>(columns: &[Vec<M::Real>]) -> (r: (M::Real, M::Real))
    requires
        0 < flattened(columns@, columns@.len()).len(),
        flattened(columns@, columns@.len()).len() * 19 <= usize::MAX,
    ensures
        percentiles::<M>(columns@, r.0, r.1),
{
    let mut flat: Vec<M::Real> = Vec::new();
    let mut c: usize = 0;
    while c < columns.len()
        invariant
            c <= columns@.len(),
            flat@ == flattened(columns@, c as nat),
        decreases columns@.len() - c,
    {
        let column = &columns[c];
        let ghost before = flat@;
        let mut k: usize = 0;
        while k < column.len()
            invariant
                k <= column@.len(),
                flat@ == before + column@.subrange(0, k as int),
            decreases column@.len() - k,
        {
            flat.push(column[k]);
            k = k + 1;
            assert(flat@ =~= before + column@.subrange(0, k as int));
        }
        assert(column@.subrange(0, k as int) =~= column@);
        c = c + 1;
    }
    let sorted = sort::<M>(flat.as_slice());
    assert(sorted_from::<M>(flattened(columns@, columns@.len()), sorted@));
    percentile_window(sorted.as_slice())
}

/// The percentile ranks are ranks, in order.
pub proof fn law_percentiles_are_ordered(n: int)
    requires
        n > 0,
    ensures
        0 <= percentile_ranks(n).0 <= percentile_ranks(n).1 < n,
{
}

/// The column that cell `cx` of `w` shows of `n` columns, the newest on the right; none if there
/// are too few to fill the area.
pub open spec fn column_shown(cx: int, w: int, n: int) -> Option<int> {
    if cx + n < w {
        None
    } else {
        Some(cx + n - w)
    }
}

/// The frequency bin that row `cy` of `h` shows of `bins`: the highest at the top, the lowest at
/// the bottom.
pub open spec fn bin_shown(cy: int, h: int, bins: int) -> int {
    ((h - 1 - cy) * (bins - 1)) / if h - 1 > 1 {
        h - 1
    } else {
        1
    }
}

/// The cells of the area show columns and bins that there are.
pub proof fn law_cells_show_what_there_is(cx: int, w: int, n: int, cy: int, h: int, bins: int)
    requires
        0 <= cx < w,
        0 <= n,
        0 <= cy < h,
        0 < bins,
    ensures
        column_shown(cx, w, n) matches Some(c) ==> 0 <= c < n,
        0 <= bin_shown(cy, h, bins) < bins,
{
    let a = h - 1 - cy;
    let d = if h - 1 > 1 {
        h - 1
    } else {
        1
    };
    assert(0 <= a * (bins - 1) <= d * (bins - 1)) by (nonlinear_arith)
        requires
            0 <= a <= d,
            bins > 0,
    ;
    assert(0 <= (a * (bins - 1)) / d <= bins - 1) by (nonlinear_arith)
        requires
            0 <= a * (bins - 1) <= d * (bins - 1),
            d >= 1,
    ;
}

/// The rightmost cell shows the newest column, and each cell to the left the one before.
pub proof fn law_newest_column_is_on_the_right(w: int, n: int, back: int)
    requires
        0 <= back < w,
        back < n,
    ensures
        column_shown(w - 1 - back, w, n) == Some(n - 1 - back),
{
}

/// The top row shows the highest bin, the bottom row the lowest, and no row a higher bin than
/// the row above it.
pub proof fn law_frequency_rises_to_the_top(h: int, bins: int, cy: int)
    requires
        h > 1,
        bins > 0,
        0 <= cy < h - 1,
    ensures
        bin_shown(0, h, bins) == bins - 1,
        bin_shown(h - 1, h, bins) == 0,
        bin_shown(cy + 1, h, bins) <= bin_shown(cy, h, bins),
{
    assert(((h - 1) * (bins - 1)) / (h - 1) == bins - 1) by (nonlinear_arith)
        requires
            h > 1,
    ;
    assert((0 * (bins - 1)) / (h - 1) == 0) by (nonlinear_arith)
        requires
            h > 1,
    ;
    let a = h - 1 - cy;
    assert((a - 1) * (bins - 1) <= a * (bins - 1)) by (nonlinear_arith)
        requires
            bins > 0,
    ;
    vstd::arithmetic::div_mod::lemma_div_is_ordered(
        (a - 1) * (bins - 1),
        a * (bins - 1),
        h - 1,
    );
}

/// The colours of the spectrogram, from silence to full level.
#[derive(Clone, Copy, Debug, PartialEq, Eq, Structural)]
pub enum Heat {
    Black,
    Navy,
    Blue,
    Cyan,
    Green,
    Yellow,
    Red,
}

/// The colour at `step` of the ramp; what lies beyond its end is red.
pub open spec fn heat(step: int) -> Heat {
    if step == 0 {
        Heat::Black
    } else if step == 1 {
        Heat::Navy
    } else if step == 2 {
        Heat::Blue
    } else if step == 3 {
        Heat::Cyan
    } else if step == 4 {
        Heat::Green
    } else if step == 5 {
        Heat::Yellow
    } else {
        Heat::Red
    }
}

/// `color` is the colour for `t`, which runs from 0 to 1.
pub open spec fn coloured<M: Arithmetic>(t: M::Real, color: Heat) -> bool {
    exists|last: M::Real, x: M::Real, step: usize|
        {
            &&& call_ensures(M::count, (6,), last)
            &&& #[trigger] call_ensures(M::times, (t, last), x)
            &&& #[trigger] call_ensures(M::nearest, (x,), step)
            &&& color == heat(step as int)
        }
}

/// The colour for `t`, which runs from 0 to 1.
pub fn heat_color<M: Arithmetic>(t: M::Real) -> (color: Heat)
    ensures
        coloured::<M>(t, color),
{
    let last = M::count(6);
    let x = M::times(t, last);
    let step: usize = M::nearest(x);
    proof {
        assert(call_ensures(M::times, (t, last), x));
        assert(call_ensures(M::nearest, (x,), step));
    }
    match step {
        0 => Heat::Black,
        1 => Heat::Navy,
        2 => Heat::Blue,
        3 => Heat::Cyan,
        4 => Heat::Green,
        5 => Heat::Yellow,
        _ => Heat::Red,
    }
}

/// `span` is the width of the window from `lo` to `hi`, and not too small to divide by.
pub open spec fn window_span<M: Arithmetic>(lo: M::Real, hi: M::Real, span: M::Real) -> bool {
    exists|width: M::Real, least: M::Real|
        {
            &&& call_ensures(M::minus, (hi, lo), width)
            &&& call_ensures(M::fraction, (1, 1_000_000), least)
            &&& #[trigger] call_ensures(M::larger, (width, least), span)
        }
}

/// `color` shows the magnitude `mag` in the window that starts at `lo` and is `span` wide.
pub open spec fn shaded<M: Arithmetic>(
    mag: M::Real,
    lo: M::Real,
    span: M::Real,
    color: Heat,
) -> bool {
    exists|above: M::Real, part: M::Real, t: M::Real|
        {
            &&& call_ensures(M::minus, (mag, lo), above)
            &&& #[trigger] call_ensures(M::over, (above, span), part)
            &&& #[trigger] clamped::<M>(part, M::ZERO, M::ONE, t)
            &&& coloured::<M>(t, color)
        }
}

fn shade<M: Arithmetic>(mag: M::Real, lo: M::Real, span: M::Real) -> (color: Heat)
    ensures
        shaded::<M>(mag, lo, span, color),
{
    let above = M::minus(mag, lo);
    let part = M::over(above, span);
    let t = clamp::<M>(part, M::ZERO, M::ONE);
    let color = heat_color::<M>(t);
    assert(call_ensures(M::over, (above, span), part));
    color
}

/// `cell` is what the area of `w` by `h` cells shows at (`cx`, `cy`).
pub open spec fn cell_shows<M: Arithmetic>(
    columns: Seq<Vec<M::Real>>,
    w: int,
    h: int,
    lo: M::Real,
    span: M::Real,
    cx: int,
    cy: int,
    cell: Option<Heat>,
) -> bool {
    match column_shown(cx, w, columns.len() as int) {
        None => cell is None,
        Some(c) => cell is Some && shaded::<M>(
            columns[c]@[bin_shown(cy, h, columns[0]@.len() as int)],
            lo,
            span,
            cell->0,
        ),
    }
}

/// `cells` is the picture of a log-magnitude spectrogram, row by row from the top: the colours
/// are scaled to the window from `lo` to `hi`, and cells before the oldest column stay empty.
pub open spec fn picture<M: Arithmetic>(
    columns: Seq<Vec<M::Real>>,
    w: int,
    h: int,
    lo: M::Real,
    hi: M::Real,
    cells: Seq<Option<Heat>>,
) -> bool {
    &&& cells.len() == w * h
    &&& exists|span: M::Real|
        #[trigger] window_span::<M>(lo, hi, span) && forall|i: int|
            0 <= i < cells.len() ==> cell_shows::<M>(
                columns,
                w,
                h,
                lo,
                span,
                i % w,
                i / w,
                #[trigger] cells[i],
            )
}

/// The first of `columns` has values, no other is shorter, and cells and values can be counted.
pub open spec fn can_draw<R>(columns: Seq<Vec<R>>, w: int, h: int) -> bool {
    &&& w + columns.len() <= usize::MAX
    &&& columns.len() > 0 ==> columns[0]@.len() > 0 && h * columns[0]@.len() <= usize::MAX
    &&& forall|c: int|
        0 <= c < columns.len() ==> (#[trigger] columns[c])@.len() >= columns[0]@.len()
}

/// Draws a log-magnitude spectrogram into an area of `w` by `h` cells, newest column on the
/// right.
pub fn draw_spectrogram<M: Arithmetic>(
    columns: &[Vec<M::Real>],
    w: usize,
    h: usize,
    lo: M::Real,
    hi: M::Real,
) -> (cells: Vec<Option<Heat>>)
    requires
        w * h <= usize::MAX,
        w > 0 && h > 0 ==> can_draw(columns@, w as int, h as int),
    ensures
        picture::<M>(columns@, w as int, h as int, lo, hi, cells@),
{
    let n: usize = columns.len();
    let bins: usize = if n == 0 {
        0
    } else {
        columns[0].len()
    };
    let width = M::minus(hi, lo);
    let least = M::fraction(1, 1_000_000);
    let span = M::larger(width, least);
    assert(call_ensures(M::larger, (width, least), span));
    assert(window_span::<M>(lo, hi, span));

    let mut cells: Vec<Option<Heat>> = Vec::with_capacity(w * h);
    let mut cy: usize = 0;
    assert(0 * w == 0);
    while cy < h
        invariant
            cy <= h,
            n == columns@.len(),
            n > 0 ==> bins == columns@[0]@.len(),
            w > 0 && h > 0 ==> can_draw(columns@, w as int, h as int),
            cells@.len() == cy * w,
            forall|i: int|
                0 <= i < cells@.len() ==> cell_shows::<M>(
                    columns@,
                    w as int,
                    h as int,
                    lo,
                    span,
                    i % (w as int),
                    i / (w as int),
                    #[trigger] cells@[i],
                ),
        decreases h - cy,
    {
        let mut cx: usize = 0;
        while cx < w
            invariant
                cx <= w,
                cy < h,
                n == columns@.len(),
                n > 0 ==> bins == columns@[0]@.len(),
                w > 0 && h > 0 ==> can_draw(columns@, w as int, h as int),
                cells@.len() == cy * w + cx,
                forall|i: int|
                    0 <= i < cells@.len() ==> cell_shows::<M>(
                        columns@,
                        w as int,
                        h as int,
                        lo,
                        span,
                        i % (w as int),
                        i / (w as int),
                        #[trigger] cells@[i],
                    ),
            decreases w - cx,
        {
            proof {
                vstd::arithmetic::div_mod::lemma_fundamental_div_mod_converse(
                    cy * w + cx,
                    w as int,
                    cy as int,
                    cx as int,
                );
            }
            let cell = if cx + n < w {
                None
            } else {
                proof {
                    law_cells_show_what_there_is(
                        cx as int,
                        w as int,
                        n as int,
                        cy as int,
                        h as int,
                        bins as int,
                    );
                    assert((h - 1 - cy) * (bins - 1) <= h * bins) by (nonlinear_arith)
                        requires
                            0 <= cy < h,
                            bins > 0,
                    ;
                    assert((h - 1 - cy) * (bins - 1) >= 0) by (nonlinear_arith)
                        requires
                            0 <= cy < h,
                            bins > 0,
                    ;
                }
                let rows: usize = if h - 1 > 1 {
                    h - 1
                } else {
                    1
                };
                let bin: usize = ((h - 1 - cy) * (bins - 1)) / rows;
                let column = &columns[cx + n - w];
                Some(shade::<M>(column[bin], lo, span))
            };
            cells.push(cell);
            cx = cx + 1;
        }
        assert((cy + 1) * w == cy * w + w) by (nonlinear_arith);
        cy = cy + 1;
    }
    assert(h * w == w * h) by (nonlinear_arith);
    cells
}

/// `cells` is the picture of the spectrogram `columns`, scaled to the percentiles of its values;
/// there is nothing to see without columns.
pub open spec fn scaled_picture<M: Arithmetic>(
    columns: Seq<Vec<M::Real>>,
    w: int,
    h: int,
    cells: Seq<Option<Heat>>,
) -> bool {
    if columns.len() == 0 || w == 0 || h == 0 {
        cells == Seq::new((w * h) as nat, |i: int| None::<Heat>)
    } else {
        exists|lo: M::Real, hi: M::Real|
            percentiles::<M>(columns, lo, hi) && #[trigger] picture::<M>(
                columns,
                w,
                h,
                lo,
                hi,
                cells,
            )
    }
}

/// Renders a log-magnitude spectrogram into an area of `w` by `h` cells, newest column on the
/// right, scaled to a percentile window of its own magnitudes.
pub fn render_spectrogram<M: Arithmetic>(columns: &[Vec<M::Real>], w: usize, h: usize) -> (cells:
    Vec<Option<Heat>>)
    requires
        w * h <= usize::MAX,
        w > 0 && h > 0 ==> can_draw(columns@, w as int, h as int),
        w > 0 && h > 0 ==> flattened(columns@, columns@.len()).len() * 19 <= usize::MAX,
    ensures
        scaled_picture::<M>(columns@, w as int, h as int, cells@),
{
    if w == 0 || h == 0 || columns.len() == 0 {
        let cells: Vec<Option<Heat>> = filled(None, w * h);
        assert(cells@ =~= Seq::new((w * h) as nat, |i: int| None::<Heat>));
        return cells;
    }
    proof {
        let n = columns@.len();
        assert(columns@[n - 1]@.len() >= columns@[0]@.len());
        assert(flattened(columns@, n) == flattened(columns@, (n - 1) as nat) + columns@[n - 1]@);
    }
    let (lo, hi) = magnitude_window::<M>(columns);
    draw_spectrogram::<M>(columns, w, h, lo, hi)
}

/// The title of the spectrogram.
pub open spec fn spectrogram_title_text(sample_rate: u32) -> Seq<char> {
    " Spectrogram  ·  0–"@ + decimal((sample_rate / 2) as nat) + " Hz  ·  last "@ + decimal(
        SPECTROGRAM_SECONDS as nat,
    ) + ".0s "@
}

/// The title of the spectrogram.
pub fn spectrogram_title(sample_rate: u32) -> (s: String)
    ensures
        s@ == spectrogram_title_text(sample_rate),
{
    let mut s = " Spectrogram  ·  0–".to_owned();
    push_decimal(&mut s, (sample_rate / 2) as u64);
    s.append(" Hz  ·  last ");
    push_decimal(&mut s, SPECTROGRAM_SECONDS);
    s.append(".0s ");
    s
}

// ---------------------------------------------------------------------------------------------
// The constellation
// ---------------------------------------------------------------------------------------------

/// How many of `n` symbols the constellation shows.
pub open spec fn points_shown(n: int) -> int {
    if n < CONSTELLATION_POINTS {
        n
    } else {
        CONSTELLATION_POINTS as int
    }
}

/// The latest symbols, the newest first.
pub open spec fn latest<T>(symbols: Seq<T>) -> Seq<T> {
    Seq::new(points_shown(symbols.len() as int) as nat, |i: int| symbols[symbols.len() - 1 - i])
}

/// The latest symbols, the newest first.
pub fn recent_points<T: Copy>(symbols: &[T]) -> (points: Vec<T>)
    ensures
        points@ == latest(symbols@),
{
    let n: usize = symbols.len();
    let take: usize = if n < CONSTELLATION_POINTS {
        n
    } else {
        CONSTELLATION_POINTS
    };
    let mut points: Vec<T> = Vec::with_capacity(take);
    let mut i: usize = 0;
    while i < take
        invariant
            i <= take <= n == symbols@.len(),
            points@.len() == i,
            forall|k: int| 0 <= k < i ==> #[trigger] points@[k] == symbols@[n - 1 - k],
        decreases take - i,
    {
        points.push(symbols[n - 1 - i]);
        i = i + 1;
    }
    assert(points@ =~= latest(symbols@));
    points
}

/// Step `i` adds the energy of point `i`.
pub open spec fn power_step<M: Arithmetic>(points: Seq<M::Symbol>) -> spec_fn(
    int,
    M::Real,
    M::Real,
) -> bool {
    |i: int, a: M::Real, b: M::Real|
        exists|e: M::Real|
            call_ensures(M::energy, (points[i],), e) && #[trigger] call_ensures(
                M::plus,
                (a, e),
                b,
            )
}

/// `rms` is the root of the mean energy of `points`, 1 where there are none, and never too small
/// to scale by.
pub open spec fn root_mean_square<M: Arithmetic>(points: Seq<M::Symbol>, rms: M::Real) -> bool {
    if points.len() == 0 {
        rms == M::ONE
    } else {
        exists|sum: M::Real, size: M::Real, mean: M::Real, root: M::Real, least: M::Real|
            {
                &&& reached(power_step::<M>(points), points.len(), M::ZERO, sum)
                &&& call_ensures(M::count, (points.len() as usize,), size)
                &&& #[trigger] call_ensures(M::over, (sum, size), mean)
                &&& call_ensures(M::root, (mean,), root)
                &&& call_ensures(M::fraction, (1, 1_000_000), least)
                &&& #[trigger] call_ensures(M::larger, (root, least), rms)
            }
    }
}

/// `scale` is how far the axes of the constellation of `points` reach: 2.5 times their root mean
/// square, which keeps the cluster centred.
pub open spec fn axis_reach<M: Arithmetic>(points: Seq<M::Symbol>, scale: M::Real) -> bool {
    exists|rms: M::Real, margin: M::Real|
        {
            &&& root_mean_square::<M>(points, rms)
            &&& call_ensures(M::fraction, (5, 2), margin)
            &&& #[trigger] call_ensures(M::times, (rms, margin), scale)
        }
}

/// How far the axes of the constellation reach.
pub fn constellation_scale<M: Arithmetic>(points: &[M::Symbol]) -> (scale: M::Real)
    ensures
        axis_reach::<M>(points@, scale),
{
    let n: usize = points.len();
    let rms = if n == 0 {
        M::ONE
    } else {
        let ghost step = power_step::<M>(points@);
        let mut sum = M::ZERO;
        proof {
            lemma_reached_none(step, sum);
        }
        let mut i: usize = 0;
        while i < n
            invariant
                i <= n == points@.len(),
                step == power_step::<M>(points@),
                reached(step, i as nat, M::ZERO, sum),
            decreases n - i,
        {
            let e = M::energy(points[i]);
            let more = M::plus(sum, e);
            proof {
                assert(call_ensures(M::plus, (sum, e), more));
                assert(step(i as int, sum, more));
                lemma_reached_next(step, i as nat, M::ZERO, sum, more);
            }
            sum = more;
            i = i + 1;
        }
        let size = M::count(n);
        let mean = M::over(sum, size);
        let root = M::root(mean);
        let least = M::fraction(1, 1_000_000);
        let rms = M::larger(root, least);
        proof {
            assert(call_ensures(M::over, (sum, size), mean));
            assert(call_ensures(M::larger, (root, least), rms));
        }
        rms
    };
    assert(root_mean_square::<M>(points@, rms));
    let margin = M::fraction(5, 2);
    let scale = M::times(rms, margin);
    assert(call_ensures(M::times, (rms, margin), scale));
    scale
}

/// The title of the constellation of `n` symbols.
pub open spec fn constellation_title_text(n: int) -> Seq<char> {
    " Constellation  ·  "@ + decimal(points_shown(n) as nat) + " pts "@
}

/// The title of the constellation of `n` symbols.
pub fn constellation_title(n: usize) -> (s: String)
    ensures
        s@ == constellation_title_text(n as int),
{
    let shown: usize = if n < CONSTELLATION_POINTS {
        n
    } else {
        CONSTELLATION_POINTS
    };
    let mut s = " Constellation  ·  ".to_owned();
    push_decimal(&mut s, shown as u64);
    s.append(" pts ");
    s
}

// ---------------------------------------------------------------------------------------------
// The status
// ---------------------------------------------------------------------------------------------

/// How sure the receiver is of the chirp.
#[derive(Clone, Copy, Debug, PartialEq, Eq, Structural)]
pub enum Lock {
    /// The threshold is reached.
    Locked,
    /// Half of the threshold is reached.
    Near,
    Absent,
}

/// `lock` is how sure the receiver is when the peak ratio is `ratio`.
pub open spec fn locks<M: Arithmetic>(ratio: M::Real, threshold: M::Real, lock: Lock) -> bool {
    ||| call_ensures(M::reaches, (ratio, threshold), true) && lock == Lock::Locked
    ||| call_ensures(M::reaches, (ratio, threshold), false) && exists|half: M::Real, near: M::Real|
        {
            &&& call_ensures(M::fraction, (1, 2), half)
            &&& #[trigger] call_ensures(M::times, (threshold, half), near)
            &&& {
                ||| call_ensures(M::reaches, (ratio, near), true) && lock == Lock::Near
                ||| call_ensures(M::reaches, (ratio, near), false) && lock == Lock::Absent
            }
        }
}

/// How sure the receiver is of the chirp when the peak ratio is `ratio`.
pub fn lock_state<M: Arithmetic>(ratio: M::Real, threshold: M::Real) -> (lock: Lock)
    ensures
        locks::<M>(ratio, threshold, lock),
{
    if M::reaches(ratio, threshold) {
        return Lock::Locked;
    }
    let half = M::fraction(1, 2);
    let near = M::times(threshold, half);
    assert(call_ensures(M::times, (threshold, half), near));
    if M::reaches(ratio, near) {
        Lock::Near
    } else {
        Lock::Absent
    }
}

/// How a value is set off.
#[derive(Clone, Copy, Debug, PartialEq, Eq, Structural)]
pub enum Tone {
    /// As the terminal does it.
    Plain,
    /// In the default colour of the terminal.
    Reset,
    Green,
    Yellow,
    Gray,
}

/// A line of the status: a label in gray, and a value.
pub struct StatusLine {
    pub label: String,
    pub value: String,
    pub tone: Tone,
    pub bold: bool,
}

/// A `StatusLine` without its representation.
pub struct LineView {
    pub label: Seq<char>,
    pub value: Seq<char>,
    pub tone: Tone,
    pub bold: bool,
}

impl View for StatusLine {
    type V = LineView;

    open spec fn view(&self) -> LineView {
        LineView { label: self.label@, value: self.value@, tone: self.tone, bold: self.bold }
    }
}

/// What the status tells of. Measured values come as text.
pub struct Readings {
    /// The carrier in Hz.
    pub carrier: String,
    pub baud: u32,
    pub sample_rate: u32,
    /// The input level in dBFS.
    pub input: String,
    pub chirp_ratio: String,
    pub lock: Lock,
    pub sub_sample: String,
    pub best_phase_offset: i32,
    pub attempts: u64,
    pub successes: u64,
    pub last_payload_len: Option<usize>,
    /// How many seconds ago the last attempt was.
    pub last_attempt: Option<String>,
}

/// A line with an ordinary value.
pub open spec fn plain(label: Seq<char>, value: Seq<char>) -> LineView {
    LineView { label, value, tone: Tone::Plain, bold: false }
}

impl Lock {
    /// The colour for it.
    pub open spec fn tone(self) -> Tone {
        match self {
            Lock::Locked => Tone::Green,
            Lock::Near => Tone::Yellow,
            Lock::Absent => Tone::Gray,
        }
    }

    /// The word for it.
    pub open spec fn word(self) -> Seq<char> {
        if self == Lock::Locked {
            "lock ✓"@
        } else {
            "—"@
        }
    }
}

/// The lines of the status.
pub open spec fn status_lines(r: Readings) -> Seq<LineView> {
    seq![
        plain("Carrier   "@, r.carrier@ + " Hz"@),
        plain("Baud      "@, decimal(r.baud as nat)),
        plain("Sample rt "@, decimal(r.sample_rate as nat) + " Hz"@),
        plain(""@, ""@),
        plain("Input    "@, r.input@ + " dBFS"@),
        LineView {
            label: "Chirp    "@,
            value: r.chirp_ratio@ + "  "@ + r.lock.word(),
            tone: r.lock.tone(),
            bold: true,
        },
        plain("Sub-samp "@, r.sub_sample@),
        plain("Best Δφ  "@, signed_decimal(r.best_phase_offset as int) + " samples"@),
        plain(""@, ""@),
        plain("Attempts "@, decimal(r.attempts as nat)),
        LineView {
            label: "Decoded  "@,
            value: decimal(r.successes as nat),
            tone: if r.successes > 0 {
                Tone::Green
            } else {
                Tone::Reset
            },
            bold: false,
        },
        plain(
            "Last     "@,
            match r.last_payload_len {
                Some(n) => decimal(n as nat) + " B"@,
                None => "—"@,
            },
        ),
        plain(
            "Seen     "@,
            match r.last_attempt {
                Some(age) => age@ + "s ago"@,
                None => "—"@,
            },
        ),
        plain(""@, ""@),
        plain("q / Esc / Ctrl-C  →  quit"@, ""@),
    ]
}

fn line(label: &str, value: String) -> (l: StatusLine)
    ensures
        l@ == plain(label@, value@),
{
    StatusLine { label: label.to_owned(), value, tone: Tone::Plain, bold: false }
}

fn number(n: u64, unit: &str) -> (s: String)
    ensures
        s@ == decimal(n as nat) + unit@,
{
    let mut s = "".to_owned();
    proof {
        reveal_strlit("");
    }
    push_decimal(&mut s, n);
    s.append(unit);
    assert(s@ =~= decimal(n as nat) + unit@);
    s
}

fn with_unit(value: &String, unit: &str) -> (s: String)
    ensures
        s@ == value@ + unit@,
{
    let mut s = value.as_str().to_owned();
    s.append(unit);
    s
}

/// The lines of the status.
pub fn build_status(r: &Readings) -> (lines: Vec<StatusLine>)
    ensures
        lines@.map_values(|l: StatusLine| l@) == status_lines(*r),
{
    proof {
        reveal_strlit("");
    }
    let word: &str = match r.lock {
        Lock::Locked => "lock ✓",
        _ => "—",
    };
    let mut chirp = with_unit(&r.chirp_ratio, "  ");
    chirp.append(word);
    let chirp_tone = match r.lock {
        Lock::Locked => Tone::Green,
        Lock::Near => Tone::Yellow,
        Lock::Absent => Tone::Gray,
    };
    let mut phase = "".to_owned();
    push_signed(&mut phase, r.best_phase_offset);
    phase.append(" samples");
    let payload = match r.last_payload_len {
        Some(n) => number(n as u64, " B"),
        None => "—".to_owned(),
    };
    let seen = match &r.last_attempt {
        Some(age) => with_unit(age, "s ago"),
        None => "—".to_owned(),
    };
    let decoded_tone = if r.successes > 0 {
        Tone::Green
    } else {
        Tone::Reset
    };

    let mut lines: Vec<StatusLine> = Vec::new();
    lines.push(line("Carrier   ", with_unit(&r.carrier, " Hz")));
    lines.push(line("Baud      ", number(r.baud as u64, "")));
    lines.push(line("Sample rt ", number(r.sample_rate as u64, " Hz")));
    lines.push(line("", "".to_owned()));
    lines.push(line("Input    ", with_unit(&r.input, " dBFS")));
    lines.push(
        StatusLine { label: "Chirp    ".to_owned(), value: chirp, tone: chirp_tone, bold: true },
    );
    lines.push(line("Sub-samp ", with_unit(&r.sub_sample, "")));
    lines.push(line("Best Δφ  ", phase));
    lines.push(line("", "".to_owned()));
    lines.push(line("Attempts ", number(r.attempts, "")));
    lines.push(
        StatusLine {
            label: "Decoded  ".to_owned(),
            value: number(r.successes, ""),
            tone: decoded_tone,
            bold: false,
        },
    );
    lines.push(line("Last     ", payload));
    lines.push(line("Seen     ", seen));
    lines.push(line("", "".to_owned()));
    lines.push(line("q / Esc / Ctrl-C  →  quit", "".to_owned()));
    proof {
        let shown = lines@.map_values(|l: StatusLine| l@);
        let wanted = status_lines(*r);
        assert(shown[1].value =~= wanted[1].value);
        assert(shown[6].value =~= wanted[6].value);
        assert(shown[7].value =~= wanted[7].value);
        assert(shown[9].value =~= wanted[9].value);
        assert(shown[10].value =~= wanted[10].value);
        assert(shown =~= wanted);
    }
    lines
}

} // verus!
