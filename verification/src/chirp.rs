//! The preamble, and the search for it.

use vstd::prelude::*;

use crate::arith::{
    add_product, adds_product, clamp, clamped, lemma_reached_keeps, lemma_reached_next,
    lemma_reached_none, reached, square_step, sum_of_squares, Arithmetic,
};
use crate::config::{lasts, Config};
use crate::formula::{hann_term, hann_value, tells_below, Formula, Term};
use crate::order::{compares_by, strict_order};

verus! {

/// Sample `i` of a Hann-windowed linear chirp from `f0` to `f1` Hz that is `n` samples long.
pub open spec fn chirp_value<M: Arithmetic>(
    i: usize,
    n: usize,
    rate: u32,
    f0: M::Real,
    f1: M::Real,
) -> Formula<M> {
    let fs = Formula::Count(rate as usize);
    let slope = Formula::Given(f1).minus(Formula::Given(f0)).over(Formula::Count(n).over(fs));
    let t = Formula::Count(i).over(fs);
    let phase = Formula::Given(M::TAU).times(
        Formula::Given(f0).times(t).plus(Formula::Fraction(1, 2).times(slope).times(t).times(t)),
    );
    phase.sine().times(hann_value::<M>(i, n).larger(Formula::Given(M::ZERO)))
}

fn chirp_sample<M: Arithmetic>(i: usize, n: usize, rate: u32, f0: M::Real, f1: M::Real) -> (x:
    M::Real)
    requires
        n > 0,
    ensures
        chirp_value::<M>(i, n, rate, f0, f1).yields(x),
{
    let fs = Term::<M>::count(rate as usize);
    let slope = Term::given(f1).minus(Term::given(f0)).over(Term::count(n).over(fs));
    let t = Term::count(i).over(fs);
    let phase = Term::given(M::TAU).times(
        Term::given(f0).times(t).plus(Term::fraction(1, 2).times(slope).times(t).times(t)),
    );
    phase.sine().times(hann_term::<M>(i, n).larger(Term::given(M::ZERO))).value
}

/// `chirp` is the chirp that `cfg` describes.
pub open spec fn is_chirp<M: Arithmetic>(cfg: Config<M>, chirp: Seq<M::Real>) -> bool {
    &&& chirp.len() <= usize::MAX
    &&& lasts::<M>(cfg.chirp_dur_ms, cfg.sample_rate, chirp.len() as usize)
    &&& forall|i: int|
        0 <= i < chirp.len() ==> chirp_value::<M>(
            i as usize,
            chirp.len() as usize,
            cfg.sample_rate,
            cfg.chirp_f0_hz,
            cfg.chirp_f1_hz,
        ).yields(#[trigger] chirp[i])
}

/// Generate a Hann-windowed linear FM chirp from `chirp_f0_hz` to `chirp_f1_hz` over
/// `chirp_dur_ms`.
/// The Hann window suppresses spectral sidelobes for a cleaner matched-filter peak.
pub fn make_chirp<M: Arithmetic>(cfg: &Config<M>) -> (chirp: Vec<M::Real>)
    ensures
        is_chirp::<M>(*cfg, chirp@),
{
    let n: usize = cfg.chirp_len_samples();
    let mut chirp: Vec<M::Real> = Vec::with_capacity(n);
    let mut i: usize = 0;
    while i < n
        invariant
            i <= n,
            chirp@.len() == i,
            forall|k: int|
                0 <= k < i ==> chirp_value::<M>(
                    k as usize,
                    n,
                    cfg.sample_rate,
                    cfg.chirp_f0_hz,
                    cfg.chirp_f1_hz,
                ).yields(#[trigger] chirp@[k]),
        decreases n - i,
    {
        chirp.push(
            chirp_sample::<M>(i, n, cfg.sample_rate, cfg.chirp_f0_hz, cfg.chirp_f1_hz),
        );
        i = i + 1;
    }
    chirp
}

/// Where a chirp was found.
#[derive(Debug)]
pub struct ChirpHit<M: Arithmetic> {
    /// Index in the input signal where the chirp begins.
    pub start: usize,
    /// Absolute correlation value at the peak.
    pub peak_correlation: M::Real,
    /// Sum of squares of the chirp template: the autocorrelation peak.
    pub self_energy: M::Real,
    /// How far the peak lies from `start`, in samples, as far as its neighbours tell.
    pub sub_sample: M::Real,
}

impl<M: Arithmetic> Clone for ChirpHit<M> {
    fn clone(&self) -> (c: Self)
        ensures
            c == *self,
    {
        *self
    }
}

impl<M: Arithmetic> Copy for ChirpHit<M> {

}

/// Step `j` adds the product of sample `j` of the chirp and the sample of the signal that it
/// lies on when the chirp begins at `at`.
pub open spec fn overlap_step<M: Arithmetic>(
    signal: Seq<M::Real>,
    chirp: Seq<M::Real>,
    at: int,
) -> spec_fn(int, M::Real, M::Real) -> bool {
    |j: int, a: M::Real, b: M::Real|
        adds_product::<M>(a, signal[at + j], chirp[j], b)
}

/// `score` is the absolute correlation of the chirp and the signal from `at` on.
pub open spec fn correlates<M: Arithmetic>(
    signal: Seq<M::Real>,
    chirp: Seq<M::Real>,
    at: int,
    score: M::Real,
) -> bool {
    exists|sum: M::Real|
        #[trigger] call_ensures(M::magnitude, (sum,), score) && reached(
            overlap_step::<M>(signal, chirp, at),
            chirp.len(),
            M::ZERO,
            sum,
        )
}

/// `scores` holds the absolute correlation at every place where the chirp fits.
pub open spec fn sliding_scores<M: Arithmetic>(
    signal: Seq<M::Real>,
    chirp: Seq<M::Real>,
    scores: Seq<M::Real>,
) -> bool {
    &&& scores.len() == signal.len() - chirp.len() + 1
    &&& forall|i: int|
        0 <= i < scores.len() ==> correlates::<M>(signal, chirp, i, #[trigger] scores[i])
}

/// Step `i` moves on to score `i` if it exceeds the best so far.
pub open spec fn contest_step<M: Arithmetic>(scores: Seq<M::Real>) -> spec_fn(
    int,
    (int, M::Real),
    (int, M::Real),
) -> bool {
    |i: int, a: (int, M::Real), b: (int, M::Real)|
        {
            ||| call_ensures(M::exceeds, (scores[i], a.1), true) && b == (i, scores[i])
            ||| call_ensures(M::exceeds, (scores[i], a.1), false) && b == a
        }
}

/// `best` is the first of the largest scores: its place and its value, or place 0 and zero if
/// no score exceeds zero.
pub open spec fn first_peak<M: Arithmetic>(scores: Seq<M::Real>, best: (int, M::Real)) -> bool {
    reached(contest_step::<M>(scores), scores.len(), (0int, M::ZERO), best)
}

/// Twice the curvature of the parabola through three equally spaced values.
pub open spec fn curvature<M: Arithmetic>(
    before: M::Real,
    peak: M::Real,
    after: M::Real,
) -> Formula<M> {
    Formula::Given(before).minus(Formula::Fraction(2, 1).times(Formula::Given(peak))).plus(
        Formula::Given(after),
    )
}

/// `shift` is how far from the middle of three equally spaced values the vertex of the parabola
/// through them lies, at most half a step; zero if they do not bend down.
pub open spec fn vertex<M: Arithmetic>(
    before: M::Real,
    peak: M::Real,
    after: M::Real,
    shift: M::Real,
) -> bool {
    let bend = curvature::<M>(before, peak, after);
    ||| tells_below::<M>(bend, M::ZERO, false) && shift == M::ZERO
    ||| tells_below::<M>(bend, M::ZERO, true) && exists|
        x: M::Real,
        left: M::Real,
        right: M::Real,
    |
        {
            &&& Formula::Fraction(1, 2).times(
                Formula::Given(before).minus(Formula::Given(after)),
            ).over(bend).yields(x)
            &&& Formula::<M>::Fraction(1, 2).negated().yields(left)
            &&& call_ensures(M::fraction, (1, 2), right)
            &&& #[trigger] clamped::<M>(x, left, right, shift)
        }
}

/// Where the vertex of the parabola through three equally spaced values lies.
fn refine<M: Arithmetic>(before: M::Real, peak: M::Real, after: M::Real) -> (shift: M::Real)
    ensures
        vertex::<M>(before, peak, after, shift),
{
    let bend = Term::<M>::given(before).minus(Term::fraction(2, 1).times(Term::given(peak))).plus(
        Term::given(after),
    );
    if !bend.is_below(M::ZERO) {
        return M::ZERO;
    }
    let x = Term::fraction(1, 2).times(Term::given(before).minus(Term::given(after))).over(
        bend,
    ).value;
    let left = Term::<M>::fraction(1, 2).negated().value;
    let right = M::fraction(1, 2);
    clamp::<M>(x, left, right)
}

/// `shift` is the refinement of the peak from its neighbours, or zero where it lacks one.
pub open spec fn refined<M: Arithmetic>(
    scores: Seq<M::Real>,
    best: (int, M::Real),
    shift: M::Real,
) -> bool {
    if 0 < best.0 && best.0 + 1 < scores.len() {
        vertex::<M>(scores[best.0 - 1], best.1, scores[best.0 + 1], shift)
    } else {
        shift == M::ZERO
    }
}

/// What a search reports once it has all scores: the best of them if it exceeds `threshold`.
pub open spec fn verdict<M: Arithmetic>(
    scores: Seq<M::Real>,
    best: (int, M::Real),
    self_energy: M::Real,
    threshold: M::Real,
    hit: Option<ChirpHit<M>>,
) -> bool {
    match hit {
        None => call_ensures(M::exceeds, (best.1, threshold), false),
        Some(h) => {
            &&& call_ensures(M::exceeds, (best.1, threshold), true)
            &&& h.start == best.0
            &&& h.peak_correlation == best.1
            &&& h.self_energy == self_energy
            &&& refined::<M>(scores, best, h.sub_sample)
        },
    }
}

/// `hit` is the outcome of searching `signal` for `chirp`.
pub open spec fn found<M: Arithmetic>(
    signal: Seq<M::Real>,
    chirp: Seq<M::Real>,
    threshold_ratio: M::Real,
    hit: Option<ChirpHit<M>>,
) -> bool {
    if signal.len() < chirp.len() {
        hit is None
    } else {
        exists|scores: Seq<M::Real>, best: (int, M::Real), energy: M::Real, threshold: M::Real|
            {
                &&& sliding_scores::<M>(signal, chirp, scores)
                &&& first_peak::<M>(scores, best)
                &&& reached(square_step::<M>(chirp), chirp.len(), M::ZERO, energy)
                &&& call_ensures(M::times, (energy, threshold_ratio), threshold)
                &&& #[trigger] verdict::<M>(scores, best, energy, threshold, hit)
            }
    }
}

/// The absolute correlation of `chirp` and `signal` from `at` on.
fn correlation_at<M: Arithmetic>(
    signal: &[M::Real],
    chirp: &[M::Real],
    at: usize,
) -> (score: M::Real)
    requires
        at + chirp@.len() <= signal@.len(),
    ensures
        correlates::<M>(signal@, chirp@, at as int, score),
{
    let total: usize = signal.len();
    let ghost step = overlap_step::<M>(signal@, chirp@, at as int);
    let mut sum = M::ZERO;
    proof {
        lemma_reached_none(step, sum);
    }
    let mut j: usize = 0;
    while j < chirp.len()
        invariant
            j <= chirp@.len(),
            at + chirp@.len() <= signal@.len() == total,
            step == overlap_step::<M>(signal@, chirp@, at as int),
            reached(step, j as nat, M::ZERO, sum),
        decreases chirp@.len() - j,
    {
        let more = add_product::<M>(sum, signal[at + j], chirp[j]);
        proof {
            lemma_reached_next(step, j as nat, M::ZERO, sum, more);
        }
        sum = more;
        j = j + 1;
    }
    let score = M::magnitude(sum);
    assert(call_ensures(M::magnitude, (sum,), score));
    score
}

/// Search `signal` for the chirp via sliding cross-correlation.
/// Returns the index in `signal` where the chirp begins, along with the peak correlation
/// magnitude and the chirp's autocorrelation peak.
///
/// `threshold_ratio` (0..1): the peak must exceed this fraction of the chirp's self-energy to be
/// accepted. 0.3 is a reasonable default.
pub fn detect_chirp<M: Arithmetic>(
    signal: &[M::Real],
    chirp: &[M::Real],
    threshold_ratio: M::Real,
) -> (hit: Option<ChirpHit<M>>)
    ensures
        found::<M>(signal@, chirp@, threshold_ratio, hit),
{
    if signal.len() < chirp.len() {
        return None;
    }
    let self_energy = sum_of_squares::<M>(chirp);
    let threshold = M::times(self_energy, threshold_ratio);
    let last: usize = signal.len() - chirp.len();
    let mut scores: Vec<M::Real> = Vec::new();
    let mut i: usize = 0;
    while i < last
        invariant
            i <= last == signal@.len() - chirp@.len(),
            scores@.len() == i,
            forall|k: int|
                0 <= k < i ==> correlates::<M>(signal@, chirp@, k, #[trigger] scores@[k]),
        decreases last - i,
    {
        scores.push(correlation_at::<M>(signal, chirp, i));
        i = i + 1;
    }
    scores.push(correlation_at::<M>(signal, chirp, last));

    let ghost step = contest_step::<M>(scores@);
    let ghost start: (int, M::Real) = (0int, M::ZERO);
    let mut best_idx: usize = 0;
    let mut best_val = M::ZERO;
    proof {
        lemma_reached_none(step, start);
    }
    let mut k: usize = 0;
    while k < scores.len()
        invariant
            k <= scores@.len(),
            best_idx < scores@.len(),
            step == contest_step::<M>(scores@),
            start == (0int, M::ZERO),
            reached(step, k as nat, start, (best_idx as int, best_val)),
        decreases scores@.len() - k,
    {
        let ghost before = (best_idx as int, best_val);
        if M::exceeds(scores[k], best_val) {
            best_val = scores[k];
            best_idx = k;
        }
        proof {
            lemma_reached_next(step, k as nat, start, before, (best_idx as int, best_val));
        }
        k = k + 1;
    }
    let ghost best = (best_idx as int, best_val);
    let hit = if !M::exceeds(best_val, threshold) {
        None
    } else {
        let sub_sample = if best_idx > 0 && best_idx < scores.len() - 1 {
            refine::<M>(scores[best_idx - 1], best_val, scores[best_idx + 1])
        } else {
            M::ZERO
        };
        Some(ChirpHit { start: best_idx, peak_correlation: best_val, self_energy, sub_sample })
    };
    assert(verdict::<M>(scores@, best, self_energy, threshold, hit));
    hit
}

/// A chirp is only found where all of it fits into the signal.
pub proof fn law_hit_lies_in_signal<M: Arithmetic>(
    signal: Seq<M::Real>,
    chirp: Seq<M::Real>,
    threshold_ratio: M::Real,
    hit: ChirpHit<M>,
)
    requires
        found::<M>(signal, chirp, threshold_ratio, Some(hit)),
    ensures
        hit.start + chirp.len() <= signal.len(),
{
    let (scores, best, energy, threshold) = choose|
        scores: Seq<M::Real>,
        best: (int, M::Real),
        energy: M::Real,
        threshold: M::Real,
    |
        {
            &&& sliding_scores::<M>(signal, chirp, scores)
            &&& first_peak::<M>(scores, best)
            &&& reached(square_step::<M>(chirp), chirp.len(), M::ZERO, energy)
            &&& call_ensures(M::times, (energy, threshold_ratio), threshold)
            &&& #[trigger] verdict::<M>(scores, best, energy, threshold, Some(hit))
        };
    let keeps = |i: int, b: (int, M::Real)| 0 <= b.0 < scores.len();
    lemma_reached_keeps(
        contest_step::<M>(scores),
        scores.len(),
        (0int, M::ZERO),
        best,
        keeps,
    );
}

/// No score exceeds the peak, in every number system that compares by a strict order.
pub proof fn law_peak_is_unbeaten<M: Arithmetic>(
    less: spec_fn(M::Real, M::Real) -> bool,
    scores: Seq<M::Real>,
    best: (int, M::Real),
    i: int,
)
    requires
        compares_by::<M>(less),
        strict_order(less),
        first_peak::<M>(scores, best),
        0 <= i < scores.len(),
    ensures
        !less(best.1, scores[i]),
        !call_ensures(M::exceeds, (scores[i], best.1), true),
{
    let keeps = |n: int, b: (int, M::Real)|
        forall|k: int| 0 <= k < n && k < scores.len() ==> !less(b.1, #[trigger] scores[k]);
    let step = contest_step::<M>(scores);
    assert forall|n: int, a: (int, M::Real), b: (int, M::Real)|
        0 <= n < scores.len() && #[trigger] keeps(n, a) && #[trigger] step(n, a, b) implies keeps(
        n + 1,
        b,
    ) by {
        if b != a {
            assert(less(a.1, b.1));
        }
    }
    lemma_reached_keeps(step, scores.len(), (0int, M::ZERO), best, keeps);
    assert(keeps(scores.len() as int, best));
}

} // verus!
