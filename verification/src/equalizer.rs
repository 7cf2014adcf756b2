//! Taking the channel out of the symbols.

use vstd::prelude::*;

use crate::arith::{
    add_conjugate, add_symbol, adds_conjugate, adds_symbol, filled, lemma_reached_keeps,
    lemma_reached_likewise, lemma_reached_next, lemma_reached_none, reached, Arithmetic,
};
use crate::bpsk::{slice_symbol, sliced, symbol_of, tells_apart};

verus! {

/// Default feedforward filter length (in symbol-spaced taps).
pub const DEFAULT_FFF_LEN: usize = 9;

/// Default feedback filter length.
pub const DEFAULT_FBF_LEN: usize = 7;

/// Number of leading training symbols used for the one-tap channel estimate (joint phase and
/// gain). Chosen short so the equalizer still has plenty of known-target symbols afterwards to
/// converge multi-tap behaviour.
pub const PHASE_EST_LEN: usize = 16;

/// Default LMS step size, 0.02. Picked for ~50-symbol convergence at 10 dB and above.
pub fn default_mu<M: Arithmetic>() -> (mu: M::Real)
    ensures
        call_ensures(M::fraction, (2, 100), mu),
{
    M::fraction(2, 100)
}

/// Step `i` adds the product of received symbol `i` and the conjugate of target `i`.
pub open spec fn match_step<M: Arithmetic>(
    received: Seq<M::Symbol>,
    targets: Seq<M::Symbol>,
) -> spec_fn(int, M::Symbol, M::Symbol) -> bool {
    |i: int, a: M::Symbol, b: M::Symbol|
        adds_conjugate::<M>(a, received[i], targets[i], b)
}

/// `c` is the mean of received symbol times conjugate target over the first `n` symbols.
pub open spec fn mean_match<M: Arithmetic>(
    received: Seq<M::Symbol>,
    targets: Seq<M::Symbol>,
    n: nat,
    c: M::Symbol,
) -> bool {
    exists|sum: M::Symbol, size: M::Real|
        {
            &&& reached(match_step::<M>(received, targets), n, M::ORIGIN, sum)
            &&& call_ensures(M::count, (n as usize,), size)
            &&& #[trigger] call_ensures(M::share, (sum, size), c)
        }
}

/// `c` is the channel estimate from `received` for `targets`.
pub open spec fn channel_estimate<M: Arithmetic>(
    received: Seq<M::Symbol>,
    targets: Seq<M::Symbol>,
    c: M::Symbol,
) -> bool {
    let n = if received.len() < targets.len() {
        received.len()
    } else {
        targets.len()
    };
    if n == 0 {
        c == M::SPACE
    } else {
        mean_match::<M>(received, targets, n, c)
    }
}

/// Estimate a single complex channel coefficient (joint phase and gain) from known training
/// data: the mean of received symbol times conjugate target. Dividing the incoming symbol stream
/// by it aligns the constellation with the targets. Without data the estimate is 1.
pub fn estimate_channel<M: Arithmetic>(
    received: &[M::Symbol],
    targets: &[M::Symbol],
) -> (c: M::Symbol)
    ensures
        channel_estimate::<M>(received@, targets@, c),
{
    let n: usize = if received.len() < targets.len() {
        received.len()
    } else {
        targets.len()
    };
    if n == 0 {
        return M::SPACE;
    }
    let ghost step = match_step::<M>(received@, targets@);
    let mut sum = M::ORIGIN;
    proof {
        lemma_reached_none(step, sum);
    }
    let mut i: usize = 0;
    while i < n
        invariant
            i <= n <= received@.len(),
            n <= targets@.len(),
            step == match_step::<M>(received@, targets@),
            reached(step, i as nat, M::ORIGIN, sum),
        decreases n - i,
    {
        let more = add_conjugate::<M>(sum, received[i], targets[i]);
        proof {
            lemma_reached_next(step, i as nat, M::ORIGIN, sum, more);
        }
        sum = more;
        i = i + 1;
    }
    let size = M::count(n);
    let c = M::share(sum, size);
    assert(call_ensures(M::share, (sum, size), c));
    c
}

/// Symbol-spaced decision-feedback equalizer with LMS adaptation.
///
/// Operation per symbol `k`:
///   y_ff = sum over j of h_ff\[j\] * input\[k - center + j\]   (centered window)
///   y_fb = sum over j of h_fb\[j\] * past\[k - 1 - j\]         (causal feedback)
///   y    = y_ff - y_fb
///   d    = the slicer's decision on y (+1 or -1)
///
/// `past` is the target while training, then the decision.
///
/// LMS updates (e = target - y):
///   h_ff\[j\] += mu * e * conj(input\[k - center + j\])
///   h_fb\[j\] -= mu * e * conj(past\[k - 1 - j\])     (sign-flipped because y_fb subtracts)
pub struct Dfe<M: Arithmetic> {
    pub h_ff: Vec<M::Symbol>,
    pub h_fb: Vec<M::Symbol>,
    pub mu: M::Real,
}

/// `r` is `h + mu * error * conj(x)`.
pub open spec fn adapted_up<M: Arithmetic>(
    h: M::Symbol,
    mu: M::Real,
    error: M::Symbol,
    x: M::Symbol,
    r: M::Symbol,
) -> bool {
    exists|g: M::Symbol, u: M::Symbol|
        {
            &&& call_ensures(M::scaled, (error, mu), g)
            &&& #[trigger] call_ensures(M::conjugate_product, (g, x), u)
            &&& #[trigger] call_ensures(M::sum, (h, u), r)
        }
}

/// `r` is `h - mu * error * conj(x)`.
pub open spec fn adapted_down<M: Arithmetic>(
    h: M::Symbol,
    mu: M::Real,
    error: M::Symbol,
    x: M::Symbol,
    r: M::Symbol,
) -> bool {
    exists|g: M::Symbol, u: M::Symbol|
        {
            &&& call_ensures(M::scaled, (error, mu), g)
            &&& #[trigger] call_ensures(M::conjugate_product, (g, x), u)
            &&& #[trigger] call_ensures(M::difference, (h, u), r)
        }
}

fn adapt_up<M: Arithmetic>(
    h: M::Symbol,
    mu: M::Real,
    error: M::Symbol,
    x: M::Symbol,
) -> (r: M::Symbol)
    ensures
        adapted_up::<M>(h, mu, error, x, r),
{
    let g = M::scaled(error, mu);
    let u = M::conjugate_product(g, x);
    let r = M::sum(h, u);
    assert(call_ensures(M::conjugate_product, (g, x), u));
    assert(call_ensures(M::sum, (h, u), r));
    r
}

fn adapt_down<M: Arithmetic>(
    h: M::Symbol,
    mu: M::Real,
    error: M::Symbol,
    x: M::Symbol,
) -> (r: M::Symbol)
    ensures
        adapted_down::<M>(h, mu, error, x, r),
{
    let g = M::scaled(error, mu);
    let u = M::conjugate_product(g, x);
    let r = M::difference(h, u);
    assert(call_ensures(M::conjugate_product, (g, x), u));
    assert(call_ensures(M::difference, (h, u), r));
    r
}

/// The filters of an equalizer and what it has put out so far.
pub struct DfeState<M: Arithmetic> {
    pub h_ff: Seq<M::Symbol>,
    pub h_fb: Seq<M::Symbol>,
    pub equalized: Seq<M::Symbol>,
    pub decisions: Seq<M::Symbol>,
}

/// What an equalizer works on: the input, the known targets and how many of them to use.
pub struct Lesson<M: Arithmetic> {
    pub input: Seq<M::Symbol>,
    pub targets: Seq<M::Symbol>,
    pub n_training: int,
    pub mu: M::Real,
}

impl<M: Arithmetic> Lesson<M> {
    /// The input index that feedforward tap `j` of `len` looks at for symbol `k`; tap `len / 2`
    /// looks at the symbol itself.
    pub open spec fn seen(self, k: int, j: int, len: nat) -> int {
        k + j - len as int / 2
    }

    /// Whether the input has an index `i`.
    pub open spec fn has(self, i: int) -> bool {
        0 <= i < self.input.len()
    }

    /// What was sent as symbol `p`, as far as the equalizer knows.
    pub open spec fn past(self, decisions: Seq<M::Symbol>, p: int) -> M::Symbol {
        if p < self.n_training {
            self.targets[p]
        } else {
            decisions[p]
        }
    }

    /// Tap `j` of the feedforward filter adds its share for symbol `k`.
    pub open spec fn forward_step(self, h: Seq<M::Symbol>, k: int) -> spec_fn(
        int,
        M::Symbol,
        M::Symbol,
    ) -> bool {
        |j: int, a: M::Symbol, b: M::Symbol|
            if self.has(self.seen(k, j, h.len())) {
                adds_symbol::<M>(a, h[j], self.input[self.seen(k, j, h.len())], b)
            } else {
                b == a
            }
    }

    /// Tap `j` of the feedback filter adds its share for symbol `k`.
    pub open spec fn feedback_step(
        self,
        h: Seq<M::Symbol>,
        decisions: Seq<M::Symbol>,
        k: int,
    ) -> spec_fn(int, M::Symbol, M::Symbol) -> bool {
        |j: int, a: M::Symbol, b: M::Symbol|
            if k - 1 - j >= 0 {
                adds_symbol::<M>(a, h[j], self.past(decisions, k - 1 - j), b)
            } else {
                b == a
            }
    }

    /// The feedforward filter `after` has learned from `error` at symbol `k`.
    pub open spec fn forward_learned(
        self,
        before: Seq<M::Symbol>,
        error: M::Symbol,
        k: int,
        after: Seq<M::Symbol>,
    ) -> bool {
        &&& after.len() == before.len()
        &&& forall|j: int|
            0 <= j < before.len() ==> self.forward_tap(before, error, k, j, #[trigger] after[j])
    }

    /// What tap `j` of the feedforward filter becomes.
    pub open spec fn forward_tap(
        self,
        before: Seq<M::Symbol>,
        error: M::Symbol,
        k: int,
        j: int,
        h: M::Symbol,
    ) -> bool {
        if self.has(self.seen(k, j, before.len())) {
            adapted_up::<M>(
                before[j],
                self.mu,
                error,
                self.input[self.seen(k, j, before.len())],
                h,
            )
        } else {
            h == before[j]
        }
    }

    /// The feedback filter `after` has learned from `error` at symbol `k`.
    pub open spec fn feedback_learned(
        self,
        before: Seq<M::Symbol>,
        decisions: Seq<M::Symbol>,
        error: M::Symbol,
        k: int,
        after: Seq<M::Symbol>,
    ) -> bool {
        &&& after.len() == before.len()
        &&& forall|j: int|
            0 <= j < before.len() ==> self.feedback_tap(
                before,
                decisions,
                error,
                k,
                j,
                #[trigger] after[j],
            )
    }

    /// What tap `j` of the feedback filter becomes.
    pub open spec fn feedback_tap(
        self,
        before: Seq<M::Symbol>,
        decisions: Seq<M::Symbol>,
        error: M::Symbol,
        k: int,
        j: int,
        h: M::Symbol,
    ) -> bool {
        if k - 1 - j >= 0 {
            adapted_down::<M>(
                before[j],
                self.mu,
                error,
                self.past(decisions, k - 1 - j),
                h,
            )
        } else {
            h == before[j]
        }
    }

    /// `y` is the equalized symbol `k`.
    pub open spec fn equalizes(self, s: DfeState<M>, k: int, y: M::Symbol) -> bool {
        exists|y_ff: M::Symbol, y_fb: M::Symbol|
            {
                &&& reached(self.forward_step(s.h_ff, k), s.h_ff.len(), M::ORIGIN, y_ff)
                &&& reached(
                    self.feedback_step(s.h_fb, s.decisions, k),
                    s.h_fb.len(),
                    M::ORIGIN,
                    y_fb,
                )
                &&& #[trigger] call_ensures(M::difference, (y_ff, y_fb), y)
            }
    }

    /// The slicer decides on `d` for `y`.
    pub open spec fn decides(self, y: M::Symbol, d: M::Symbol) -> bool {
        exists|b: u8| #[trigger] sliced::<M>(y, b) && d == symbol_of::<M>(b)
    }

    /// `error` is how far `y` misses its target: the known one while training, then `d`.
    pub open spec fn misses(self, k: int, y: M::Symbol, d: M::Symbol, error: M::Symbol) -> bool {
        let target = if k < self.n_training {
            self.targets[k]
        } else {
            d
        };
        call_ensures(M::difference, (target, y), error)
    }

    /// Symbol `k` may take the equalizer from state `a` to state `b`.
    pub open spec fn advances(self, k: int, a: DfeState<M>, b: DfeState<M>) -> bool {
        &&& b.equalized == a.equalized.push(b.equalized.last())
        &&& b.decisions == a.decisions.push(b.decisions.last())
        &&& self.equalizes(a, k, b.equalized.last())
        &&& self.decides(b.equalized.last(), b.decisions.last())
        &&& exists|error: M::Symbol|
            {
                &&& #[trigger] self.misses(k, b.equalized.last(), b.decisions.last(), error)
                &&& self.forward_learned(a.h_ff, error, k, b.h_ff)
                &&& self.feedback_learned(a.h_fb, a.decisions, error, k, b.h_fb)
            }
    }

    /// The step that symbol `k` is.
    pub open spec fn step(self) -> spec_fn(int, DfeState<M>, DfeState<M>) -> bool {
        |k: int, a: DfeState<M>, b: DfeState<M>| self.advances(k, a, b)
    }
}

/// How many targets count: no more than asked for, than there are, and than there is input.
pub open spec fn usable_training(n_training: int, targets: nat, input: nat) -> int {
    if n_training <= targets && n_training <= input {
        n_training
    } else if targets <= input {
        targets as int
    } else {
        input as int
    }
}

/// The input index at distance `j - center` from `k`, if there is one among `n`.
fn window_index(k: usize, j: usize, center: usize, n: usize) -> (i: Option<usize>)
    requires
        k < n,
    ensures
        match i {
            Some(i) => i == k + j - center && i < n,
            None => !(0 <= k + j - center < n),
        },
{
    if j >= center {
        let ahead: usize = j - center;
        if ahead < n - k {
            Some(k + ahead)
        } else {
            None
        }
    } else {
        let behind: usize = center - j;
        if behind <= k {
            Some(k - behind)
        } else {
            None
        }
    }
}

impl<M: Arithmetic> Dfe<M> {
    /// The filters have these lengths, the center tap is 1, and all other taps are zero.
    pub open spec fn passes_through(self, fff_len: nat, fbf_len: nat) -> bool {
        &&& self.h_ff@ == Seq::new(fff_len, |j: int| M::ORIGIN).update(
            fff_len as int / 2,
            M::SPACE,
        )
        &&& self.h_fb@ == Seq::new(fbf_len, |j: int| M::ORIGIN)
    }

    /// An equalizer that passes symbols through: the center tap is 1, all others are zero.
    pub fn new(fff_len: usize, fbf_len: usize, mu: M::Real) -> (dfe: Self)
        requires
            fff_len > 0,
        ensures
            dfe.passes_through(fff_len as nat, fbf_len as nat),
            dfe.mu == mu,
    {
        let mut h_ff: Vec<M::Symbol> = filled(M::ORIGIN, fff_len);
        h_ff.set(fff_len / 2, M::SPACE);
        let h_fb: Vec<M::Symbol> = filled(M::ORIGIN, fbf_len);
        Self { h_ff, h_fb, mu }
    }

    /// The task of equalizing `input` with this equalizer's step size.
    pub open spec fn lesson(
        self,
        input: Seq<M::Symbol>,
        targets: Seq<M::Symbol>,
        n_training: int,
    ) -> Lesson<M> {
        Lesson {
            input,
            targets,
            n_training: usable_training(n_training, targets.len(), input.len()),
            mu: self.mu,
        }
    }

    /// The state of an equalizer with these filters before its first symbol.
    pub open spec fn fresh(self) -> DfeState<M> {
        DfeState {
            h_ff: self.h_ff@,
            h_fb: self.h_fb@,
            equalized: Seq::empty(),
            decisions: Seq::empty(),
        }
    }

    /// `equalized` is what this equalizer makes of `input`, and `after` is what it has become.
    pub open spec fn processed(
        self,
        input: Seq<M::Symbol>,
        targets: Seq<M::Symbol>,
        n_training: int,
        after: Dfe<M>,
        equalized: Seq<M::Symbol>,
    ) -> bool {
        &&& after.mu == self.mu
        &&& equalized.len() == input.len()
        &&& exists|decisions: Seq<M::Symbol>|
            #[trigger] self.trained(input, targets, n_training, after, equalized, decisions)
    }

    /// Equalizing `input` symbol by symbol leads to `equalized` and `decisions`.
    pub open spec fn trained(
        self,
        input: Seq<M::Symbol>,
        targets: Seq<M::Symbol>,
        n_training: int,
        after: Dfe<M>,
        equalized: Seq<M::Symbol>,
        decisions: Seq<M::Symbol>,
    ) -> bool {
        reached(
            self.lesson(input, targets, n_training).step(),
            input.len(),
            self.fresh(),
            DfeState { h_ff: after.h_ff@, h_fb: after.h_fb@, equalized, decisions },
        )
    }

    /// The feedforward sum for symbol `k`.
    fn forward(&self, input: &[M::Symbol], k: usize, Ghost(lesson): Ghost<Lesson<M>>) -> (y:
        M::Symbol)
        requires
            k < input@.len(),
            lesson.input == input@,
        ensures
            reached(lesson.forward_step(self.h_ff@, k as int), self.h_ff@.len(), M::ORIGIN, y),
    {
        let n: usize = input.len();
        let len: usize = self.h_ff.len();
        let center: usize = len / 2;
        let ghost step = lesson.forward_step(self.h_ff@, k as int);
        let mut y = M::ORIGIN;
        proof {
            lemma_reached_none(step, y);
        }
        let mut j: usize = 0;
        while j < len
            invariant
                j <= len == self.h_ff@.len(),
                center == len as int / 2,
                k < n == input@.len(),
                lesson.input == input@,
                step == lesson.forward_step(self.h_ff@, k as int),
                reached(step, j as nat, M::ORIGIN, y),
            decreases len - j,
        {
            let more = match window_index(k, j, center, n) {
                Some(i) => add_symbol::<M>(y, self.h_ff[j], input[i]),
                None => y,
            };
            proof {
                assert(step(j as int, y, more));
                lemma_reached_next(step, j as nat, M::ORIGIN, y, more);
            }
            y = more;
            j = j + 1;
        }
        y
    }

    /// The feedback sum for symbol `k`.
    fn feedback(
        &self,
        targets: &[M::Symbol],
        n_training: usize,
        decisions: &Vec<M::Symbol>,
        k: usize,
        Ghost(lesson): Ghost<Lesson<M>>,
    ) -> (y: M::Symbol)
        requires
            k == decisions@.len(),
            n_training <= targets@.len(),
            lesson.targets == targets@,
            lesson.n_training == n_training,
        ensures
            reached(
                lesson.feedback_step(self.h_fb@, decisions@, k as int),
                self.h_fb@.len(),
                M::ORIGIN,
                y,
            ),
    {
        let len: usize = self.h_fb.len();
        let ghost step = lesson.feedback_step(self.h_fb@, decisions@, k as int);
        let mut y = M::ORIGIN;
        proof {
            lemma_reached_none(step, y);
        }
        let mut j: usize = 0;
        while j < len
            invariant
                j <= len == self.h_fb@.len(),
                k == decisions@.len(),
                n_training <= targets@.len(),
                lesson.targets == targets@,
                lesson.n_training == n_training,
                step == lesson.feedback_step(self.h_fb@, decisions@, k as int),
                reached(step, j as nat, M::ORIGIN, y),
            decreases len - j,
        {
            let more = if j < k {
                let p: usize = k - 1 - j;
                let past = if p < n_training {
                    targets[p]
                } else {
                    decisions[p]
                };
                add_symbol::<M>(y, self.h_fb[j], past)
            } else {
                y
            };
            proof {
                assert(step(j as int, y, more));
                lemma_reached_next(step, j as nat, M::ORIGIN, y, more);
            }
            y = more;
            j = j + 1;
        }
        y
    }

    /// Adapts both filters to `error` at symbol `k`.
    fn learn(
        &mut self,
        input: &[M::Symbol],
        targets: &[M::Symbol],
        n_training: usize,
        decisions: &Vec<M::Symbol>,
        k: usize,
        error: M::Symbol,
        Ghost(lesson): Ghost<Lesson<M>>,
    )
        requires
            k < input@.len(),
            k == decisions@.len(),
            n_training <= targets@.len(),
            lesson.input == input@,
            lesson.targets == targets@,
            lesson.n_training == n_training,
            lesson.mu == old(self).mu,
        ensures
            final(self).mu == old(self).mu,
            lesson.forward_learned(old(self).h_ff@, error, k as int, final(self).h_ff@),
            lesson.feedback_learned(
                old(self).h_fb@,
                decisions@,
                error,
                k as int,
                final(self).h_fb@,
            ),
    {
        let n: usize = input.len();
        let mu = self.mu;
        let fff: usize = self.h_ff.len();
        let center: usize = fff / 2;
        let ghost h_ff = self.h_ff@;
        let ghost h_fb = self.h_fb@;
        let mut j: usize = 0;
        while j < fff
            invariant
                j <= fff == h_ff.len(),
                center == fff as int / 2,
                k < n == input@.len(),
                lesson.input == input@,
                self.mu == mu && mu == lesson.mu,
                self.h_fb@ == h_fb,
                self.h_ff@.len() == fff,
                forall|i: int| j <= i < fff ==> #[trigger] self.h_ff@[i] == h_ff[i],
                forall|i: int|
                    0 <= i < j ==> lesson.forward_tap(
                        h_ff,
                        error,
                        k as int,
                        i,
                        #[trigger] self.h_ff@[i],
                    ),
            decreases fff - j,
        {
            match window_index(k, j, center, n) {
                Some(i) => {
                    let h = adapt_up::<M>(self.h_ff[j], mu, error, input[i]);
                    self.h_ff.set(j, h);
                },
                None => {},
            }
            j = j + 1;
        }
        let fbf: usize = self.h_fb.len();
        let ghost learned = self.h_ff@;
        let mut j: usize = 0;
        while j < fbf
            invariant
                j <= fbf == h_fb.len(),
                k == decisions@.len(),
                n_training <= targets@.len(),
                lesson.targets == targets@,
                lesson.n_training == n_training,
                self.mu == mu && mu == lesson.mu,
                self.h_ff@ == learned,
                self.h_fb@.len() == fbf,
                forall|i: int| j <= i < fbf ==> #[trigger] self.h_fb@[i] == h_fb[i],
                forall|i: int|
                    0 <= i < j ==> lesson.feedback_tap(
                        h_fb,
                        decisions@,
                        error,
                        k as int,
                        i,
                        #[trigger] self.h_fb@[i],
                    ),
            decreases fbf - j,
        {
            if j < k {
                let p: usize = k - 1 - j;
                let past = if p < n_training {
                    targets[p]
                } else {
                    decisions[p]
                };
                let h = adapt_down::<M>(self.h_fb[j], mu, error, past);
                self.h_fb.set(j, h);
            }
            j = j + 1;
        }
    }

    /// Equalize `input`. The first `n_training` symbols are adapted against `targets`; the
    /// remainder are decision-directed (the slicer output is used both as the target for LMS and
    /// as the feedback source). Returns one equalized symbol for each symbol of `input`.
    pub fn process(
        &mut self,
        input: &[M::Symbol],
        targets: &[M::Symbol],
        n_training: usize,
    ) -> (equalized: Vec<M::Symbol>)
        ensures
            old(self).processed(
                input@,
                targets@,
                n_training as int,
                *final(self),
                equalized@,
            ),
    {
        let n: usize = input.len();
        let usable: usize = if n_training <= targets.len() && n_training <= n {
            n_training
        } else if targets.len() <= n {
            targets.len()
        } else {
            n
        };
        let ghost lesson = self.lesson(input@, targets@, n_training as int);
        let ghost start = self.fresh();
        let mut equalized: Vec<M::Symbol> = Vec::with_capacity(n);
        let mut decisions: Vec<M::Symbol> = Vec::with_capacity(n);
        proof {
            assert(equalized@ =~= Seq::empty() && decisions@ =~= Seq::empty());
            lemma_reached_none(lesson.step(), start);
        }
        let mut k: usize = 0;
        while k < n
            invariant
                k <= n == input@.len(),
                usable <= targets@.len(),
                lesson.input == input@,
                lesson.targets == targets@,
                lesson.n_training == usable,
                lesson.mu == self.mu && self.mu == old(self).mu,
                equalized@.len() == k,
                decisions@.len() == k,
                reached(
                    lesson.step(),
                    k as nat,
                    start,
                    DfeState {
                        h_ff: self.h_ff@,
                        h_fb: self.h_fb@,
                        equalized: equalized@,
                        decisions: decisions@,
                    },
                ),
            decreases n - k,
        {
            let ghost before: DfeState<M> = DfeState {
                h_ff: self.h_ff@,
                h_fb: self.h_fb@,
                equalized: equalized@,
                decisions: decisions@,
            };
            let y_ff = self.forward(input, k, Ghost(lesson));
            let y_fb = self.feedback(targets, usable, &decisions, k, Ghost(lesson));
            let y = M::difference(y_ff, y_fb);
            assert(call_ensures(M::difference, (y_ff, y_fb), y));
            let b = slice_symbol::<M>(y);
            let d = if b == 0 {
                M::SPACE
            } else {
                M::MARK
            };
            let target = if k < usable {
                targets[k]
            } else {
                d
            };
            let error = M::difference(target, y);
            self.learn(input, targets, usable, &decisions, k, error, Ghost(lesson));
            equalized.push(y);
            decisions.push(d);
            proof {
                let after: DfeState<M> = DfeState {
                    h_ff: self.h_ff@,
                    h_fb: self.h_fb@,
                    equalized: equalized@,
                    decisions: decisions@,
                };
                assert(sliced::<M>(y, b) && d == symbol_of::<M>(b));
                assert(lesson.misses(k as int, y, d, error));
                assert(lesson.equalizes(before, k as int, y));
                assert(after.equalized.last() == y && after.decisions.last() == d);
                assert(after.equalized == before.equalized.push(y));
                assert(after.decisions == before.decisions.push(d));
                assert(lesson.decides(y, d));
                assert(lesson.advances(k as int, before, after));
                lemma_reached_next(lesson.step(), k as nat, start, before, after);
            }
            k = k + 1;
        }
        assert(old(self).trained(
            input@,
            targets@,
            n_training as int,
            *self,
            equalized@,
            decisions@,
        ));
        equalized
    }
}

/// Equalizing keeps the lengths of both filters, and puts out one symbol for each that came in.
pub proof fn law_filters_keep_their_lengths<M: Arithmetic>(
    dfe: Dfe<M>,
    input: Seq<M::Symbol>,
    targets: Seq<M::Symbol>,
    n_training: int,
    after: Dfe<M>,
    equalized: Seq<M::Symbol>,
)
    requires
        dfe.processed(input, targets, n_training, after, equalized),
    ensures
        after.h_ff@.len() == dfe.h_ff@.len(),
        after.h_fb@.len() == dfe.h_fb@.len(),
        equalized.len() == input.len(),
{
    let decisions = choose|decisions: Seq<M::Symbol>|
        #[trigger] dfe.trained(input, targets, n_training, after, equalized, decisions);
    let step = dfe.lesson(input, targets, n_training).step();
    let keeps = |k: int, s: DfeState<M>|
        s.h_ff.len() == dfe.h_ff@.len() && s.h_fb.len() == dfe.h_fb@.len();
    let end = DfeState { h_ff: after.h_ff@, h_fb: after.h_fb@, equalized, decisions };
    lemma_reached_keeps(step, input.len(), dfe.fresh(), end, keeps);
    assert(keeps(input.len() as int, end));
}

/// Two lessons that agree on the targets they use allow the same steps.
proof fn lemma_same_steps<M: Arithmetic>(
    one: Lesson<M>,
    other: Lesson<M>,
    k: int,
    a: DfeState<M>,
    b: DfeState<M>,
)
    requires
        one.input == other.input,
        one.mu == other.mu,
        one.n_training == other.n_training,
        forall|i: int| 0 <= i < one.n_training ==> one.targets[i] == #[trigger] other.targets[i],
        k >= 0,
        one.advances(k, a, b),
    ensures
        other.advances(k, a, b),
{
    assert forall|p: int| p >= 0 implies one.past(a.decisions, p) == #[trigger] other.past(
        a.decisions,
        p,
    ) by {
        if p < one.n_training {
            assert(one.targets[p] == other.targets[p]);
        }
    }
    assert(one.forward_step(a.h_ff, k) =~= other.forward_step(a.h_ff, k));
    assert(one.feedback_step(a.h_fb, a.decisions, k) =~= other.feedback_step(
        a.h_fb,
        a.decisions,
        k,
    ));
    let y = b.equalized.last();
    let d = b.decisions.last();
    let (y_ff, y_fb) = choose|y_ff: M::Symbol, y_fb: M::Symbol|
        {
            &&& reached(one.forward_step(a.h_ff, k), a.h_ff.len(), M::ORIGIN, y_ff)
            &&& reached(
                one.feedback_step(a.h_fb, a.decisions, k),
                a.h_fb.len(),
                M::ORIGIN,
                y_fb,
            )
            &&& #[trigger] call_ensures(M::difference, (y_ff, y_fb), y)
        };
    assert(call_ensures(M::difference, (y_ff, y_fb), y));
    assert(other.equalizes(a, k, y));
    assert(other.decides(y, d));
    let error = choose|error: M::Symbol|
        {
            &&& #[trigger] one.misses(k, y, d, error)
            &&& one.forward_learned(a.h_ff, error, k, b.h_ff)
            &&& one.feedback_learned(a.h_fb, a.decisions, error, k, b.h_fb)
        };
    if k < one.n_training {
        assert(one.targets[k] == other.targets[k]);
    }
    assert(other.misses(k, y, d, error));
    assert forall|j: int| 0 <= j < a.h_ff.len() implies other.forward_tap(
        a.h_ff,
        error,
        k,
        j,
        #[trigger] b.h_ff[j],
    ) by {
        assert(one.forward_tap(a.h_ff, error, k, j, b.h_ff[j]));
    }
    assert forall|j: int| 0 <= j < a.h_fb.len() implies other.feedback_tap(
        a.h_fb,
        a.decisions,
        error,
        k,
        j,
        #[trigger] b.h_fb[j],
    ) by {
        assert(one.feedback_tap(a.h_fb, a.decisions, error, k, j, b.h_fb[j]));
    }
}

/// Targets at and beyond the usable training have no effect: equalizing with only the usable
/// ones allows the same outcomes, and no others.
pub proof fn law_unused_targets_have_no_effect<M: Arithmetic>(
    dfe: Dfe<M>,
    input: Seq<M::Symbol>,
    targets: Seq<M::Symbol>,
    n_training: int,
    after: Dfe<M>,
    equalized: Seq<M::Symbol>,
)
    requires
        n_training >= 0,
    ensures
        ({
            let t = usable_training(n_training, targets.len(), input.len());
            dfe.processed(input, targets, n_training, after, equalized) == dfe.processed(
                input,
                targets.subrange(0, t),
                t,
                after,
                equalized,
            )
        }),
{
    let t = usable_training(n_training, targets.len(), input.len());
    let used = targets.subrange(0, t);
    let one = dfe.lesson(input, targets, n_training);
    let other = dfe.lesson(input, used, t);
    assert forall|k: int, a: DfeState<M>, b: DfeState<M>| k >= 0 implies one.advances(k, a, b)
        == #[trigger] other.advances(k, a, b) by {
        if one.advances(k, a, b) {
            lemma_same_steps::<M>(one, other, k, a, b);
        }
        if other.advances(k, a, b) {
            lemma_same_steps::<M>(other, one, k, a, b);
        }
    }
    let (step, step_used) = (one.step(), other.step());
    assert forall|decisions: Seq<M::Symbol>| #[trigger]
        dfe.trained(input, targets, n_training, after, equalized, decisions) implies dfe.trained(
        input,
        used,
        t,
        after,
        equalized,
        decisions,
    ) by {
        let end = DfeState { h_ff: after.h_ff@, h_fb: after.h_fb@, equalized, decisions };
        assert forall|k: int, a: DfeState<M>, b: DfeState<M>|
            0 <= k < input.len() && #[trigger] step(k, a, b) implies step_used(k, a, b) by {
            assert(other.advances(k, a, b));
        }
        lemma_reached_likewise(step, step_used, input.len(), dfe.fresh(), end);
    }
    assert forall|decisions: Seq<M::Symbol>| #[trigger]
        dfe.trained(input, used, t, after, equalized, decisions) implies dfe.trained(
        input,
        targets,
        n_training,
        after,
        equalized,
        decisions,
    ) by {
        let end = DfeState { h_ff: after.h_ff@, h_fb: after.h_fb@, equalized, decisions };
        assert forall|k: int, a: DfeState<M>, b: DfeState<M>|
            0 <= k < input.len() && #[trigger] step_used(k, a, b) implies step(k, a, b) by {
            assert(other.advances(k, a, b));
        }
        lemma_reached_likewise(step_used, step, input.len(), dfe.fresh(), end);
    }
}

/// `s` is one of the two symbols that are sent.
pub open spec fn is_sent<M: Arithmetic>(s: M::Symbol) -> bool {
    s == M::SPACE || s == M::MARK
}

/// On the symbols that are sent the arithmetic of an equalizer that passes symbols through is
/// exact: zero adds nothing, one times a symbol is the symbol, and no error teaches nothing.
pub open spec fn exact_at_rest<M: Arithmetic>(mu: M::Real) -> bool {
    &&& forall|a: M::Symbol, x: M::Symbol, r: M::Symbol|
        (a == M::ORIGIN || is_sent::<M>(a)) && is_sent::<M>(x) && #[trigger] adds_symbol::<M>(
            a,
            M::ORIGIN,
            x,
            r,
        ) ==> r == a
    &&& forall|x: M::Symbol, r: M::Symbol|
        is_sent::<M>(x) && #[trigger] adds_symbol::<M>(M::ORIGIN, M::SPACE, x, r) ==> r == x
    &&& forall|x: M::Symbol, r: M::Symbol|
        is_sent::<M>(x) && #[trigger] call_ensures(M::difference, (x, M::ORIGIN), r) ==> r == x
    &&& forall|x: M::Symbol, r: M::Symbol|
        is_sent::<M>(x) && #[trigger] call_ensures(M::difference, (x, x), r) ==> r == M::ORIGIN
    &&& forall|h: M::Symbol, x: M::Symbol, r: M::Symbol|
        (h == M::ORIGIN || h == M::SPACE) && is_sent::<M>(x) && #[trigger] adapted_up::<M>(
            h,
            mu,
            M::ORIGIN,
            x,
            r,
        ) ==> r == h
    &&& forall|x: M::Symbol, r: M::Symbol|
        is_sent::<M>(x) && #[trigger] adapted_down::<M>(M::ORIGIN, mu, M::ORIGIN, x, r) ==> r
            == M::ORIGIN
}

/// The feedforward sum of filters that pass symbols through is the symbol itself.
proof fn lemma_forward_passes<M: Arithmetic>(
    lesson: Lesson<M>,
    h: Seq<M::Symbol>,
    k: int,
    y: M::Symbol,
)
    requires
        h.len() > 0,
        h == Seq::new(h.len(), |j: int| M::ORIGIN).update(h.len() as int / 2, M::SPACE),
        exact_at_rest::<M>(lesson.mu),
        forall|i: int| 0 <= i < lesson.input.len() ==> is_sent::<M>(#[trigger] lesson.input[i]),
        0 <= k < lesson.input.len(),
        reached(lesson.forward_step(h, k), h.len(), M::ORIGIN, y),
    ensures
        y == lesson.input[k],
{
    let center = h.len() as int / 2;
    let step = lesson.forward_step(h, k);
    let keeps = |j: int, a: M::Symbol|
        a == if j <= center {
            M::ORIGIN
        } else {
            lesson.input[k]
        };
    assert forall|j: int, a: M::Symbol, b: M::Symbol|
        0 <= j < h.len() && #[trigger] keeps(j, a) && #[trigger] step(j, a, b) implies keeps(
        j + 1,
        b,
    ) by {
        let i = lesson.seen(k, j, h.len());
        if j == center {
            assert(i == k && lesson.has(i));
        } else if lesson.has(i) {
            assert(h[j] == M::ORIGIN);
            assert(is_sent::<M>(lesson.input[i]) && is_sent::<M>(lesson.input[k]));
        }
    }
    lemma_reached_keeps(step, h.len(), M::ORIGIN, y, keeps);
    assert(keeps(h.len() as int, y));
}

/// The feedback sum of an empty memory, or of taps that are all zero, is zero.
proof fn lemma_feedback_is_silent<M: Arithmetic>(
    lesson: Lesson<M>,
    h: Seq<M::Symbol>,
    decisions: Seq<M::Symbol>,
    k: int,
    y: M::Symbol,
)
    requires
        h == Seq::new(h.len(), |j: int| M::ORIGIN),
        exact_at_rest::<M>(lesson.mu),
        forall|p: int| 0 <= p < k ==> is_sent::<M>(#[trigger] lesson.past(decisions, p)),
        reached(lesson.feedback_step(h, decisions, k), h.len(), M::ORIGIN, y),
    ensures
        y == M::ORIGIN,
{
    let step = lesson.feedback_step(h, decisions, k);
    let keeps = |j: int, a: M::Symbol| a == M::ORIGIN;
    assert forall|j: int, a: M::Symbol, b: M::Symbol|
        0 <= j < h.len() && #[trigger] keeps(j, a) && #[trigger] step(j, a, b) implies keeps(
        j + 1,
        b,
    ) by {
        if k - 1 - j >= 0 {
            assert(h[j] == M::ORIGIN);
            assert(is_sent::<M>(lesson.past(decisions, k - 1 - j)));
        }
    }
    lemma_reached_keeps(step, h.len(), M::ORIGIN, y, keeps);
    assert(keeps(h.len() as int, y));
}

/// A clean channel: a new equalizer that gets the symbols as they were sent, and targets that
/// agree with them, puts them out unchanged and stays as it is. This holds in every number system
/// that is exact on the symbols that are sent.
#[verifier::rlimit(40)]
pub proof fn law_clean_channel_passes_through<M: Arithmetic>(
    dfe: Dfe<M>,
    fff_len: nat,
    fbf_len: nat,
    input: Seq<M::Symbol>,
    targets: Seq<M::Symbol>,
    n_training: int,
    after: Dfe<M>,
    equalized: Seq<M::Symbol>,
)
    requires
        tells_apart::<M>(),
        exact_at_rest::<M>(dfe.mu),
        fff_len > 0,
        dfe.passes_through(fff_len, fbf_len),
        forall|i: int| 0 <= i < input.len() ==> is_sent::<M>(#[trigger] input[i]),
        forall|i: int|
            0 <= i < usable_training(n_training, targets.len(), input.len())
                ==> #[trigger] targets[i] == input[i],
        dfe.processed(input, targets, n_training, after, equalized),
    ensures
        equalized == input,
        after.h_ff@ == dfe.h_ff@,
        after.h_fb@ == dfe.h_fb@,
{
    let decisions = choose|decisions: Seq<M::Symbol>|
        #[trigger] dfe.trained(input, targets, n_training, after, equalized, decisions);
    let lesson = dfe.lesson(input, targets, n_training);
    let step = lesson.step();
    let n = input.len();
    let keeps = |k: int, s: DfeState<M>|
        {
            &&& s.h_ff == dfe.h_ff@
            &&& s.h_fb == dfe.h_fb@
            &&& s.equalized == input.subrange(0, k)
            &&& s.decisions == input.subrange(0, k)
        };
    assert forall|k: int, a: DfeState<M>, b: DfeState<M>|
        0 <= k < n && #[trigger] keeps(k, a) && #[trigger] step(k, a, b) implies keeps(
        k + 1,
        b,
    ) by {
        assert(lesson.advances(k, a, b));
        let y = b.equalized.last();
        let d = b.decisions.last();
        let (y_ff, y_fb) = choose|y_ff: M::Symbol, y_fb: M::Symbol|
            {
                &&& reached(lesson.forward_step(a.h_ff, k), a.h_ff.len(), M::ORIGIN, y_ff)
                &&& reached(
                    lesson.feedback_step(a.h_fb, a.decisions, k),
                    a.h_fb.len(),
                    M::ORIGIN,
                    y_fb,
                )
                &&& #[trigger] call_ensures(M::difference, (y_ff, y_fb), y)
            };
        assert forall|p: int| 0 <= p < k implies is_sent::<M>(
            #[trigger] lesson.past(a.decisions, p),
        ) by {
            assert(lesson.past(a.decisions, p) == input[p]);
        }
        lemma_forward_passes::<M>(lesson, a.h_ff, k, y_ff);
        lemma_feedback_is_silent::<M>(lesson, a.h_fb, a.decisions, k, y_fb);
        assert(is_sent::<M>(input[k]));
        assert(y == input[k]);
        let bit = choose|bit: u8| #[trigger] sliced::<M>(y, bit) && d == symbol_of::<M>(bit);
        assert(d == y);
        let error = choose|error: M::Symbol|
            {
                &&& #[trigger] lesson.misses(k, y, d, error)
                &&& lesson.forward_learned(a.h_ff, error, k, b.h_ff)
                &&& lesson.feedback_learned(a.h_fb, a.decisions, error, k, b.h_fb)
            };
        assert(error == M::ORIGIN);
        assert forall|j: int| 0 <= j < a.h_ff.len() implies b.h_ff[j] == a.h_ff[j] by {
            assert(lesson.forward_tap(a.h_ff, error, k, j, b.h_ff[j]));
            let i = lesson.seen(k, j, a.h_ff.len());
            if lesson.has(i) {
                assert(is_sent::<M>(input[i]));
            }
        }
        assert(b.h_ff =~= a.h_ff);
        assert forall|j: int| 0 <= j < a.h_fb.len() implies b.h_fb[j] == a.h_fb[j] by {
            assert(lesson.feedback_tap(a.h_fb, a.decisions, error, k, j, b.h_fb[j]));
            if k - 1 - j >= 0 {
                assert(is_sent::<M>(lesson.past(a.decisions, k - 1 - j)));
            }
        }
        assert(b.h_fb =~= a.h_fb);
        assert(input.subrange(0, k + 1) =~= input.subrange(0, k).push(input[k]));
    }
    let end = DfeState { h_ff: after.h_ff@, h_fb: after.h_fb@, equalized, decisions };
    assert(dfe.fresh().equalized =~= input.subrange(0, 0));
    assert(dfe.fresh().decisions =~= input.subrange(0, 0));
    assert(keeps(0, dfe.fresh()));
    lemma_reached_keeps(step, n, dfe.fresh(), end, keeps);
    assert(keeps(n as int, end));
    assert(input.subrange(0, n as int) =~= input);
}

} // verus!
