//! The numbers that signals are made of.
//!
//! Samples and symbols come from a number system that the user of the library chooses. The
//! library never looks inside them: it decides which values are combined, in which order and
//! where the results go, and its contracts relate every result to its operands by what the
//! operations of the number system may return. Because the order is part of the contract, a
//! waveform, a decoded payload and a spectrum come out the same in every run over a number system
//! with deterministic operations.

use vstd::prelude::*;

verus! {

/// Real and complex arithmetic.
pub trait Arithmetic: Sized {
    /// A sample, a filter tap or another real quantity.
    type Real: Copy;

    /// A point of the complex plane.
    type Symbol: Copy;

    /// The real zero.
    const ZERO: Self::Real;

    /// The real one.
    const ONE: Self::Real;

    /// A real below all that can be measured.
    const LOWEST: Self::Real;

    /// The ratio of a circle's circumference to its diameter.
    const PI: Self::Real;

    /// The ratio of a circle's circumference to its radius.
    const TAU: Self::Real;

    /// The square root of two.
    const ROOT_TWO: Self::Real;

    /// The complex zero.
    const ORIGIN: Self::Symbol;

    /// The symbol that stands for bit 0, at +1.
    const SPACE: Self::Symbol;

    /// The symbol that stands for bit 1, at -1.
    const MARK: Self::Symbol;

    /// `num / den`.
    fn fraction(num: u64, den: u64) -> Self::Real;

    /// `n`.
    fn count(n: usize) -> Self::Real;

    /// `n`.
    fn offset(n: i32) -> Self::Real;

    /// `a + b`.
    fn plus(a: Self::Real, b: Self::Real) -> Self::Real;

    /// `a - b`.
    fn minus(a: Self::Real, b: Self::Real) -> Self::Real;

    /// `a * b`.
    fn times(a: Self::Real, b: Self::Real) -> Self::Real;

    /// `a / b`.
    fn over(a: Self::Real, b: Self::Real) -> Self::Real;

    /// `-a`.
    fn negated(a: Self::Real) -> Self::Real;

    /// `a` squared.
    fn square(a: Self::Real) -> Self::Real;

    /// The sine of `a`.
    fn sine(a: Self::Real) -> Self::Real;

    /// The cosine of `a`.
    fn cosine(a: Self::Real) -> Self::Real;

    /// The decimal logarithm of `a`.
    fn logarithm(a: Self::Real) -> Self::Real;

    /// The integer nearest to `a`.
    fn rounded(a: Self::Real) -> Self::Real;

    /// `|a|`.
    fn magnitude(a: Self::Real) -> Self::Real;

    /// The square root of `a`.
    fn root(a: Self::Real) -> Self::Real;

    /// The larger of `a` and `b`.
    fn larger(a: Self::Real, b: Self::Real) -> Self::Real;

    /// `a > b`.
    fn exceeds(a: Self::Real, b: Self::Real) -> bool;

    /// `a >= b`.
    fn reaches(a: Self::Real, b: Self::Real) -> bool;

    /// `a < b`.
    fn below(a: Self::Real, b: Self::Real) -> bool;

    /// The largest index that is not above `a`; 0 if `a` is negative.
    fn floor(a: Self::Real) -> usize;

    /// The index nearest to `a`; 0 if `a` is negative.
    fn nearest(a: Self::Real) -> usize;

    /// `a` without its fraction, as a 16-bit sample.
    fn sample(a: Self::Real) -> i16;

    /// `re + im * i`.
    fn symbol(re: Self::Real, im: Self::Real) -> Self::Symbol;

    /// The real part of `s`.
    fn real_part(s: Self::Symbol) -> Self::Real;

    /// The imaginary part of `s`.
    fn imaginary_part(s: Self::Symbol) -> Self::Real;

    /// `|s|`.
    fn modulus(s: Self::Symbol) -> Self::Real;

    /// `a + b`.
    fn sum(a: Self::Symbol, b: Self::Symbol) -> Self::Symbol;

    /// `a - b`.
    fn difference(a: Self::Symbol, b: Self::Symbol) -> Self::Symbol;

    /// `a / b`.
    fn quotient(a: Self::Symbol, b: Self::Symbol) -> Self::Symbol;

    /// `s * a`.
    fn scaled(s: Self::Symbol, a: Self::Real) -> Self::Symbol;

    /// `s / a`.
    fn share(s: Self::Symbol, a: Self::Real) -> Self::Symbol;

    /// `|s|^2`.
    fn energy(s: Self::Symbol) -> Self::Real;

    /// `a * b`.
    fn product(a: Self::Symbol, b: Self::Symbol) -> Self::Symbol;

    /// `a * conj(b)`.
    fn conjugate_product(a: Self::Symbol, b: Self::Symbol) -> Self::Symbol;
}

/// Arithmetic with a Fourier transform.
pub trait Fourier: Arithmetic {
    /// The discrete Fourier transform of `frame`.
    fn spectrum(frame: Vec<Self::Symbol>) -> Vec<Self::Symbol>;
}

/// `r` is `acc + a * b`.
pub open spec fn adds_product<M: Arithmetic>(
    acc: M::Real,
    a: M::Real,
    b: M::Real,
    r: M::Real,
) -> bool {
    exists|p: M::Real|
        call_ensures(M::times, (a, b), p) && #[trigger] call_ensures(M::plus, (acc, p), r)
}

/// `acc + a * b`.
pub fn add_product<M: Arithmetic>(acc: M::Real, a: M::Real, b: M::Real) -> (r: M::Real)
    ensures
        adds_product::<M>(acc, a, b, r),
{
    let p = M::times(a, b);
    let r = M::plus(acc, p);
    assert(call_ensures(M::plus, (acc, p), r));
    r
}

/// `r` is `acc + x * h`.
pub open spec fn adds_tap<M: Arithmetic>(
    acc: M::Symbol,
    x: M::Symbol,
    h: M::Real,
    r: M::Symbol,
) -> bool {
    exists|p: M::Symbol|
        call_ensures(M::scaled, (x, h), p) && #[trigger] call_ensures(M::sum, (acc, p), r)
}

/// `acc + x * h`.
pub fn add_tap<M: Arithmetic>(acc: M::Symbol, x: M::Symbol, h: M::Real) -> (r: M::Symbol)
    ensures
        adds_tap::<M>(acc, x, h, r),
{
    let p = M::scaled(x, h);
    let r = M::sum(acc, p);
    assert(call_ensures(M::sum, (acc, p), r));
    r
}

/// `r` is `acc + a * b`.
pub open spec fn adds_symbol<M: Arithmetic>(
    acc: M::Symbol,
    a: M::Symbol,
    b: M::Symbol,
    r: M::Symbol,
) -> bool {
    exists|p: M::Symbol|
        call_ensures(M::product, (a, b), p) && #[trigger] call_ensures(M::sum, (acc, p), r)
}

/// `acc + a * b`.
pub fn add_symbol<M: Arithmetic>(acc: M::Symbol, a: M::Symbol, b: M::Symbol) -> (r: M::Symbol)
    ensures
        adds_symbol::<M>(acc, a, b, r),
{
    let p = M::product(a, b);
    let r = M::sum(acc, p);
    assert(call_ensures(M::sum, (acc, p), r));
    r
}

/// `r` is `acc + a * conj(b)`.
pub open spec fn adds_conjugate<M: Arithmetic>(
    acc: M::Symbol,
    a: M::Symbol,
    b: M::Symbol,
    r: M::Symbol,
) -> bool {
    exists|p: M::Symbol|
        call_ensures(M::conjugate_product, (a, b), p) && #[trigger] call_ensures(
            M::sum,
            (acc, p),
            r,
        )
}

/// `acc + a * conj(b)`.
pub fn add_conjugate<M: Arithmetic>(acc: M::Symbol, a: M::Symbol, b: M::Symbol) -> (r: M::Symbol)
    ensures
        adds_conjugate::<M>(acc, a, b, r),
{
    let p = M::conjugate_product(a, b);
    let r = M::sum(acc, p);
    assert(call_ensures(M::sum, (acc, p), r));
    r
}

/// `r` is `x` brought into the range from `lo` to `hi`.
pub open spec fn clamped<M: Arithmetic>(
    x: M::Real,
    lo: M::Real,
    hi: M::Real,
    r: M::Real,
) -> bool {
    exists|low: M::Real, over: bool|
        {
            &&& {
                ||| call_ensures(M::below, (x, lo), true) && low == lo
                ||| call_ensures(M::below, (x, lo), false) && low == x
            }
            &&& #[trigger] call_ensures(M::exceeds, (low, hi), over)
            &&& r == if over {
                hi
            } else {
                low
            }
        }
}

/// `x` brought into the range from `lo` to `hi`.
pub fn clamp<M: Arithmetic>(x: M::Real, lo: M::Real, hi: M::Real) -> (r: M::Real)
    ensures
        clamped::<M>(x, lo, hi, r),
{
    let low = if M::below(x, lo) {
        lo
    } else {
        x
    };
    let over = M::exceeds(low, hi);
    assert(call_ensures(M::exceeds, (low, hi), over));
    if over {
        hi
    } else {
        low
    }
}

/// Step `i` adds the square of `x[i]`.
pub open spec fn square_step<M: Arithmetic>(x: Seq<M::Real>) -> spec_fn(
    int,
    M::Real,
    M::Real,
) -> bool {
    |i: int, a: M::Real, b: M::Real| adds_product::<M>(a, x[i], x[i], b)
}

/// The sum of the squares of `x`, from the first to the last.
pub fn sum_of_squares<M: Arithmetic>(x: &[M::Real]) -> (e: M::Real)
    ensures
        reached(square_step::<M>(x@), x@.len(), M::ZERO, e),
{
    let ghost step = square_step::<M>(x@);
    let mut e = M::ZERO;
    proof {
        lemma_reached_none(step, e);
    }
    let mut i: usize = 0;
    while i < x.len()
        invariant
            i <= x@.len(),
            step == square_step::<M>(x@),
            reached(step, i as nat, M::ZERO, e),
        decreases x@.len() - i,
    {
        let more = add_product::<M>(e, x[i], x[i]);
        proof {
            lemma_reached_next(step, i as nat, M::ZERO, e, more);
        }
        e = more;
        i = i + 1;
    }
    e
}

/// `n` copies of `value`.
pub fn filled<T: Copy>(value: T, n: usize) -> (v: Vec<T>)
    ensures
        v@ == Seq::new(n as nat, |i: int| value),
{
    let mut v: Vec<T> = Vec::with_capacity(n);
    let mut i: usize = 0;
    while i < n
        invariant
            i <= n,
            v@ == Seq::new(i as nat, |k: int| value),
        decreases n - i,
    {
        v.push(value);
        i = i + 1;
        assert(v@ =~= Seq::new(i as nat, |k: int| value));
    }
    v
}

/// `states` runs through the steps `0, 1, .., n - 1`, where `step(i, a, b)` says that step `i` may
/// turn `a` into `b`.
#[verifier::opaque]
pub open spec fn is_path<S>(step: spec_fn(int, S, S) -> bool, n: nat, states: Seq<S>) -> bool {
    &&& states.len() == n + 1
    &&& forall|i: int| 0 <= i < n ==> step(i, #[trigger] states[i], states[i + 1])
}

/// `end` can come out of `start` by the steps `0, 1, .., n - 1`.
pub open spec fn reached<S>(step: spec_fn(int, S, S) -> bool, n: nat, start: S, end: S) -> bool {
    exists|states: Seq<S>|
        #[trigger] is_path(step, n, states) && states[0] == start && states[n as int] == end
}

/// No step leads nowhere else.
pub proof fn lemma_reached_none<S>(step: spec_fn(int, S, S) -> bool, start: S)
    ensures
        reached(step, 0, start, start),
{
    reveal(is_path);
    assert(is_path(step, 0, seq![start]));
}

/// One step more.
pub proof fn lemma_reached_next<S>(
    step: spec_fn(int, S, S) -> bool,
    n: nat,
    start: S,
    mid: S,
    end: S,
)
    requires
        reached(step, n, start, mid),
        step(n as int, mid, end),
    ensures
        reached(step, n + 1, start, end),
{
    reveal(is_path);
    let states = choose|states: Seq<S>|
        #[trigger] is_path(step, n, states) && states[0] == start && states[n as int] == mid;
    let longer = states.push(end);
    assert forall|i: int| 0 <= i < n + 1 implies step(i, #[trigger] longer[i], longer[i + 1]) by {
        if i < n {
            assert(step(i, states[i], states[i + 1]));
        }
    }
    assert(is_path(step, n + 1, longer));
}

/// A single step is what the first step allows.
pub proof fn lemma_reached_once<S>(step: spec_fn(int, S, S) -> bool, start: S, end: S)
    requires
        reached(step, 1, start, end),
    ensures
        step(0, start, end),
{
    reveal(is_path);
    let states = choose|states: Seq<S>|
        #[trigger] is_path(step, 1, states) && states[0] == start && states[1] == end;
    assert(step(0, states[0], states[0int + 1]));
}

/// Where every step is one that `other` allows too, the same end can be reached.
pub proof fn lemma_reached_likewise<S>(
    step: spec_fn(int, S, S) -> bool,
    other: spec_fn(int, S, S) -> bool,
    n: nat,
    start: S,
    end: S,
)
    requires
        reached(step, n, start, end),
        forall|i: int, a: S, b: S| 0 <= i < n && #[trigger] step(i, a, b) ==> other(i, a, b),
    ensures
        reached(other, n, start, end),
{
    reveal(is_path);
    let states = choose|states: Seq<S>|
        #[trigger] is_path(step, n, states) && states[0] == start && states[n as int] == end;
    assert forall|i: int| 0 <= i < n implies other(i, #[trigger] states[i], states[i + 1]) by {
        assert(step(i, states[i], states[i + 1]));
    }
    assert(is_path(other, n, states));
}

/// What every step keeps holds at the end.
pub proof fn lemma_reached_keeps<S>(
    step: spec_fn(int, S, S) -> bool,
    n: nat,
    start: S,
    end: S,
    keeps: spec_fn(int, S) -> bool,
)
    requires
        reached(step, n, start, end),
        keeps(0, start),
        forall|i: int, a: S, b: S|
            0 <= i < n && #[trigger] keeps(i, a) && #[trigger] step(i, a, b) ==> keeps(i + 1, b),
    ensures
        keeps(n as int, end),
{
    let states = choose|states: Seq<S>|
        #[trigger] is_path(step, n, states) && states[0] == start && states[n as int] == end;
    lemma_path_keeps(step, n, states, keeps, n);
}

proof fn lemma_path_keeps<S>(
    step: spec_fn(int, S, S) -> bool,
    n: nat,
    states: Seq<S>,
    keeps: spec_fn(int, S) -> bool,
    m: nat,
)
    requires
        is_path(step, n, states),
        m <= n,
        keeps(0, states[0]),
        forall|i: int, a: S, b: S|
            0 <= i < n && #[trigger] keeps(i, a) && #[trigger] step(i, a, b) ==> keeps(i + 1, b),
    ensures
        keeps(m as int, states[m as int]),
    decreases m,
{
    if m > 0 {
        lemma_path_keeps(step, n, states, keeps, (m - 1) as nat);
        assert(step(m - 1, states[m - 1], states[m as int])) by {
            reveal(is_path);
            assert(step(m - 1, states[m - 1], states[m - 1 + 1]));
        }
    }
}

} // verus!
