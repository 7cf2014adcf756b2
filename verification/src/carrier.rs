//! Between baseband and passband.

use vstd::prelude::*;

use crate::arith::Arithmetic;
use crate::formula::{Formula, Term};

verus! {

/// How far a carrier at `fc` turns from one sample to the next.
pub open spec fn turn<M: Arithmetic>(fc: M::Real, fs: M::Real) -> Formula<M> {
    Formula::Given(M::TAU).times(Formula::Given(fc)).over(Formula::Given(fs))
}

fn turn_term<M: Arithmetic>(fc: M::Real, fs: M::Real) -> (t: Term<M>)
    ensures
        t.wf(),
        t.formula@ == turn::<M>(fc, fs),
{
    Term::given(M::TAU).times(Term::given(fc)).over(Term::given(fs))
}

/// The phase at sample `n` of a carrier that turns by `omega` a sample.
pub open spec fn phase<M: Arithmetic>(omega: M::Real, n: int) -> Formula<M> {
    Formula::Given(omega).times(Formula::Count(n as usize))
}

fn phase_term<M: Arithmetic>(omega: M::Real, n: usize) -> (t: Term<M>)
    ensures
        t.wf(),
        t.formula@ == phase::<M>(omega, n as int),
{
    Term::given(omega).times(Term::count(n))
}

/// The real part of `s` turned by the phase at sample `n`.
pub open spec fn turned_up<M: Arithmetic>(s: M::Symbol, omega: M::Real, n: int) -> Formula<M> {
    Formula::RealOf(s).times(phase::<M>(omega, n).cosine()).minus(
        Formula::ImaginaryOf(s).times(phase::<M>(omega, n).sine()),
    )
}

/// `s` is `x` turned back by the phase at sample `n`.
pub open spec fn turned_down<M: Arithmetic>(
    x: M::Real,
    omega: M::Real,
    n: int,
    s: M::Symbol,
) -> bool {
    exists|re: M::Real, im: M::Real|
        {
            &&& Formula::Given(x).times(phase::<M>(omega, n).cosine()).yields(re)
            &&& Formula::Given(x).negated().times(phase::<M>(omega, n).sine()).yields(im)
            &&& #[trigger] call_ensures(M::symbol, (re, im), s)
        }
}

/// `passband` is `baseband` turned up sample by sample, by `omega` a sample.
pub open spec fn raised_by<M: Arithmetic>(
    baseband: Seq<M::Symbol>,
    omega: M::Real,
    passband: Seq<M::Real>,
) -> bool {
    &&& passband.len() == baseband.len()
    &&& forall|n: int|
        0 <= n < passband.len() ==> turned_up::<M>(baseband[n], omega, n).yields(
            #[trigger] passband[n],
        )
}

/// `passband` is the real part of `baseband` on a carrier at `fc`.
pub open spec fn raised<M: Arithmetic>(
    baseband: Seq<M::Symbol>,
    fc: M::Real,
    fs: M::Real,
    passband: Seq<M::Real>,
) -> bool {
    exists|omega: M::Real|
        turn::<M>(fc, fs).yields(omega) && #[trigger] raised_by::<M>(baseband, omega, passband)
}

/// `baseband` is `passband` turned back sample by sample, by `omega` a sample.
pub open spec fn lowered_by<M: Arithmetic>(
    passband: Seq<M::Real>,
    omega: M::Real,
    baseband: Seq<M::Symbol>,
) -> bool {
    &&& baseband.len() == passband.len()
    &&& forall|n: int|
        0 <= n < baseband.len() ==> turned_down::<M>(
            passband[n],
            omega,
            n,
            #[trigger] baseband[n],
        )
}

/// `baseband` is `passband` brought down from a carrier at `fc`.
pub open spec fn lowered<M: Arithmetic>(
    passband: Seq<M::Real>,
    fc: M::Real,
    fs: M::Real,
    baseband: Seq<M::Symbol>,
) -> bool {
    exists|omega: M::Real|
        turn::<M>(fc, fs).yields(omega) && #[trigger] lowered_by::<M>(passband, omega, baseband)
}

/// Mix a complex baseband signal up to a real passband signal at carrier `fc`:
/// the real part of `x\[n\]` times `e^(i 2 pi fc n / fs)`.
pub fn upconvert<M: Arithmetic>(
    baseband: &[M::Symbol],
    fc: M::Real,
    fs: M::Real,
) -> (passband: Vec<M::Real>)
    ensures
        raised::<M>(baseband@, fc, fs, passband@),
{
    let omega = turn_term::<M>(fc, fs).value;
    let mut passband: Vec<M::Real> = Vec::with_capacity(baseband.len());
    let mut n: usize = 0;
    while n < baseband.len()
        invariant
            n <= baseband@.len(),
            passband@.len() == n,
            forall|k: int|
                0 <= k < n ==> turned_up::<M>(baseband@[k], omega, k).yields(
                    #[trigger] passband@[k],
                ),
        decreases baseband@.len() - n,
    {
        let s = baseband[n];
        let at = phase_term::<M>(omega, n);
        let sample = Term::real_of(s).times(at.cosine()).minus(
            Term::imaginary_of(s).times(at.sine()),
        );
        passband.push(sample.value);
        n = n + 1;
    }
    assert(raised_by::<M>(baseband@, omega, passband@));
    passband
}

/// Mix a real passband signal down to complex baseband by multiplying with
/// `e^(-i 2 pi fc n / fs)`. The image at twice the carrier is left for the matched filter to
/// remove.
pub fn downconvert<M: Arithmetic>(
    passband: &[M::Real],
    fc: M::Real,
    fs: M::Real,
) -> (baseband: Vec<M::Symbol>)
    ensures
        lowered::<M>(passband@, fc, fs, baseband@),
{
    let omega = turn_term::<M>(fc, fs).value;
    let mut baseband: Vec<M::Symbol> = Vec::with_capacity(passband.len());
    let mut n: usize = 0;
    while n < passband.len()
        invariant
            n <= passband@.len(),
            baseband@.len() == n,
            forall|k: int|
                0 <= k < n ==> turned_down::<M>(passband@[k], omega, k, #[trigger] baseband@[k]),
        decreases passband@.len() - n,
    {
        let x = Term::<M>::given(passband[n]);
        let at = phase_term::<M>(omega, n);
        let re = x.times(at.cosine()).value;
        let im = x.negated().times(at.sine()).value;
        let s = M::symbol(re, im);
        assert(call_ensures(M::symbol, (re, im), s));
        baseband.push(s);
        n = n + 1;
    }
    assert(lowered_by::<M>(passband@, omega, baseband@));
    baseband
}

} // verus!
