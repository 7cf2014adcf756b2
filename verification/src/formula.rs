//! Formulas, and the values that they stand for.
//!
//! A formula says which operations of a number system are applied to which values, and in which
//! order. What comes out of them is what the number system makes of it.

use vstd::prelude::*;

use crate::arith::Arithmetic;

verus! {

/// A formula over reals.
pub enum Formula<M: Arithmetic> {
    /// A value.
    Given(M::Real),
    /// A quotient of two integers.
    Fraction(u64, u64),
    /// A number of things.
    Count(usize),
    /// A signed integer.
    Offset(i32),
    /// The real part of a symbol.
    RealOf(M::Symbol),
    /// The imaginary part of a symbol.
    ImaginaryOf(M::Symbol),
    /// The absolute value of a symbol.
    ModulusOf(M::Symbol),
    Plus(Box<Formula<M>>, Box<Formula<M>>),
    Minus(Box<Formula<M>>, Box<Formula<M>>),
    Times(Box<Formula<M>>, Box<Formula<M>>),
    Over(Box<Formula<M>>, Box<Formula<M>>),
    Larger(Box<Formula<M>>, Box<Formula<M>>),
    Negated(Box<Formula<M>>),
    Square(Box<Formula<M>>),
    Magnitude(Box<Formula<M>>),
    Sine(Box<Formula<M>>),
    Cosine(Box<Formula<M>>),
    Logarithm(Box<Formula<M>>),
    Rounded(Box<Formula<M>>),
}

impl<M: Arithmetic> Formula<M> {
    /// `self + other`.
    pub open spec fn plus(self, other: Self) -> Self {
        Formula::Plus(Box::new(self), Box::new(other))
    }

    /// `self - other`.
    pub open spec fn minus(self, other: Self) -> Self {
        Formula::Minus(Box::new(self), Box::new(other))
    }

    /// `self * other`.
    pub open spec fn times(self, other: Self) -> Self {
        Formula::Times(Box::new(self), Box::new(other))
    }

    /// `self / other`.
    pub open spec fn over(self, other: Self) -> Self {
        Formula::Over(Box::new(self), Box::new(other))
    }

    /// The larger of `self` and `other`.
    pub open spec fn larger(self, other: Self) -> Self {
        Formula::Larger(Box::new(self), Box::new(other))
    }

    /// `-self`.
    pub open spec fn negated(self) -> Self {
        Formula::Negated(Box::new(self))
    }

    /// `self` squared.
    pub open spec fn square(self) -> Self {
        Formula::Square(Box::new(self))
    }

    /// `|self|`.
    pub open spec fn magnitude(self) -> Self {
        Formula::Magnitude(Box::new(self))
    }

    /// The sine of `self`.
    pub open spec fn sine(self) -> Self {
        Formula::Sine(Box::new(self))
    }

    /// The cosine of `self`.
    pub open spec fn cosine(self) -> Self {
        Formula::Cosine(Box::new(self))
    }

    /// The decimal logarithm of `self`.
    pub open spec fn logarithm(self) -> Self {
        Formula::Logarithm(Box::new(self))
    }

    /// The integer nearest to `self`.
    pub open spec fn rounded(self) -> Self {
        Formula::Rounded(Box::new(self))
    }

    /// `x` may come out of this formula.
    pub open spec fn yields(self, x: M::Real) -> bool
        decreases self,
    {
        match self {
            Formula::Given(v) => x == v,
            Formula::Fraction(num, den) => call_ensures(M::fraction, (num, den), x),
            Formula::Count(n) => call_ensures(M::count, (n,), x),
            Formula::Offset(n) => call_ensures(M::offset, (n,), x),
            Formula::RealOf(s) => call_ensures(M::real_part, (s,), x),
            Formula::ImaginaryOf(s) => call_ensures(M::imaginary_part, (s,), x),
            Formula::ModulusOf(s) => call_ensures(M::modulus, (s,), x),
            Formula::Plus(a, b) => exists|p: M::Real, q: M::Real|
                #[trigger] call_ensures(M::plus, (p, q), x) && a.yields(p) && b.yields(q),
            Formula::Minus(a, b) => exists|p: M::Real, q: M::Real|
                #[trigger] call_ensures(M::minus, (p, q), x) && a.yields(p) && b.yields(q),
            Formula::Times(a, b) => exists|p: M::Real, q: M::Real|
                #[trigger] call_ensures(M::times, (p, q), x) && a.yields(p) && b.yields(q),
            Formula::Over(a, b) => exists|p: M::Real, q: M::Real|
                #[trigger] call_ensures(M::over, (p, q), x) && a.yields(p) && b.yields(q),
            Formula::Larger(a, b) => exists|p: M::Real, q: M::Real|
                #[trigger] call_ensures(M::larger, (p, q), x) && a.yields(p) && b.yields(q),
            Formula::Negated(a) => exists|p: M::Real|
                #[trigger] call_ensures(M::negated, (p,), x) && a.yields(p),
            Formula::Square(a) => exists|p: M::Real|
                #[trigger] call_ensures(M::square, (p,), x) && a.yields(p),
            Formula::Magnitude(a) => exists|p: M::Real|
                #[trigger] call_ensures(M::magnitude, (p,), x) && a.yields(p),
            Formula::Sine(a) => exists|p: M::Real|
                #[trigger] call_ensures(M::sine, (p,), x) && a.yields(p),
            Formula::Cosine(a) => exists|p: M::Real|
                #[trigger] call_ensures(M::cosine, (p,), x) && a.yields(p),
            Formula::Logarithm(a) => exists|p: M::Real|
                #[trigger] call_ensures(M::logarithm, (p,), x) && a.yields(p),
            Formula::Rounded(a) => exists|p: M::Real|
                #[trigger] call_ensures(M::rounded, (p,), x) && a.yields(p),
        }
    }
}

/// A value, and the formula that it came out of.
pub(crate) struct Term<M: Arithmetic> {
    pub(crate) value: M::Real,
    pub(crate) formula: Ghost<Formula<M>>,
}

impl<M: Arithmetic> Clone for Term<M> {
    fn clone(&self) -> (t: Self)
        ensures
            t == *self,
    {
        *self
    }
}

impl<M: Arithmetic> Copy for Term<M> {

}

impl<M: Arithmetic> Term<M> {
    /// The value may come out of the formula.
    pub(crate) open spec fn wf(self) -> bool {
        self.formula@.yields(self.value)
    }

    /// The value `x`.
    pub(crate) fn given(x: M::Real) -> (t: Self)
        ensures
            t.wf(),
            t.formula@ == Formula::<M>::Given(x),
    {
        Term { value: x, formula: Ghost(Formula::Given(x)) }
    }

    /// `num / den`.
    pub(crate) fn fraction(num: u64, den: u64) -> (t: Self)
        ensures
            t.wf(),
            t.formula@ == Formula::<M>::Fraction(num, den),
    {
        Term { value: M::fraction(num, den), formula: Ghost(Formula::Fraction(num, den)) }
    }

    /// `n`.
    pub(crate) fn count(n: usize) -> (t: Self)
        ensures
            t.wf(),
            t.formula@ == Formula::<M>::Count(n),
    {
        Term { value: M::count(n), formula: Ghost(Formula::Count(n)) }
    }

    /// `n`.
    pub(crate) fn offset(n: i32) -> (t: Self)
        ensures
            t.wf(),
            t.formula@ == Formula::<M>::Offset(n),
    {
        Term { value: M::offset(n), formula: Ghost(Formula::Offset(n)) }
    }

    /// The real part of `s`.
    pub(crate) fn real_of(s: M::Symbol) -> (t: Self)
        ensures
            t.wf(),
            t.formula@ == Formula::<M>::RealOf(s),
    {
        Term { value: M::real_part(s), formula: Ghost(Formula::RealOf(s)) }
    }

    /// The imaginary part of `s`.
    pub(crate) fn imaginary_of(s: M::Symbol) -> (t: Self)
        ensures
            t.wf(),
            t.formula@ == Formula::<M>::ImaginaryOf(s),
    {
        Term { value: M::imaginary_part(s), formula: Ghost(Formula::ImaginaryOf(s)) }
    }

    /// The absolute value of `s`.
    pub(crate) fn modulus_of(s: M::Symbol) -> (t: Self)
        ensures
            t.wf(),
            t.formula@ == Formula::<M>::ModulusOf(s),
    {
        Term { value: M::modulus(s), formula: Ghost(Formula::ModulusOf(s)) }
    }

    /// `self + other`.
    pub(crate) fn plus(self, other: Self) -> (t: Self)
        requires
            self.wf(),
            other.wf(),
        ensures
            t.wf(),
            t.formula@ == self.formula@.plus(other.formula@),
    {
        let value = M::plus(self.value, other.value);
        assert(call_ensures(M::plus, (self.value, other.value), value));
        Term { value, formula: Ghost(self.formula@.plus(other.formula@)) }
    }

    /// `self - other`.
    pub(crate) fn minus(self, other: Self) -> (t: Self)
        requires
            self.wf(),
            other.wf(),
        ensures
            t.wf(),
            t.formula@ == self.formula@.minus(other.formula@),
    {
        let value = M::minus(self.value, other.value);
        assert(call_ensures(M::minus, (self.value, other.value), value));
        Term { value, formula: Ghost(self.formula@.minus(other.formula@)) }
    }

    /// `self * other`.
    pub(crate) fn times(self, other: Self) -> (t: Self)
        requires
            self.wf(),
            other.wf(),
        ensures
            t.wf(),
            t.formula@ == self.formula@.times(other.formula@),
    {
        let value = M::times(self.value, other.value);
        assert(call_ensures(M::times, (self.value, other.value), value));
        Term { value, formula: Ghost(self.formula@.times(other.formula@)) }
    }

    /// `self / other`.
    pub(crate) fn over(self, other: Self) -> (t: Self)
        requires
            self.wf(),
            other.wf(),
        ensures
            t.wf(),
            t.formula@ == self.formula@.over(other.formula@),
    {
        let value = M::over(self.value, other.value);
        assert(call_ensures(M::over, (self.value, other.value), value));
        Term { value, formula: Ghost(self.formula@.over(other.formula@)) }
    }

    /// The larger of `self` and `other`.
    pub(crate) fn larger(self, other: Self) -> (t: Self)
        requires
            self.wf(),
            other.wf(),
        ensures
            t.wf(),
            t.formula@ == self.formula@.larger(other.formula@),
    {
        let value = M::larger(self.value, other.value);
        assert(call_ensures(M::larger, (self.value, other.value), value));
        Term { value, formula: Ghost(self.formula@.larger(other.formula@)) }
    }

    /// `-self`.
    pub(crate) fn negated(self) -> (t: Self)
        requires
            self.wf(),
        ensures
            t.wf(),
            t.formula@ == self.formula@.negated(),
    {
        let value = M::negated(self.value);
        assert(call_ensures(M::negated, (self.value,), value));
        Term { value, formula: Ghost(self.formula@.negated()) }
    }

    /// `self` squared.
    pub(crate) fn square(self) -> (t: Self)
        requires
            self.wf(),
        ensures
            t.wf(),
            t.formula@ == self.formula@.square(),
    {
        let value = M::square(self.value);
        assert(call_ensures(M::square, (self.value,), value));
        Term { value, formula: Ghost(self.formula@.square()) }
    }

    /// `|self|`.
    pub(crate) fn magnitude(self) -> (t: Self)
        requires
            self.wf(),
        ensures
            t.wf(),
            t.formula@ == self.formula@.magnitude(),
    {
        let value = M::magnitude(self.value);
        assert(call_ensures(M::magnitude, (self.value,), value));
        Term { value, formula: Ghost(self.formula@.magnitude()) }
    }

    /// The sine of `self`.
    pub(crate) fn sine(self) -> (t: Self)
        requires
            self.wf(),
        ensures
            t.wf(),
            t.formula@ == self.formula@.sine(),
    {
        let value = M::sine(self.value);
        assert(call_ensures(M::sine, (self.value,), value));
        Term { value, formula: Ghost(self.formula@.sine()) }
    }

    /// The cosine of `self`.
    pub(crate) fn cosine(self) -> (t: Self)
        requires
            self.wf(),
        ensures
            t.wf(),
            t.formula@ == self.formula@.cosine(),
    {
        let value = M::cosine(self.value);
        assert(call_ensures(M::cosine, (self.value,), value));
        Term { value, formula: Ghost(self.formula@.cosine()) }
    }

    /// The decimal logarithm of `self`.
    pub(crate) fn logarithm(self) -> (t: Self)
        requires
            self.wf(),
        ensures
            t.wf(),
            t.formula@ == self.formula@.logarithm(),
    {
        let value = M::logarithm(self.value);
        assert(call_ensures(M::logarithm, (self.value,), value));
        Term { value, formula: Ghost(self.formula@.logarithm()) }
    }

    /// The integer nearest to `self`.
    pub(crate) fn rounded(self) -> (t: Self)
        requires
            self.wf(),
        ensures
            t.wf(),
            t.formula@ == self.formula@.rounded(),
    {
        let value = M::rounded(self.value);
        assert(call_ensures(M::rounded, (self.value,), value));
        Term { value, formula: Ghost(self.formula@.rounded()) }
    }
}

/// Value `i` of a Hann window of `size` values; a window of a single value is 1.
pub open spec fn hann_value<M: Arithmetic>(i: usize, size: usize) -> Formula<M> {
    if size == 1 {
        Formula::Given(M::ONE)
    } else {
        Formula::Fraction(1, 2).times(
            Formula::Given(M::ONE).minus(
                Formula::Given(M::TAU).times(Formula::Count(i)).over(
                    Formula::Count((size - 1) as usize),
                ).cosine(),
            ),
        )
    }
}

/// Value `i` of a Hann window of `size` values.
pub(crate) fn hann_term<M: Arithmetic>(i: usize, size: usize) -> (t: Term<M>)
    requires
        size > 0,
    ensures
        t.wf(),
        t.formula@ == hann_value::<M>(i, size),
{
    if size == 1 {
        return Term::given(M::ONE);
    }
    Term::fraction(1, 2).times(
        Term::given(M::ONE).minus(
            Term::given(M::TAU).times(Term::count(i)).over(Term::count(size - 1)).cosine(),
        ),
    )
}

/// Comparing what comes out of `f` with `bound` may tell whether it is below.
pub open spec fn tells_below<M: Arithmetic>(f: Formula<M>, bound: M::Real, below: bool) -> bool {
    exists|x: M::Real| f.yields(x) && #[trigger] call_ensures(M::below, (x, bound), below)
}

impl<M: Arithmetic> Term<M> {
    /// Whether the value is below `bound`.
    pub(crate) fn is_below(self, bound: M::Real) -> (below: bool)
        requires
            self.wf(),
        ensures
            tells_below::<M>(self.formula@, bound, below),
    {
        let below = M::below(self.value, bound);
        assert(call_ensures(M::below, (self.value, bound), below));
        below
    }
}

} // verus!
