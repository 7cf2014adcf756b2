//! Exact arithmetic: what the signals are in the mathematical sense.
//!
//! A number system is exact if every value stands for a number and every operation returns the
//! number that it is named after. No machine is exact, but the laws stated here of exact systems
//! are what the operations of the library are for.

use vstd::prelude::*;

use crate::arith::{
    adds_product, adds_tap, clamped, lemma_reached_keeps, reached, square_step, Arithmetic,
};
use crate::formula::{tells_below, Formula};

verus! {

/// What the values of a number system stand for.
pub struct Exact<M: Arithmetic> {
    pub real: spec_fn(M::Real) -> real,
    pub re: spec_fn(M::Symbol) -> real,
    pub im: spec_fn(M::Symbol) -> real,
    pub sin: spec_fn(real) -> real,
    pub cos: spec_fn(real) -> real,
    pub log: spec_fn(real) -> real,
    pub sqrt: spec_fn(real) -> real,
    pub round: spec_fn(real) -> int,
    pub pi: real,
}

/// `|x|`.
pub open spec fn abs(x: real) -> real {
    if x < 0real {
        -x
    } else {
        x
    }
}

/// The larger of `x` and `y`.
pub open spec fn max(x: real, y: real) -> real {
    if x < y {
        y
    } else {
        x
    }
}

/// `x` brought into the range from `lo` to `hi`.
pub open spec fn within(x: real, lo: real, hi: real) -> real {
    if x < lo {
        lo
    } else if x > hi {
        hi
    } else {
        x
    }
}

/// `term(0) + term(1) + .. + term(n - 1)`.
pub open spec fn total(n: nat, term: spec_fn(int) -> real) -> real
    decreases n,
{
    if n == 0 {
        0real
    } else {
        total((n - 1) as nat, term) + term(n - 1)
    }
}

impl<M: Arithmetic> Exact<M> {
    /// What `x` stands for.
    pub open spec fn of(self, x: M::Real) -> real {
        (self.real)(x)
    }

    /// The real part of what `s` stands for.
    pub open spec fn re(self, s: M::Symbol) -> real {
        (self.re)(s)
    }

    /// The imaginary part of what `s` stands for.
    pub open spec fn im(self, s: M::Symbol) -> real {
        (self.im)(s)
    }

    /// The square of the absolute value of what `s` stands for.
    pub open spec fn norm(self, s: M::Symbol) -> real {
        self.re(s) * self.re(s) + self.im(s) * self.im(s)
    }

    /// Constants and conversions are exact.
    pub open spec fn constants(self) -> bool {
        &&& self.of(M::ZERO) == 0real
        &&& self.of(M::ONE) == 1real
        &&& self.of(M::LOWEST) < 0real
        &&& forall|n: u64, d: u64, r: M::Real| #[trigger]
            call_ensures(M::fraction, (n, d), r) && d > 0 ==> self.of(r) == (n as real) / (
            d as real)
        &&& forall|n: usize, r: M::Real| #[trigger]
            call_ensures(M::count, (n,), r) ==> self.of(r) == n as real
        &&& forall|n: i32, r: M::Real| #[trigger]
            call_ensures(M::offset, (n,), r) ==> self.of(r) == n as real
    }

    /// Sums, products and the like are exact.
    pub open spec fn field(self) -> bool {
        &&& forall|a: M::Real, b: M::Real, r: M::Real| #[trigger]
            call_ensures(M::plus, (a, b), r) ==> self.of(r) == self.of(a) + self.of(b)
        &&& forall|a: M::Real, b: M::Real, r: M::Real| #[trigger]
            call_ensures(M::minus, (a, b), r) ==> self.of(r) == self.of(a) - self.of(b)
        &&& forall|a: M::Real, b: M::Real, r: M::Real| #[trigger]
            call_ensures(M::times, (a, b), r) ==> self.of(r) == self.of(a) * self.of(b)
        &&& forall|a: M::Real, b: M::Real, r: M::Real| #[trigger]
            call_ensures(M::over, (a, b), r) && self.of(b) != 0real ==> self.of(r) == self.of(a)
            / self.of(b)
        &&& forall|a: M::Real, r: M::Real| #[trigger]
            call_ensures(M::negated, (a,), r) ==> self.of(r) == -self.of(a)
        &&& forall|a: M::Real, r: M::Real| #[trigger]
            call_ensures(M::square, (a,), r) ==> self.of(r) == self.of(a) * self.of(a)
    }

    /// Comparisons and roundings are exact.
    pub open spec fn order(self) -> bool {
        &&& forall|a: M::Real, r: M::Real| #[trigger]
            call_ensures(M::magnitude, (a,), r) ==> self.of(r) == abs(self.of(a))
        &&& forall|a: M::Real, b: M::Real, r: M::Real| #[trigger]
            call_ensures(M::larger, (a, b), r) ==> self.of(r) == max(self.of(a), self.of(b))
        &&& forall|a: M::Real, b: M::Real, p: bool| #[trigger]
            call_ensures(M::exceeds, (a, b), p) ==> p == (self.of(a) > self.of(b))
        &&& forall|a: M::Real, b: M::Real, p: bool| #[trigger]
            call_ensures(M::reaches, (a, b), p) ==> p == (self.of(a) >= self.of(b))
        &&& forall|a: M::Real, b: M::Real, p: bool| #[trigger]
            call_ensures(M::below, (a, b), p) ==> p == (self.of(a) < self.of(b))
        &&& forall|a: M::Real, n: usize| #[trigger]
            call_ensures(M::floor, (a,), n) && self.of(a) >= 0real ==> n as real <= self.of(a) < (n
            as real) + 1real
        &&& forall|a: M::Real, n: usize| #[trigger]
            call_ensures(M::nearest, (a,), n) && self.of(a) >= 0real ==> -1real <= 2real * (self.of(
                a,
            ) - (n as real)) <= 1real
        &&& forall|x: real|
            -1real <= 2real * (x - ((#[trigger] (self.round)(x)) as real)) <= 1real
        &&& forall|a: M::Real, r: M::Real| #[trigger]
            call_ensures(M::rounded, (a,), r) ==> self.of(r) == ((self.round)(self.of(a)) as real)
        &&& forall|a: M::Real, v: i16| #[trigger]
            call_ensures(M::sample, (a,), v) && self.of(a) == ((self.round)(self.of(a)) as real)
                && i16::MIN <= (self.round)(self.of(a)) <= i16::MAX ==> v == (self.round)(
                self.of(a),
            )
    }

    /// Sines, cosines, roots and logarithms are exact.
    pub open spec fn curves(self) -> bool {
        &&& self.of(M::PI) == self.pi
        &&& self.of(M::TAU) == 2real * self.pi
        &&& self.pi > 0real
        &&& self.of(M::ROOT_TWO) == (self.sqrt)(2real)
        &&& forall|a: M::Real, r: M::Real| #[trigger]
            call_ensures(M::sine, (a,), r) ==> self.of(r) == (self.sin)(self.of(a))
        &&& forall|a: M::Real, r: M::Real| #[trigger]
            call_ensures(M::cosine, (a,), r) ==> self.of(r) == (self.cos)(self.of(a))
        &&& forall|x: real| -1real <= #[trigger] (self.cos)(x) <= 1real
        &&& forall|a: M::Real, r: M::Real| #[trigger]
            call_ensures(M::logarithm, (a,), r) ==> self.of(r) == (self.log)(self.of(a))
        &&& forall|a: M::Real, r: M::Real| #[trigger]
            call_ensures(M::root, (a,), r) ==> self.of(r) == (self.sqrt)(self.of(a))
        &&& forall|x: real|
            x >= 0real ==> #[trigger] (self.sqrt)(x) >= 0real && (self.sqrt)(x) * (self.sqrt)(x)
                == x
    }

    /// Complex arithmetic is exact.
    pub open spec fn plane(self) -> bool {
        &&& self.re(M::ORIGIN) == 0real && self.im(M::ORIGIN) == 0real
        &&& self.re(M::SPACE) == 1real && self.im(M::SPACE) == 0real
        &&& self.re(M::MARK) == -1real && self.im(M::MARK) == 0real
        &&& forall|a: M::Real, b: M::Real, s: M::Symbol| #[trigger]
            call_ensures(M::symbol, (a, b), s) ==> self.re(s) == self.of(a) && self.im(s)
                == self.of(b)
        &&& forall|s: M::Symbol, r: M::Real| #[trigger]
            call_ensures(M::real_part, (s,), r) ==> self.of(r) == self.re(s)
        &&& forall|s: M::Symbol, r: M::Real| #[trigger]
            call_ensures(M::imaginary_part, (s,), r) ==> self.of(r) == self.im(s)
        &&& forall|s: M::Symbol, r: M::Real| #[trigger]
            call_ensures(M::modulus, (s,), r) ==> self.of(r) == (self.sqrt)(self.norm(s))
        &&& forall|s: M::Symbol, r: M::Real| #[trigger]
            call_ensures(M::energy, (s,), r) ==> self.of(r) == self.norm(s)
        &&& forall|a: M::Symbol, b: M::Symbol, r: M::Symbol| #[trigger]
            call_ensures(M::sum, (a, b), r) ==> self.re(r) == self.re(a) + self.re(b) && self.im(r)
                == self.im(a) + self.im(b)
        &&& forall|a: M::Symbol, b: M::Symbol, r: M::Symbol| #[trigger]
            call_ensures(M::difference, (a, b), r) ==> self.re(r) == self.re(a) - self.re(b)
                && self.im(r) == self.im(a) - self.im(b)
        &&& forall|a: M::Symbol, b: M::Symbol, r: M::Symbol| #[trigger]
            call_ensures(M::product, (a, b), r) ==> self.is_product(a, b, r)
        &&& forall|a: M::Symbol, b: M::Symbol, r: M::Symbol| #[trigger]
            call_ensures(M::conjugate_product, (a, b), r) ==> self.re(r) == self.re(a) * self.re(b)
                + self.im(a) * self.im(b) && self.im(r) == self.im(a) * self.re(b) - self.re(a)
                * self.im(b)
        &&& forall|a: M::Symbol, b: M::Symbol, r: M::Symbol| #[trigger]
            call_ensures(M::quotient, (a, b), r) && self.norm(b) != 0real ==> self.is_product(
                r,
                b,
                a,
            )
        &&& forall|s: M::Symbol, a: M::Real, r: M::Symbol| #[trigger]
            call_ensures(M::scaled, (s, a), r) ==> self.re(r) == self.re(s) * self.of(a)
                && self.im(r) == self.im(s) * self.of(a)
        &&& forall|s: M::Symbol, a: M::Real, r: M::Symbol| #[trigger]
            call_ensures(M::share, (s, a), r) && self.of(a) != 0real ==> self.re(r) == self.re(s)
                / self.of(a) && self.im(r) == self.im(s) / self.of(a)
    }

    /// `r` stands for the product of `a` and `b`.
    pub open spec fn is_product(self, a: M::Symbol, b: M::Symbol, r: M::Symbol) -> bool {
        &&& self.re(r) == self.re(a) * self.re(b) - self.im(a) * self.im(b)
        &&& self.im(r) == self.re(a) * self.im(b) + self.im(a) * self.re(b)
    }

    /// The number system is exact.
    pub open spec fn holds(self) -> bool {
        &&& self.constants()
        &&& self.field()
        &&& self.order()
        &&& self.curves()
        &&& self.plane()
    }

    /// The number that `f` stands for.
    pub open spec fn value(self, f: Formula<M>) -> real
        decreases f,
    {
        match f {
            Formula::Given(x) => self.of(x),
            Formula::Fraction(n, d) => (n as real) / (d as real),
            Formula::Count(n) => n as real,
            Formula::Offset(n) => n as real,
            Formula::RealOf(s) => self.re(s),
            Formula::ImaginaryOf(s) => self.im(s),
            Formula::ModulusOf(s) => (self.sqrt)(self.norm(s)),
            Formula::Plus(a, b) => self.value(*a) + self.value(*b),
            Formula::Minus(a, b) => self.value(*a) - self.value(*b),
            Formula::Times(a, b) => self.value(*a) * self.value(*b),
            Formula::Over(a, b) => self.value(*a) / self.value(*b),
            Formula::Larger(a, b) => max(self.value(*a), self.value(*b)),
            Formula::Negated(a) => -self.value(*a),
            Formula::Square(a) => self.value(*a) * self.value(*a),
            Formula::Magnitude(a) => abs(self.value(*a)),
            Formula::Sine(a) => (self.sin)(self.value(*a)),
            Formula::Cosine(a) => (self.cos)(self.value(*a)),
            Formula::Logarithm(a) => (self.log)(self.value(*a)),
            Formula::Rounded(a) => ((self.round)(self.value(*a)) as real),
        }
    }

    /// Nothing in `f` is divided by zero.
    pub open spec fn defined(self, f: Formula<M>) -> bool
        decreases f,
    {
        match f {
            Formula::Fraction(n, d) => d > 0,
            Formula::Plus(a, b) => self.defined(*a) && self.defined(*b),
            Formula::Minus(a, b) => self.defined(*a) && self.defined(*b),
            Formula::Times(a, b) => self.defined(*a) && self.defined(*b),
            Formula::Over(a, b) => self.defined(*a) && self.defined(*b) && self.value(*b) != 0real,
            Formula::Larger(a, b) => self.defined(*a) && self.defined(*b),
            Formula::Negated(a) => self.defined(*a),
            Formula::Square(a) => self.defined(*a),
            Formula::Magnitude(a) => self.defined(*a),
            Formula::Sine(a) => self.defined(*a),
            Formula::Cosine(a) => self.defined(*a),
            Formula::Logarithm(a) => self.defined(*a),
            Formula::Rounded(a) => self.defined(*a),
            _ => true,
        }
    }
}

/// What a formula yields stands for the number that the formula stands for.
pub proof fn lemma_value<M: Arithmetic>(v: Exact<M>, f: Formula<M>, x: M::Real)
    requires
        v.holds(),
        v.defined(f),
        f.yields(x),
    ensures
        v.of(x) == v.value(f),
    decreases f,
{
    match f {
        Formula::Plus(a, b) => {
            let (p, q) = choose|p: M::Real, q: M::Real|
                #[trigger] call_ensures(M::plus, (p, q), x) && a.yields(p) && b.yields(q);
            lemma_value::<M>(v, *a, p);
            lemma_value::<M>(v, *b, q);
        },
        Formula::Minus(a, b) => {
            let (p, q) = choose|p: M::Real, q: M::Real|
                #[trigger] call_ensures(M::minus, (p, q), x) && a.yields(p) && b.yields(q);
            lemma_value::<M>(v, *a, p);
            lemma_value::<M>(v, *b, q);
        },
        Formula::Times(a, b) => {
            let (p, q) = choose|p: M::Real, q: M::Real|
                #[trigger] call_ensures(M::times, (p, q), x) && a.yields(p) && b.yields(q);
            lemma_value::<M>(v, *a, p);
            lemma_value::<M>(v, *b, q);
        },
        Formula::Over(a, b) => {
            let (p, q) = choose|p: M::Real, q: M::Real|
                #[trigger] call_ensures(M::over, (p, q), x) && a.yields(p) && b.yields(q);
            lemma_value::<M>(v, *a, p);
            lemma_value::<M>(v, *b, q);
        },
        Formula::Larger(a, b) => {
            let (p, q) = choose|p: M::Real, q: M::Real|
                #[trigger] call_ensures(M::larger, (p, q), x) && a.yields(p) && b.yields(q);
            lemma_value::<M>(v, *a, p);
            lemma_value::<M>(v, *b, q);
        },
        Formula::Negated(a) => {
            let p = choose|p: M::Real|
                #[trigger] call_ensures(M::negated, (p,), x) && a.yields(p);
            lemma_value::<M>(v, *a, p);
        },
        Formula::Square(a) => {
            let p = choose|p: M::Real|
                #[trigger] call_ensures(M::square, (p,), x) && a.yields(p);
            lemma_value::<M>(v, *a, p);
        },
        Formula::Magnitude(a) => {
            let p = choose|p: M::Real|
                #[trigger] call_ensures(M::magnitude, (p,), x) && a.yields(p);
            lemma_value::<M>(v, *a, p);
        },
        Formula::Sine(a) => {
            let p = choose|p: M::Real|
                #[trigger] call_ensures(M::sine, (p,), x) && a.yields(p);
            lemma_value::<M>(v, *a, p);
        },
        Formula::Cosine(a) => {
            let p = choose|p: M::Real|
                #[trigger] call_ensures(M::cosine, (p,), x) && a.yields(p);
            lemma_value::<M>(v, *a, p);
        },
        Formula::Logarithm(a) => {
            let p = choose|p: M::Real|
                #[trigger] call_ensures(M::logarithm, (p,), x) && a.yields(p);
            lemma_value::<M>(v, *a, p);
        },
        Formula::Rounded(a) => {
            let p = choose|p: M::Real|
                #[trigger] call_ensures(M::rounded, (p,), x) && a.yields(p);
            lemma_value::<M>(v, *a, p);
        },
        _ => {},
    }
}

/// `x * (y + z) == x * y + x * z`.
pub proof fn lemma_distributes(x: real, y: real, z: real)
    by (nonlinear_arith)
    ensures
        x * (y + z) == x * y + x * z,
{
}

/// `x * (y * z) == (x * y) * z`.
pub proof fn lemma_associates(x: real, y: real, z: real)
    by (nonlinear_arith)
    ensures
        x * (y * z) == (x * y) * z,
{
}

/// `x * y == y * x`.
pub proof fn lemma_commutes(x: real, y: real)
    by (nonlinear_arith)
    ensures
        x * y == y * x,
{
}

/// `x / y * y == x`.
pub proof fn lemma_divides(x: real, y: real)
    by (nonlinear_arith)
    requires
        y != 0real,
    ensures
        x / y * y == x,
{
}

/// `x * (y - z) == x * y - x * z`.
pub proof fn lemma_subtracts(x: real, y: real, z: real)
    by (nonlinear_arith)
    ensures
        x * (y - z) == x * y - x * z,
{
}

/// A quotient is zero only if the dividend is.
pub proof fn lemma_quotient_of_zero(x: real, y: real)
    by (nonlinear_arith)
    requires
        y != 0real,
    ensures
        (x / y == 0real) == (x == 0real),
{
}

/// Turning a number by another and back stretches it by the square of the other's size.
pub proof fn lemma_turned_back(a: real, b: real, c: real, d: real)
    ensures
        c * (a * c + b * d) - d * (b * c - a * d) == a * (c * c + d * d),
        d * (a * c + b * d) + c * (b * c - a * d) == b * (c * c + d * d),
{
    lemma_distributes(c, a * c, b * d);
    lemma_distributes(d, a * c, b * d);
    lemma_subtracts(c, b * c, a * d);
    lemma_subtracts(d, b * c, a * d);
    lemma_distributes(a, c * c, d * d);
    lemma_distributes(b, c * c, d * d);
    lemma_associates(a, c, c);
    lemma_associates(a, d, d);
    lemma_associates(b, c, c);
    lemma_associates(b, d, d);
    lemma_associates(c, b, d);
    lemma_associates(d, b, c);
    lemma_associates(c, a, d);
    lemma_associates(d, a, c);
    assert(c * (a * c) == (a * c) * c);
    assert(d * (a * d) == (a * d) * d);
    assert(c * (b * c) == (b * c) * c);
    assert(d * (b * d) == (b * d) * d);
    assert(c * (b * d) == d * (b * c)) by {
        lemma_associates(b, c, d);
        lemma_associates(b, d, c);
    }
    assert(d * (a * c) == c * (a * d)) by {
        lemma_associates(a, c, d);
        lemma_associates(a, d, c);
    }
}

/// Sums of the same terms are the same.
pub proof fn lemma_same_total(n: nat, f: spec_fn(int) -> real, g: spec_fn(int) -> real)
    requires
        forall|i: int| 0 <= i < n ==> #[trigger] f(i) == g(i),
    ensures
        total(n, f) == total(n, g),
    decreases n,
{
    if n > 0 {
        lemma_same_total((n - 1) as nat, f, g);
        assert(f(n - 1) == g(n - 1));
    }
}

/// What grows by `f(i)` in step `i`, from zero, ends at the sum of `f`.
pub proof fn lemma_total_reached<S>(
    step: spec_fn(int, S, S) -> bool,
    n: nat,
    start: S,
    end: S,
    m: spec_fn(S) -> real,
    f: spec_fn(int) -> real,
)
    requires
        reached(step, n, start, end),
        m(start) == 0real,
        forall|i: int, a: S, b: S| 0 <= i < n && #[trigger] step(i, a, b) ==> m(b) == m(a) + f(i),
    ensures
        m(end) == total(n, f),
{
    let keeps = |i: int, a: S| 0 <= i && m(a) == total(i as nat, f);
    assert forall|i: int, a: S, b: S|
        0 <= i < n && #[trigger] keeps(i, a) && #[trigger] step(i, a, b) implies keeps(
        i + 1,
        b,
    ) by {
        assert(total((i + 1) as nat, f) == total(i as nat, f) + f(i));
    }
    lemma_reached_keeps(step, n, start, end, keeps);
}

/// Terms that grow by multiples of `c` make a sum that grows by that multiple of `c`.
pub proof fn lemma_total_grows(
    n: nat,
    f: spec_fn(int) -> real,
    g: spec_fn(int) -> real,
    w: spec_fn(int) -> real,
    c: real,
)
    requires
        forall|i: int| 0 <= i < n ==> #[trigger] g(i) == f(i) + c * w(i),
    ensures
        total(n, g) == total(n, f) + c * total(n, w),
    decreases n,
{
    if n > 0 {
        let m = (n - 1) as nat;
        lemma_total_grows(m, f, g, w, c);
        assert(g(n - 1) == f(n - 1) + c * w(n - 1));
        lemma_distributes(c, total(m, w), w(n - 1));
    }
}

/// The squares of `x`.
pub open spec fn squares<M: Arithmetic>(v: Exact<M>, x: Seq<M::Real>) -> spec_fn(int) -> real {
    |i: int| v.of(x[i]) * v.of(x[i])
}

/// Adding up squares one by one gives the sum of the squares.
pub proof fn lemma_sum_of_squares<M: Arithmetic>(v: Exact<M>, x: Seq<M::Real>, e: M::Real)
    requires
        v.holds(),
        reached(square_step::<M>(x), x.len(), M::ZERO, e),
    ensures
        v.of(e) == total(x.len(), squares::<M>(v, x)),
{
    let step = square_step::<M>(x);
    assert forall|i: int, a: M::Real, b: M::Real|
        0 <= i < x.len() && #[trigger] step(i, a, b) implies (v.real)(b) == (v.real)(a)
        + squares::<M>(v, x)(i) by {
        assert(adds_product::<M>(a, x[i], x[i], b));
    }
    lemma_total_reached(step, x.len(), M::ZERO, e, v.real, squares::<M>(v, x));
}

/// Comparing with a bound tells what the numbers say.
pub proof fn lemma_below<M: Arithmetic>(v: Exact<M>, f: Formula<M>, bound: M::Real, below: bool)
    requires
        v.holds(),
        v.defined(f),
        tells_below::<M>(f, bound, below),
    ensures
        below == (v.value(f) < v.of(bound)),
{
    let x = choose|x: M::Real|
        f.yields(x) && #[trigger] call_ensures(M::below, (x, bound), below);
    lemma_value::<M>(v, f, x);
}

/// Clamping brings a number into a range.
pub proof fn lemma_clamped<M: Arithmetic>(
    v: Exact<M>,
    x: M::Real,
    lo: M::Real,
    hi: M::Real,
    r: M::Real,
)
    requires
        v.holds(),
        v.of(lo) <= v.of(hi),
        clamped::<M>(x, lo, hi, r),
    ensures
        v.of(r) == within(v.of(x), v.of(lo), v.of(hi)),
{
}

/// A tap adds the symbol it looks at, times its weight.
pub proof fn lemma_adds_tap<M: Arithmetic>(
    v: Exact<M>,
    acc: M::Symbol,
    x: M::Symbol,
    h: M::Real,
    r: M::Symbol,
)
    requires
        v.holds(),
        adds_tap::<M>(acc, x, h, r),
    ensures
        v.re(r) == v.re(acc) + v.re(x) * v.of(h),
        v.im(r) == v.im(acc) + v.im(x) * v.of(h),
{
}

} // verus!
