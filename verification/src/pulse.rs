//! Pulse shaping and matched filtering.

use vstd::prelude::*;

use crate::arith::{
    add_tap, adds_tap, filled, lemma_reached_next, lemma_reached_none, lemma_reached_once, reached,
    square_step, sum_of_squares, Arithmetic,
};
use crate::formula::{tells_below, Formula, Term};

verus! {

/// `taps` is the impulse `raw`, whose energy is `energy`, divided by the root `norm` of the
/// energy.
pub open spec fn unit_energy<M: Arithmetic>(
    raw: Seq<M::Real>,
    energy: M::Real,
    norm: M::Real,
    taps: Seq<M::Real>,
) -> bool {
    &&& reached(square_step::<M>(raw), raw.len(), M::ZERO, energy)
    &&& call_ensures(M::root, (energy,), norm)
    &&& taps.len() == raw.len()
    &&& forall|i: int|
        0 <= i < raw.len() ==> call_ensures(M::over, (raw[i], norm), #[trigger] taps[i])
}

/// The impulse at its peak.
pub open spec fn rrc_peak<M: Arithmetic>(beta: M::Real) -> Formula<M> {
    let b = Formula::Given(beta);
    Formula::Given(M::ONE).minus(b).plus(
        Formula::Fraction(4, 1).times(b).over(Formula::Given(M::PI)),
    )
}

/// How far `t` is from the places where the general formula divides by zero.
pub open spec fn rrc_gap<M: Arithmetic>(t: M::Real, beta: M::Real) -> Formula<M> {
    Formula::Given(t).magnitude().minus(
        Formula::Given(M::ONE).over(Formula::Fraction(4, 1).times(Formula::Given(beta))),
    ).magnitude()
}

/// The impulse at these places.
pub open spec fn rrc_limit<M: Arithmetic>(beta: M::Real) -> Formula<M> {
    let b = Formula::Given(beta);
    let one = Formula::Given(M::ONE);
    let part = Formula::Fraction(2, 1).over(Formula::Given(M::PI));
    let k = Formula::Given(M::PI).over(Formula::Fraction(4, 1).times(b));
    b.over(Formula::Given(M::ROOT_TWO)).times(
        one.plus(part).times(k.sine()).plus(one.minus(part).times(k.cosine())),
    )
}

/// The impulse everywhere else.
pub open spec fn rrc_general<M: Arithmetic>(t: M::Real, beta: M::Real) -> Formula<M> {
    let b = Formula::Given(beta);
    let one = Formula::Given(M::ONE);
    let pi_t = Formula::Given(M::PI).times(Formula::Given(t));
    let four_bt = Formula::Fraction(4, 1).times(b).times(Formula::Given(t));
    let num = one.minus(b).times(pi_t).sine().plus(
        four_bt.times(one.plus(b).times(pi_t).cosine()),
    );
    num.over(pi_t.times(one.minus(four_bt.square())))
}

/// `h` is the root-raised-cosine impulse with roll-off `beta`, `t` symbols from its peak.
pub open spec fn rrc_value<M: Arithmetic>(t: M::Real, beta: M::Real, h: M::Real) -> bool {
    exists|eps: M::Real|
        {
            &&& #[trigger] call_ensures(M::fraction, (1, 1_000_000), eps)
            &&& {
                ||| {
                    &&& tells_below::<M>(Formula::Given(t).magnitude(), eps, true)
                    &&& rrc_peak::<M>(beta).yields(h)
                }
                ||| {
                    &&& tells_below::<M>(Formula::Given(t).magnitude(), eps, false)
                    &&& tells_below::<M>(rrc_gap::<M>(t, beta), eps, true)
                    &&& rrc_limit::<M>(beta).yields(h)
                }
                ||| {
                    &&& tells_below::<M>(Formula::Given(t).magnitude(), eps, false)
                    &&& tells_below::<M>(rrc_gap::<M>(t, beta), eps, false)
                    &&& rrc_general::<M>(t, beta).yields(h)
                }
            }
        }
}

/// The root-raised-cosine impulse with roll-off `beta`, `t` symbols from its peak.
fn rrc_impulse<M: Arithmetic>(t: M::Real, beta: M::Real) -> (h: M::Real)
    ensures
        rrc_value::<M>(t, beta, h),
{
    let eps = M::fraction(1, 1_000_000);
    assert(call_ensures(M::fraction, (1, 1_000_000), eps));
    let b = Term::<M>::given(beta);
    let one = Term::<M>::given(M::ONE);
    let pi = Term::<M>::given(M::PI);
    let at = Term::<M>::given(t);
    if at.magnitude().is_below(eps) {
        return one.minus(b).plus(Term::fraction(4, 1).times(b).over(pi)).value;
    }
    let gap = at.magnitude().minus(one.over(Term::fraction(4, 1).times(b))).magnitude();
    if gap.is_below(eps) {
        let part = Term::fraction(2, 1).over(pi);
        let k = pi.over(Term::fraction(4, 1).times(b));
        let sides = one.plus(part).times(k.sine()).plus(one.minus(part).times(k.cosine()));
        return b.over(Term::given(M::ROOT_TWO)).times(sides).value;
    }
    let pi_t = pi.times(at);
    let four_bt = Term::fraction(4, 1).times(b).times(at);
    let num = one.minus(b).times(pi_t).sine().plus(
        four_bt.times(one.plus(b).times(pi_t).cosine()),
    );
    num.over(pi_t.times(one.minus(four_bt.square()))).value
}

/// Where tap `i` of `n_taps` lies, in symbols from the middle, with `sps` taps a symbol.
pub open spec fn tap_position<M: Arithmetic>(i: usize, n_taps: usize, sps: usize) -> Formula<M> {
    Formula::Count(i).minus(
        Formula::Count((n_taps - 1) as usize).over(Formula::Fraction(2, 1)),
    ).over(Formula::Count(sps))
}

/// `h` is the impulse at tap `i` of `n_taps`.
pub open spec fn rrc_tap<M: Arithmetic>(
    i: usize,
    n_taps: usize,
    sps: usize,
    beta: M::Real,
    h: M::Real,
) -> bool {
    exists|t: M::Real|
        tap_position::<M>(i, n_taps, sps).yields(t) && #[trigger] rrc_value::<M>(t, beta, h)
}

/// `raw` is the root-raised-cosine impulse on `sps * span + 1` taps.
pub open spec fn impulse<M: Arithmetic>(
    sps: usize,
    span: usize,
    beta: M::Real,
    raw: Seq<M::Real>,
) -> bool {
    &&& raw.len() == sps * span + 1
    &&& forall|i: int|
        0 <= i < raw.len() ==> rrc_tap::<M>(
            i as usize,
            (sps * span + 1) as usize,
            sps,
            beta,
            #[trigger] raw[i],
        )
}

/// `taps` is a root-raised-cosine filter of unit energy.
pub open spec fn rrc_filter<M: Arithmetic>(
    sps: usize,
    span: usize,
    beta: M::Real,
    taps: Seq<M::Real>,
) -> bool {
    exists|raw: Seq<M::Real>, energy: M::Real, norm: M::Real|
        impulse::<M>(sps, span, beta, raw) && #[trigger] unit_energy::<M>(raw, energy, norm, taps)
}

/// Root-raised-cosine filter taps. Length = sps * span + 1.
/// Taps are normalized to unit energy; pairing two of these (matched filter) gives unit peak
/// gain at the symbol instant.
pub fn rrc_taps<M: Arithmetic>(sps: usize, span: usize, beta: M::Real) -> (taps: Vec<M::Real>)
    requires
        sps * span < usize::MAX,
    ensures
        taps@.len() == sps * span + 1,
        rrc_filter::<M>(sps, span, beta, taps@),
{
    let n: usize = sps * span + 1;
    let mut raw: Vec<M::Real> = Vec::with_capacity(n);
    let mut i: usize = 0;
    while i < n
        invariant
            i <= n == sps * span + 1,
            raw@.len() == i,
            forall|k: int|
                0 <= k < i ==> rrc_tap::<M>(k as usize, n, sps, beta, #[trigger] raw@[k]),
        decreases n - i,
    {
        let t = Term::<M>::count(i).minus(Term::count(n - 1).over(Term::fraction(2, 1))).over(
            Term::count(sps),
        ).value;
        raw.push(rrc_impulse::<M>(t, beta));
        i = i + 1;
    }
    let energy = sum_of_squares::<M>(raw.as_slice());
    let norm = M::root(energy);
    let mut taps: Vec<M::Real> = Vec::with_capacity(n);
    let mut j: usize = 0;
    while j < n
        invariant
            j <= n == raw@.len(),
            taps@.len() == j,
            forall|k: int|
                0 <= k < j ==> call_ensures(M::over, (raw@[k], norm), #[trigger] taps@[k]),
        decreases n - j,
    {
        taps.push(M::over(raw[j], norm));
        j = j + 1;
    }
    assert(impulse::<M>(sps, span, beta, raw@));
    assert(unit_energy::<M>(raw@, energy, norm, taps@));
    taps
}

/// Symbol `s` adds its share to output `m`: its product with the tap that it meets there, if it
/// meets one.
pub open spec fn shaping_step<M: Arithmetic>(
    symbols: Seq<M::Symbol>,
    sps: int,
    taps: Seq<M::Real>,
    m: int,
) -> spec_fn(int, M::Symbol, M::Symbol) -> bool {
    |s: int, a: M::Symbol, b: M::Symbol|
        if 0 <= m - s * sps < taps.len() {
            adds_tap::<M>(a, symbols[s], taps[m - s * sps], b)
        } else {
            b == a
        }
}

/// `out` is the pulse train of `symbols`, `sps` samples apart, each shaped by `taps`.
pub open spec fn pulse_train<M: Arithmetic>(
    symbols: Seq<M::Symbol>,
    sps: int,
    taps: Seq<M::Real>,
    out: Seq<M::Symbol>,
) -> bool {
    &&& out.len() == symbols.len() * sps + taps.len() - 1
    &&& forall|m: int|
        0 <= m < out.len() ==> reached(
            shaping_step::<M>(symbols, sps, taps, m),
            symbols.len(),
            M::ORIGIN,
            #[trigger] out[m],
        )
}

/// Upsample symbols by `sps` (insert zeros) then convolve with `taps`.
/// Output length = symbols.len() * sps + taps.len() - 1.
///
/// Only every `sps`-th sample of the upsampled signal is nonzero, so each symbol visits only the
/// outputs that its pulse covers.
pub fn upsample_and_filter<M: Arithmetic>(
    symbols: &[M::Symbol],
    sps: usize,
    taps: &[M::Real],
) -> (out: Vec<M::Symbol>)
    requires
        1 <= symbols@.len() * sps + taps@.len() <= usize::MAX,
        sps > 0 || symbols@.len() == 0,
    ensures
        pulse_train::<M>(symbols@, sps as int, taps@, out@),
{
    let len: usize = symbols.len() * sps + taps.len() - 1;
    let mut out: Vec<M::Symbol> = filled(M::ORIGIN, len);
    proof {
        assert forall|m: int| 0 <= m < len implies reached(
            shaping_step::<M>(symbols@, sps as int, taps@, m),
            0,
            M::ORIGIN,
            #[trigger] out@[m],
        ) by {
            lemma_reached_none(
                shaping_step::<M>(symbols@, sps as int, taps@, m),
                M::ORIGIN,
            );
        }
    }
    let mut s: usize = 0;
    while s < symbols.len()
        invariant
            s <= symbols@.len(),
            sps > 0 || symbols@.len() == 0,
            out@.len() == len == symbols@.len() * sps + taps@.len() - 1,
            symbols@.len() * sps + taps@.len() <= usize::MAX,
            forall|m: int|
                0 <= m < len ==> reached(
                    shaping_step::<M>(symbols@, sps as int, taps@, m),
                    s as nat,
                    M::ORIGIN,
                    #[trigger] out@[m],
                ),
        decreases symbols@.len() - s,
    {
        let sym = symbols[s];
        assert(s * sps + sps <= symbols@.len() * sps) by (nonlinear_arith)
            requires
                s + 1 <= symbols@.len(),
        ;
        let n: usize = s * sps;
        let mut j: usize = 0;
        while j < taps.len()
            invariant
                j <= taps@.len(),
                s < symbols@.len(),
                sps > 0,
                sym == symbols@[s as int],
                n == s * sps,
                n + sps + taps@.len() - 1 <= len <= usize::MAX,
                out@.len() == len,
                forall|m: int|
                    0 <= m < len ==> reached(
                        shaping_step::<M>(symbols@, sps as int, taps@, m),
                        if n <= m < n + j {
                            s as nat + 1
                        } else {
                            s as nat
                        },
                        M::ORIGIN,
                        #[trigger] out@[m],
                    ),
            decreases taps@.len() - j,
        {
            let before = out[n + j];
            let after = add_tap::<M>(before, sym, taps[j]);
            proof {
                let step = shaping_step::<M>(symbols@, sps as int, taps@, n + j);
                assert(step(s as int, before, after));
                lemma_reached_next(step, s as nat, M::ORIGIN, before, after);
            }
            out.set(n + j, after);
            j = j + 1;
        }
        proof {
            assert forall|m: int| 0 <= m < len implies reached(
                shaping_step::<M>(symbols@, sps as int, taps@, m),
                (s + 1) as nat,
                M::ORIGIN,
                #[trigger] out@[m],
            ) by {
                if !(n <= m < n + taps@.len()) {
                    let step = shaping_step::<M>(symbols@, sps as int, taps@, m);
                    assert(step(s as int, out@[m], out@[m]));
                    lemma_reached_next(step, s as nat, M::ORIGIN, out@[m], out@[m]);
                }
            }
        }
        s = s + 1;
    }
    out
}

/// Input `i` adds its share to output `m`: its product with the tap that it meets there, if it
/// meets one.
pub open spec fn filter_step<M: Arithmetic>(
    x: Seq<M::Symbol>,
    h: Seq<M::Real>,
    m: int,
) -> spec_fn(int, M::Symbol, M::Symbol) -> bool {
    |i: int, a: M::Symbol, b: M::Symbol|
        if 0 <= m - i < h.len() {
            adds_tap::<M>(a, x[i], h[m - i], b)
        } else {
            b == a
        }
}

/// `y` is the convolution of `x` and `h`.
pub open spec fn convolution<M: Arithmetic>(
    x: Seq<M::Symbol>,
    h: Seq<M::Real>,
    y: Seq<M::Symbol>,
) -> bool {
    &&& y.len() == x.len() + h.len() - 1
    &&& forall|m: int|
        0 <= m < y.len() ==> reached(
            filter_step::<M>(x, h, m),
            x.len(),
            M::ORIGIN,
            #[trigger] y[m],
        )
}

/// Convolve a complex signal with a real FIR filter. Output length = x.len() + h.len() - 1.
pub fn convolve<M: Arithmetic>(x: &[M::Symbol], h: &[M::Real]) -> (y: Vec<M::Symbol>)
    requires
        1 <= x@.len() + h@.len() <= usize::MAX,
    ensures
        convolution::<M>(x@, h@, y@),
{
    let len: usize = x.len() + h.len() - 1;
    let mut y: Vec<M::Symbol> = filled(M::ORIGIN, len);
    proof {
        assert forall|m: int| 0 <= m < len implies reached(
            filter_step::<M>(x@, h@, m),
            0,
            M::ORIGIN,
            #[trigger] y@[m],
        ) by {
            lemma_reached_none(filter_step::<M>(x@, h@, m), M::ORIGIN);
        }
    }
    let mut i: usize = 0;
    while i < x.len()
        invariant
            i <= x@.len(),
            y@.len() == len == x@.len() + h@.len() - 1,
            x@.len() + h@.len() <= usize::MAX,
            forall|m: int|
                0 <= m < len ==> reached(
                    filter_step::<M>(x@, h@, m),
                    i as nat,
                    M::ORIGIN,
                    #[trigger] y@[m],
                ),
        decreases x@.len() - i,
    {
        let mut j: usize = 0;
        while j < h.len()
            invariant
                j <= h@.len(),
                i < x@.len(),
                y@.len() == len == x@.len() + h@.len() - 1,
                x@.len() + h@.len() <= usize::MAX,
                forall|m: int|
                    0 <= m < len ==> reached(
                        filter_step::<M>(x@, h@, m),
                        if i <= m < i + j {
                            i as nat + 1
                        } else {
                            i as nat
                        },
                        M::ORIGIN,
                        #[trigger] y@[m],
                    ),
            decreases h@.len() - j,
        {
            let before = y[i + j];
            let after = add_tap::<M>(before, x[i], h[j]);
            proof {
                let step = filter_step::<M>(x@, h@, i + j);
                assert(step(i as int, before, after));
                lemma_reached_next(step, i as nat, M::ORIGIN, before, after);
            }
            y.set(i + j, after);
            j = j + 1;
        }
        proof {
            assert forall|m: int| 0 <= m < len implies reached(
                filter_step::<M>(x@, h@, m),
                (i + 1) as nat,
                M::ORIGIN,
                #[trigger] y@[m],
            ) by {
                if !(i <= m < i + h@.len()) {
                    let step = filter_step::<M>(x@, h@, m);
                    assert(step(i as int, y@[m], y@[m]));
                    lemma_reached_next(step, i as nat, M::ORIGIN, y@[m], y@[m]);
                }
            }
        }
        i = i + 1;
    }
    y
}

/// Convolving is shaping pulses that are one sample apart.
pub proof fn law_convolution_is_a_pulse_train<M: Arithmetic>(
    x: Seq<M::Symbol>,
    h: Seq<M::Real>,
    y: Seq<M::Symbol>,
)
    ensures
        convolution::<M>(x, h, y) == pulse_train::<M>(x, 1, h, y),
{
    assert forall|m: int| #[trigger] filter_step::<M>(x, h, m) == shaping_step::<M>(x, 1, h, m) by {
        assert(filter_step::<M>(x, h, m) =~= shaping_step::<M>(x, 1, h, m));
    }
    assert forall|m: int| #[trigger] shaping_step::<M>(x, 1, h, m) == filter_step::<M>(x, h, m) by {
        assert(filter_step::<M>(x, h, m) == shaping_step::<M>(x, 1, h, m));
    }
}

/// Convolving a single one with `h` gives each tap of `h`, on its own.
pub proof fn law_unit_impulse_gives_the_taps<M: Arithmetic>(
    h: Seq<M::Real>,
    y: Seq<M::Symbol>,
    m: int,
)
    requires
        convolution::<M>(seq![M::SPACE], h, y),
        0 <= m < h.len(),
    ensures
        y.len() == h.len(),
        adds_tap::<M>(M::ORIGIN, M::SPACE, h[m], y[m]),
{
    let step = filter_step::<M>(seq![M::SPACE], h, m);
    assert(reached(step, 1, M::ORIGIN, y[m]));
    lemma_reached_once(step, M::ORIGIN, y[m]);
}

/// Convolving a single one with `h` gives `h` on the real axis, in every number system in which
/// zero plus one times each tap is the tap.
pub proof fn law_unit_impulse_returns_the_filter<M: Arithmetic>(
    h: Seq<M::Real>,
    lifted: Seq<M::Symbol>,
    y: Seq<M::Symbol>,
)
    requires
        convolution::<M>(seq![M::SPACE], h, y),
        lifted.len() == h.len(),
        forall|m: int|
            0 <= m < h.len() ==> call_ensures(M::symbol, (h[m], M::ZERO), #[trigger] lifted[m]),
        forall|m: int, r: M::Symbol, s: M::Symbol|
            0 <= m < h.len() && #[trigger] adds_tap::<M>(M::ORIGIN, M::SPACE, h[m], r)
                && #[trigger] call_ensures(M::symbol, (h[m], M::ZERO), s) ==> r == s,
    ensures
        y == lifted,
{
    assert(y.len() == h.len());
    assert forall|m: int| 0 <= m < y.len() implies y[m] == lifted[m] by {
        law_unit_impulse_gives_the_taps::<M>(h, y, m);
        assert(call_ensures(M::symbol, (h[m], M::ZERO), lifted[m]));
    }
    assert(y =~= lifted);
}

} // verus!
