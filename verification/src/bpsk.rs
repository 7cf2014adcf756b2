//! Bits as symbols: binary phase-shift keying.

use vstd::prelude::*;

use crate::arith::Arithmetic;

verus! {

/// The symbol for bit `b`.
pub open spec fn symbol_of<M: Arithmetic>(b: u8) -> M::Symbol {
    if b == 0 {
        M::SPACE
    } else {
        M::MARK
    }
}

/// The symbols for `bits`.
pub open spec fn modulated<M: Arithmetic>(bits: Seq<u8>) -> Seq<M::Symbol> {
    bits.map_values(|b: u8| symbol_of::<M>(b))
}

/// Slicing `s` may give bit `b`: 0 if the real part of `s` is found above zero, otherwise 1.
pub open spec fn sliced<M: Arithmetic>(s: M::Symbol, b: u8) -> bool {
    exists|re: M::Real|
        {
            &&& #[trigger] call_ensures(M::real_part, (s,), re)
            &&& b == 0 && call_ensures(M::exceeds, (re, M::ZERO), true) || b == 1 && call_ensures(
                M::exceeds,
                (re, M::ZERO),
                false,
            )
        }
}

/// Slicing `symbols` one by one may give `bits`.
pub open spec fn demodulated<M: Arithmetic>(symbols: Seq<M::Symbol>, bits: Seq<u8>) -> bool {
    &&& bits.len() == symbols.len()
    &&& forall|i: int| 0 <= i < bits.len() ==> sliced::<M>(symbols[i], #[trigger] bits[i])
}

/// Coherent BPSK modulation. Bit 0 goes to +1, bit 1 to -1. Symbols are real.
///
/// Coherent (not differential) BPSK, because the decision-feedback equalizer needs an absolute
/// phase reference. The receiver recovers that from the training preamble.
pub fn modulate<M: Arithmetic>(bits: &[u8]) -> (symbols: Vec<M::Symbol>)
    ensures
        symbols@ == modulated::<M>(bits@),
{
    let mut symbols: Vec<M::Symbol> = Vec::with_capacity(bits.len());
    let mut i: usize = 0;
    while i < bits.len()
        invariant
            i <= bits@.len(),
            symbols@.len() == i,
            forall|k: int| 0 <= k < i ==> symbols@[k] == symbol_of::<M>(bits@[k]),
        decreases bits@.len() - i,
    {
        symbols.push(
            if bits[i] == 0 {
                M::SPACE
            } else {
                M::MARK
            },
        );
        i = i + 1;
    }
    assert(symbols@ =~= modulated::<M>(bits@));
    symbols
}

/// Coherent BPSK slicer: 0 for a symbol whose real part is above zero, otherwise 1.
pub fn slice_symbol<M: Arithmetic>(s: M::Symbol) -> (b: u8)
    ensures
        sliced::<M>(s, b),
        b <= 1,
{
    let re = M::real_part(s);
    assert(call_ensures(M::real_part, (s,), re));
    if M::exceeds(re, M::ZERO) {
        0
    } else {
        1
    }
}

/// Slices every symbol.
pub fn demodulate<M: Arithmetic>(symbols: &[M::Symbol]) -> (bits: Vec<u8>)
    ensures
        demodulated::<M>(symbols@, bits@),
{
    let mut bits: Vec<u8> = Vec::with_capacity(symbols.len());
    let mut i: usize = 0;
    while i < symbols.len()
        invariant
            i <= symbols@.len(),
            bits@.len() == i,
            forall|k: int| 0 <= k < i ==> sliced::<M>(symbols@[k], #[trigger] bits@[k]),
        decreases symbols@.len() - i,
    {
        bits.push(slice_symbol::<M>(symbols[i]));
        i = i + 1;
    }
    bits
}

/// The slicer tells the two symbols apart.
pub open spec fn tells_apart<M: Arithmetic>() -> bool {
    &&& forall|b: u8| sliced::<M>(M::SPACE, b) ==> b == 0
    &&& forall|b: u8| sliced::<M>(M::MARK, b) ==> b == 1
}

/// Demodulating what was modulated gives the bits, in every number system whose slicer tells the
/// two symbols apart.
pub proof fn law_bpsk_roundtrip<M: Arithmetic>(bits: Seq<u8>, out: Seq<u8>)
    requires
        tells_apart::<M>(),
        forall|i: int| 0 <= i < bits.len() ==> #[trigger] bits[i] <= 1,
        demodulated::<M>(modulated::<M>(bits), out),
    ensures
        out == bits,
{
    assert forall|i: int| 0 <= i < bits.len() implies out[i] == bits[i] by {
        assert(sliced::<M>(modulated::<M>(bits)[i], out[i]));
        assert(bits[i] <= 1);
    }
    assert(out =~= bits);
}

/// Every bit that comes out of the slicer is a zero or a one, and there is one for each symbol.
pub proof fn law_demodulated_is_binary<M: Arithmetic>(symbols: Seq<M::Symbol>, bits: Seq<u8>)
    requires
        demodulated::<M>(symbols, bits),
    ensures
        bits.len() == symbols.len(),
        forall|i: int| 0 <= i < bits.len() ==> #[trigger] bits[i] <= 1,
{
    assert forall|i: int| 0 <= i < bits.len() implies #[trigger] bits[i] <= 1 by {
        assert(sliced::<M>(symbols[i], bits[i]));
    }
}

/// `r` is `s * g`.
pub open spec fn is_scaled<M: Arithmetic>(s: M::Symbol, g: M::Real, r: M::Symbol) -> bool {
    call_ensures(M::scaled, (s, g), r)
}

/// Scaling `s` by `g` leaves its real part on the same side of zero.
pub open spec fn keeps_side<M: Arithmetic>(s: M::Symbol, g: M::Real) -> bool {
    forall|r: M::Symbol, x: M::Real, y: M::Real, p: bool, q: bool|
        #[trigger] is_scaled::<M>(s, g, r) && call_ensures(M::real_part, (s,), x) && call_ensures(
            M::real_part,
            (r,),
            y,
        ) && #[trigger] call_ensures(M::exceeds, (x, M::ZERO), p) && #[trigger] call_ensures(
            M::exceeds,
            (y, M::ZERO),
            q,
        ) ==> p == q
}

/// Every symbol of `out` is one of `symbols`, scaled by `g`.
pub open spec fn all_scaled<M: Arithmetic>(
    symbols: Seq<M::Symbol>,
    g: M::Real,
    out: Seq<M::Symbol>,
) -> bool {
    &&& out.len() == symbols.len()
    &&& forall|i: int| 0 <= i < out.len() ==> is_scaled::<M>(symbols[i], g, #[trigger] out[i])
}

/// A gain that leaves every symbol on its side changes no demodulated bit.
pub proof fn law_gain_changes_no_bit<M: Arithmetic>(
    symbols: Seq<M::Symbol>,
    g: M::Real,
    louder: Seq<M::Symbol>,
    bits: Seq<u8>,
    out: Seq<u8>,
)
    requires
        all_scaled::<M>(symbols, g, louder),
        forall|i: int| 0 <= i < symbols.len() ==> keeps_side::<M>(#[trigger] symbols[i], g),
        demodulated::<M>(symbols, bits),
        demodulated::<M>(louder, out),
    ensures
        out == bits,
{
    assert forall|i: int| 0 <= i < bits.len() implies out[i] == bits[i] by {
        assert(sliced::<M>(symbols[i], bits[i]) && sliced::<M>(louder[i], out[i]));
        assert(is_scaled::<M>(symbols[i], g, louder[i]));
        assert(keeps_side::<M>(symbols[i], g));
    }
    assert(out =~= bits);
}

/// Bits survive modulation, a gain that leaves both symbols on their sides, and demodulation.
pub proof fn law_bpsk_roundtrip_survives_gain<M: Arithmetic>(
    bits: Seq<u8>,
    g: M::Real,
    louder: Seq<M::Symbol>,
    plain: Seq<u8>,
    out: Seq<u8>,
)
    requires
        tells_apart::<M>(),
        keeps_side::<M>(M::SPACE, g),
        keeps_side::<M>(M::MARK, g),
        forall|i: int| 0 <= i < bits.len() ==> #[trigger] bits[i] <= 1,
        all_scaled::<M>(modulated::<M>(bits), g, louder),
        demodulated::<M>(modulated::<M>(bits), plain),
        demodulated::<M>(louder, out),
    ensures
        plain == bits,
        out == bits,
{
    law_bpsk_roundtrip::<M>(bits, plain);
    law_gain_changes_no_bit::<M>(modulated::<M>(bits), g, louder, plain, out);
}

} // verus!
