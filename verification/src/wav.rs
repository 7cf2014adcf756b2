//! Samples as integers, and channels of interleaved samples.

use vstd::arithmetic::power2::pow2;
use vstd::prelude::*;

use crate::arith::{clamp, clamped, Arithmetic};
use crate::formula::{Formula, Term};
use crate::order::compares_by;

verus! {

/// How many frames of `channels` values `n` values make, the last one perhaps incomplete.
pub open spec fn frames_in(n: int, channels: int) -> int {
    (n + channels - 1) / channels
}

/// The first value of each frame of `channels` values.
pub open spec fn first_of_each<T>(data: Seq<T>, channels: int) -> Seq<T> {
    Seq::new(frames_in(data.len() as int, channels) as nat, |i: int| data[i * channels])
}

/// The first channel of interleaved `data`; of an incomplete frame at the end, too.
pub fn first_channel<T: Copy>(data: &[T], channels: usize) -> (out: Vec<T>)
    requires
        channels > 0,
    ensures
        out@ == first_of_each(data@, channels as int),
{
    let n: usize = data.len();
    let mut out: Vec<T> = Vec::new();
    if n == 0 {
        assert(frames_in(0, channels as int) == 0) by (nonlinear_arith)
            requires
                channels > 0,
                frames_in(0, channels as int) == (0 + channels - 1) / (channels as int),
        ;
        assert(out@ =~= first_of_each(data@, channels as int));
        return out;
    }
    let mut at: usize = 0;
    assert(out@.len() * channels == 0) by (nonlinear_arith)
        requires
            out@.len() == 0,
    ;
    loop
        invariant_except_break
            channels > 0,
            n == data@.len(),
            at < n,
            at == out@.len() * channels,
            forall|k: int|
                0 <= k < out@.len() ==> #[trigger] out@[k] == data@[k * (channels as int)],
        ensures
            n == data@.len(),
            forall|k: int|
                0 <= k < out@.len() ==> #[trigger] out@[k] == data@[k * (channels as int)],
            out@.len() == frames_in(n as int, channels as int),
        decreases n - at,
    {
        let ghost k = out@.len();
        out.push(data[at]);
        if n - at <= channels {
            proof {
                assert(k + 1 == (n + channels - 1) / (channels as int)) by (nonlinear_arith)
                    requires
                        channels > 0,
                        at == k * channels,
                        at < n <= at + channels,
                ;
            }
            break;
        }
        proof {
            assert((k + 1) * channels == k * channels + channels) by (nonlinear_arith);
        }
        at = at + channels;
    }
    assert(out@ =~= first_of_each(data@, channels as int));
    out
}

/// A mono signal is its own first channel.
pub proof fn law_mono_is_its_first_channel<T>(data: Seq<T>)
    ensures
        first_of_each(data, 1) == data,
{
    assert(first_of_each(data, 1) =~= data);
}

/// The largest integer sample of `bits` bits.
pub fn full_scale(bits: u16) -> (v: u64)
    requires
        1 <= bits <= 64,
    ensures
        v == pow2((bits - 1) as nat) - 1,
{
    let shift: u64 = (bits - 1) as u64;
    proof {
        vstd::arithmetic::power2::lemma_pow2_pos(shift as nat);
        if shift < 63 {
            vstd::arithmetic::power2::lemma_pow2_strictly_increases(shift as nat, 63);
        }
        assert(pow2(63) == 0x8000_0000_0000_0000) by {
            vstd::arithmetic::power2::lemma2_to64_rest();
        }
        vstd::bits::lemma_u64_shl_is_mul(1u64, shift);
    }
    (1u64 << shift) - 1
}

/// `v` is the 16-bit sample for `s`: rounded in units of the largest sample, and brought into the
/// range of samples.
pub open spec fn quantized<M: Arithmetic>(s: M::Real, v: i16) -> bool {
    exists|x: M::Real, lo: M::Real, hi: M::Real, y: M::Real|
        {
            &&& Formula::<M>::Given(s).times(Formula::Offset(i16::MAX as i32)).rounded().yields(x)
            &&& call_ensures(M::offset, (i16::MIN as i32,), lo)
            &&& call_ensures(M::offset, (i16::MAX as i32,), hi)
            &&& #[trigger] clamped::<M>(x, lo, hi, y)
            &&& call_ensures(M::sample, (y,), v)
        }
}

fn quantize<M: Arithmetic>(s: M::Real) -> (v: i16)
    ensures
        quantized::<M>(s, v),
{
    let x = Term::<M>::given(s).times(Term::offset(i16::MAX as i32)).rounded().value;
    let lo = M::offset(i16::MIN as i32);
    let hi = M::offset(i16::MAX as i32);
    let y = clamp::<M>(x, lo, hi);
    M::sample(y)
}

/// The integer sample `v` as a part of `full_scale`.
pub open spec fn part_of_scale<M: Arithmetic>(v: i32, full_scale: u64) -> Formula<M> {
    Formula::Offset(v).times(Formula::Given(M::ONE).over(Formula::Fraction(full_scale, 1)))
}

/// Mono samples as 16-bit PCM. Samples should be in roughly -1 to 1; out-of-range values are
/// clamped.
pub fn to_pcm<M: Arithmetic>(samples: &[M::Real]) -> (pcm: Vec<i16>)
    ensures
        pcm@.len() == samples@.len(),
        forall|i: int|
            0 <= i < pcm@.len() ==> quantized::<M>(samples@[i], #[trigger] pcm@[i]),
{
    let mut pcm: Vec<i16> = Vec::with_capacity(samples.len());
    let mut i: usize = 0;
    while i < samples.len()
        invariant
            i <= samples@.len(),
            pcm@.len() == i,
            forall|k: int|
                0 <= k < i ==> quantized::<M>(samples@[k], #[trigger] pcm@[k]),
        decreases samples@.len() - i,
    {
        pcm.push(quantize::<M>(samples[i]));
        i = i + 1;
    }
    pcm
}

/// `r` is `x` brought into the range from -1 to 1.
pub open spec fn limited<M: Arithmetic>(x: M::Real, r: M::Real) -> bool {
    exists|low: M::Real|
        call_ensures(M::negated, (M::ONE,), low) && #[trigger] clamped::<M>(x, low, M::ONE, r)
}

fn limit<M: Arithmetic>(x: M::Real) -> (r: M::Real)
    ensures
        limited::<M>(x, r),
{
    let low = M::negated(M::ONE);
    clamp::<M>(x, low, M::ONE)
}

/// `r` is the integer sample `v` as a part of `full_scale`, in the range from -1 to 1. The most
/// negative sample, which has no positive counterpart, comes out as -1.
pub open spec fn unquantized<M: Arithmetic>(v: i32, full_scale: u64, r: M::Real) -> bool {
    exists|x: M::Real|
        part_of_scale::<M>(v, full_scale).yields(x) && #[trigger] limited::<M>(x, r)
}

/// The first channel of interleaved integer samples of `bits` bits, as parts of full scale, in
/// the range from -1 to 1.
pub fn from_pcm<M: Arithmetic>(interleaved: &[i32], channels: usize, bits: u16) -> (samples: Vec<
    M::Real,
>)
    requires
        channels > 0,
        1 <= bits <= 64,
    ensures
        samples@.len() == frames_in(interleaved@.len() as int, channels as int),
        forall|i: int|
            0 <= i < samples@.len() ==> unquantized::<M>(
                first_of_each(interleaved@, channels as int)[i],
                (pow2((bits - 1) as nat) - 1) as u64,
                #[trigger] samples@[i],
            ),
{
    let scale: u64 = full_scale(bits);
    let mono = first_channel(interleaved, channels);
    let mut samples: Vec<M::Real> = Vec::with_capacity(mono.len());
    let mut i: usize = 0;
    while i < mono.len()
        invariant
            i <= mono@.len(),
            mono@ == first_of_each(interleaved@, channels as int),
            scale == pow2((bits - 1) as nat) - 1,
            samples@.len() == i,
            forall|k: int|
                0 <= k < i ==> unquantized::<M>(mono@[k], scale, #[trigger] samples@[k]),
        decreases mono@.len() - i,
    {
        let unit = Term::<M>::given(M::ONE).over(Term::fraction(scale, 1));
        let x = Term::offset(mono[i]).times(unit).value;
        samples.push(limit::<M>(x));
        i = i + 1;
    }
    samples
}

/// The first channel of interleaved real samples, in the range from -1 to 1.
pub fn from_reals<M: Arithmetic>(interleaved: &[M::Real], channels: usize) -> (samples: Vec<
    M::Real,
>)
    requires
        channels > 0,
    ensures
        samples@.len() == frames_in(interleaved@.len() as int, channels as int),
        forall|i: int|
            0 <= i < samples@.len() ==> limited::<M>(
                first_of_each(interleaved@, channels as int)[i],
                #[trigger] samples@[i],
            ),
{
    let mono = first_channel(interleaved, channels);
    let mut samples: Vec<M::Real> = Vec::with_capacity(mono.len());
    let mut i: usize = 0;
    while i < mono.len()
        invariant
            i <= mono@.len(),
            samples@.len() == i,
            forall|k: int| 0 <= k < i ==> limited::<M>(mono@[k], #[trigger] samples@[k]),
        decreases mono@.len() - i,
    {
        samples.push(limit::<M>(mono[i]));
        i = i + 1;
    }
    samples
}

/// What is limited lies between -1 and 1, in every number system that compares by an order in
/// which -1 is not above 1: no bound is passed on either side.
pub proof fn law_samples_stay_in_range<M: Arithmetic>(
    less: spec_fn(M::Real, M::Real) -> bool,
    x: M::Real,
    r: M::Real,
)
    requires
        compares_by::<M>(less),
        forall|a: M::Real, b: M::Real, p: bool| #[trigger]
            call_ensures(M::below, (a, b), p) ==> p == less(a, b),
        !less(M::ONE, M::ONE),
        forall|low: M::Real| #[trigger]
            call_ensures(M::negated, (M::ONE,), low) ==> !less(low, low) && !less(M::ONE, low),
        limited::<M>(x, r),
    ensures
        !less(M::ONE, r),
        exists|low: M::Real| #[trigger]
            call_ensures(M::negated, (M::ONE,), low) && !less(r, low),
{
    let low = choose|low: M::Real|
        call_ensures(M::negated, (M::ONE,), low) && #[trigger] clamped::<M>(x, low, M::ONE, r);
    assert(call_ensures(M::negated, (M::ONE,), low));
}

} // verus!
