//! Live playback: what goes into the buffers of an output device.

use vstd::prelude::*;

verus! {

/// The sample at `at`, or silence after the end.
pub open spec fn sound<T>(samples: Seq<T>, at: int, silence: T) -> T {
    if at < samples.len() {
        samples[at]
    } else {
        silence
    }
}

/// What a device buffer holds once it was filled from sample `position` on: every channel of a
/// frame gets the same sample, and an incomplete frame at the end is left as it was.
pub open spec fn filled_from<T>(
    samples: Seq<T>,
    position: int,
    before: Seq<T>,
    channels: int,
    silence: T,
) -> Seq<T> {
    Seq::new(
        before.len(),
        |p: int|
            if p < before.len() / channels as nat * channels {
                sound(samples, position + p / channels, silence)
            } else {
                before[p]
            },
    )
}

/// Fills a device buffer from sample `position` on. Returns the next position and whether all
/// samples are out.
pub fn fill_output<T: Copy>(
    samples: &[T],
    position: usize,
    data: &mut [T],
    channels: usize,
    silence: T,
) -> (r: (usize, bool))
    requires
        channels > 0,
        position + old(data)@.len() / channels as nat <= usize::MAX,
    ensures
        final(data)@ == filled_from(
            samples@,
            position as int,
            old(data)@,
            channels as int,
            silence,
        ),
        r.0 == position + old(data)@.len() / channels as nat,
        r.1 == (r.0 >= samples@.len()),
{
    let ghost before = data@;
    let n: usize = data.len();
    let frames: usize = n / channels;
    assert(frames * channels <= n) by (nonlinear_arith)
        requires
            channels > 0,
            frames == n as int / channels as int,
    ;
    let mut i: usize = 0;
    while i < frames
        invariant
            i <= frames,
            channels > 0,
            frames * channels <= n == before.len(),
            position + frames <= usize::MAX,
            data@.len() == n,
            forall|p: int|
                0 <= p < i * channels ==> #[trigger] data@[p] == sound(
                    samples@,
                    position + p / channels as int,
                    silence,
                ),
            forall|p: int| i * channels <= p < n ==> #[trigger] data@[p] == before[p],
        decreases frames - i,
    {
        let s = if position + i < samples.len() {
            samples[position + i]
        } else {
            silence
        };
        assert(i * channels + channels == (i + 1) * channels && (i + 1) * channels <= frames
            * channels) by (nonlinear_arith)
            requires
                i + 1 <= frames,
                channels > 0,
        ;
        let base: usize = i * channels;
        let mut ch: usize = 0;
        while ch < channels
            invariant
                ch <= channels,
                channels > 0,
                base == i * channels,
                base + channels <= n == before.len(),
                data@.len() == n,
                s == sound(samples@, position + i, silence),
                forall|p: int|
                    0 <= p < base + ch ==> #[trigger] data@[p] == sound(
                        samples@,
                        position + p / channels as int,
                        silence,
                    ),
                forall|p: int| base + ch <= p < n ==> #[trigger] data@[p] == before[p],
            decreases channels - ch,
        {
            assert((base + ch) / channels as int == i) by (nonlinear_arith)
                requires
                    base == i * channels,
                    0 <= ch < channels,
            ;
            data[base + ch] = s;
            ch = ch + 1;
        }
        i = i + 1;
    }
    assert(data@ =~= filled_from(samples@, position as int, before, channels as int, silence));
    let next: usize = position + frames;
    (next, next >= samples.len())
}

/// Playback goes on where it stopped: two device buffers of whole frames, filled one after the
/// other, hold what one buffer of their joint length would.
pub proof fn law_playback_is_seamless<T>(
    samples: Seq<T>,
    position: int,
    first: Seq<T>,
    second: Seq<T>,
    channels: int,
    silence: T,
)
    requires
        channels > 0,
        first.len() % channels as nat == 0,
    ensures
        filled_from(samples, position, first, channels, silence) + filled_from(
            samples,
            position + first.len() as int / channels,
            second,
            channels,
            silence,
        ) == filled_from(samples, position, first + second, channels, silence),
{
    let n = first.len() as int;
    let m = second.len() as int;
    let q = n / channels;
    assert(n == q * channels) by (nonlinear_arith)
        requires
            n % channels == 0,
            q == n / channels,
            channels > 0,
    ;
    assert((n + m) / channels == q + m / channels) by {
        vstd::arithmetic::div_mod::lemma_hoist_over_denominator(m, q, channels as nat);
        assert(q * channels == n);
    }
    assert((q + m / channels) * channels == n + m / channels * channels) by (nonlinear_arith)
        requires
            n == q * channels,
    ;
    let left = filled_from(samples, position, first, channels, silence) + filled_from(
        samples,
        position + q,
        second,
        channels,
        silence,
    );
    let right = filled_from(samples, position, first + second, channels, silence);
    assert forall|p: int| 0 <= p < n + m implies left[p] == right[p] by {
        if p >= n {
            vstd::arithmetic::div_mod::lemma_hoist_over_denominator(p - n, q, channels as nat);
            assert(p / channels == q + (p - n) / channels);
        } else {
            assert(m / channels * channels >= 0) by (nonlinear_arith)
                requires
                    m >= 0,
                    channels > 0,
            ;
        }
    }
    assert(left =~= right);
}

} // verus!
