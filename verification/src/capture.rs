//! Live capture: which samples are kept, and when a receiver gives up.

use std::collections::VecDeque;

use vstd::prelude::*;
use vstd::string::*;

use crate::arith::{
    lemma_reached_next, lemma_reached_none, reached, Arithmetic,
};
use crate::rx::DecodeError;
use crate::text::{decimal, push_decimal};
use crate::wav::{first_channel, first_of_each};

verus! {

// ---------------------------------------------------------------------------------------------
// Devices
// ---------------------------------------------------------------------------------------------

/// Why a device cannot be used.
#[derive(Clone, Copy, Debug, PartialEq, Eq, Structural)]
pub enum DeviceFault {
    /// The device runs at another rate than the modem.
    SampleRate { device: u32, requested: u32 },
    /// The device does not hand out floating-point samples.
    SampleFormat,
}

/// What a mismatch of rates is called.
pub open spec fn rate_text(device: u32, requested: u32) -> Seq<char> {
    " device sample rate "@ + decimal(device as nat) + " != requested "@ + decimal(
        requested as nat,
    )
}

fn push_rates(s: &mut String, device: u32, requested: u32)
    ensures
        final(s)@ == old(s)@ + rate_text(device, requested),
{
    s.append(" device sample rate ");
    push_decimal(s, device as u64);
    s.append(" != requested ");
    push_decimal(s, requested as u64);
    assert(s@ =~= old(s)@ + rate_text(device, requested));
}

impl DeviceFault {
    /// What the receiver says of an input device with samples in `format`.
    pub open spec fn input_text(self, format: Seq<char>) -> Seq<char> {
        match self {
            DeviceFault::SampleRate { device, requested } => "input"@ + rate_text(
                device,
                requested,
            ) + " — pass --sample-rate "@ + decimal(device as nat),
            DeviceFault::SampleFormat => "input device sample format is "@ + format
                + "; only f32 is supported in v1"@,
        }
    }

    /// What the display says of an input device with samples in `format`.
    pub open spec fn display_text(self, format: Seq<char>) -> Seq<char> {
        match self {
            DeviceFault::SampleRate { device, requested } => "input"@ + rate_text(
                device,
                requested,
            ),
            DeviceFault::SampleFormat => "input device format is "@ + format
                + "; only f32 is supported"@,
        }
    }

    /// Tells the user of the receiver what is wrong with an input device.
    pub fn input_message(&self, format: &str) -> (s: String)
        ensures
            s@ == self.input_text(format@),
    {
        match *self {
            DeviceFault::SampleRate { device, requested } => {
                let mut s = "input".to_owned();
                push_rates(&mut s, device, requested);
                s.append(" — pass --sample-rate ");
                push_decimal(&mut s, device as u64);
                s
            },
            DeviceFault::SampleFormat => {
                let mut s = "input device sample format is ".to_owned();
                s.append(format);
                s.append("; only f32 is supported in v1");
                s
            },
        }
    }

    /// Tells the user of the display what is wrong with an input device.
    pub fn display_message(&self, format: &str) -> (s: String)
        ensures
            s@ == self.display_text(format@),
    {
        match *self {
            DeviceFault::SampleRate { device, requested } => {
                let mut s = "input".to_owned();
                push_rates(&mut s, device, requested);
                s
            },
            DeviceFault::SampleFormat => {
                let mut s = "input device format is ".to_owned();
                s.append(format);
                s.append("; only f32 is supported");
                s
            },
        }
    }
}

/// What is wrong, if anything, with an output device that runs at `device` samples a second when
/// the samples to be played are meant for `requested`.
pub open spec fn output_fault(device: u32, requested: u32) -> Option<Seq<char>> {
    if device == requested {
        None
    } else {
        Some(
            "output"@ + rate_text(device, requested) + " — pass --sample-rate "@ + decimal(
                device as nat,
            ) + " to match, or use --wav for offline encode"@,
        )
    }
}

/// Tells the user what is wrong with an output device.
pub fn check_output(device: u32, requested: u32) -> (r: Result<(), String>)
    ensures
        match r {
            Ok(_) => output_fault(device, requested) is None,
            Err(message) => output_fault(device, requested) == Some(message@),
        },
{
    if device != requested {
        let mut s = "output".to_owned();
        push_rates(&mut s, device, requested);
        s.append(" — pass --sample-rate ");
        push_decimal(&mut s, device as u64);
        s.append(" to match, or use --wav for offline encode");
        return Err(s);
    }
    Ok(())
}

/// Whether a capture device can serve: it must run at the modem's rate and hand out
/// floating-point samples. A wrong rate is reported first.
pub fn check_input(device: u32, requested: u32, is_float: bool) -> (r: Result<(), DeviceFault>)
    ensures
        r == if device != requested {
            Err(DeviceFault::SampleRate { device, requested })
        } else if !is_float {
            Err(DeviceFault::SampleFormat)
        } else {
            Ok::<(), DeviceFault>(())
        },
{
    if device != requested {
        return Err(DeviceFault::SampleRate { device, requested });
    }
    if !is_float {
        return Err(DeviceFault::SampleFormat);
    }
    Ok(())
}

// ---------------------------------------------------------------------------------------------
// Buffers
// ---------------------------------------------------------------------------------------------

/// Capacity, in seconds, of the rolling capture buffer before its oldest samples are dropped.
/// Picked so a typical frame fits comfortably; long enough to absorb a slow receiver while still
/// bounding the matched-filter cost.
pub const BUFFER_CAPACITY_SECONDS: u64 = 6;

/// `n` is the number of samples that `seconds` take at `sample_rate`.
pub open spec fn capacity<M: Arithmetic>(seconds: u64, sample_rate: u32, n: usize) -> bool {
    exists|length: M::Real, rate: M::Real, product: M::Real|
        {
            &&& call_ensures(M::fraction, (seconds, 1), length)
            &&& call_ensures(M::count, (sample_rate as usize,), rate)
            &&& #[trigger] call_ensures(M::times, (length, rate), product)
            &&& call_ensures(M::floor, (product,), n)
        }
}

/// How many samples `seconds` take at `sample_rate`.
pub fn buffer_limit<M: Arithmetic>(seconds: u64, sample_rate: u32) -> (n: usize)
    ensures
        capacity::<M>(seconds, sample_rate, n),
{
    let length = M::fraction(seconds, 1);
    let rate = M::count(sample_rate as usize);
    let product = M::times(length, rate);
    let n: usize = M::floor(product);
    assert(call_ensures(M::times, (length, rate), product));
    n
}

/// What stays of a capture that may hold `max` samples: all of it, or, once it holds more, the
/// newest `max / 2`.
pub open spec fn trimmed<T>(buf: Seq<T>, max: int) -> Seq<T> {
    if buf.len() > max {
        buf.subrange(buf.len() - max / 2, buf.len() as int)
    } else {
        buf
    }
}

/// Drops the oldest samples of an overlong capture, so that the cost of the matched filter stays
/// bounded.
pub fn trim_capture<T>(buf: &mut Vec<T>, max: usize)
    ensures
        final(buf)@ == trimmed(old(buf)@, max as int),
{
    if buf.len() > max {
        let drop: usize = buf.len() - max / 2;
        let mut kept = buf.split_off(drop);
        buf.clear();
        buf.append(&mut kept);
    }
    assert(buf@ =~= trimmed(old(buf)@, max as int));
}

/// A trimmed capture holds at most `max` samples, they are the newest, and trimming it again
/// changes nothing.
pub proof fn law_trimmed_capture_is_bounded<T>(buf: Seq<T>, max: int)
    requires
        max >= 0,
    ensures
        trimmed(buf, max).len() <= max,
        trimmed(buf, max) == buf.subrange(
            buf.len() - trimmed(buf, max).len(),
            buf.len() as int,
        ),
        trimmed(trimmed(buf, max), max) == trimmed(buf, max),
{
    assert(trimmed(buf, max) =~= buf.subrange(
        buf.len() - trimmed(buf, max).len(),
        buf.len() as int,
    ));
}

/// How many samples a ring for `max` holds after `fresh` more came to `held`: it grows up to
/// `max` and never shrinks.
pub open spec fn ring_len(held: int, fresh: int, max: int) -> int {
    if held >= max {
        held
    } else if held + fresh <= max {
        held + fresh
    } else {
        max
    }
}

/// The ring `buf` after the samples `fresh` came in: the newest of all.
pub open spec fn rolled<T>(buf: Seq<T>, fresh: Seq<T>, max: int) -> Seq<T> {
    let all = buf + fresh;
    all.subrange(
        all.len() - ring_len(buf.len() as int, fresh.len() as int, max),
        all.len() as int,
    )
}

/// A ring that is not overlong never becomes so.
pub proof fn law_ring_stays_bounded<T>(buf: Seq<T>, fresh: Seq<T>, max: int)
    requires
        buf.len() <= max,
    ensures
        rolled(buf, fresh, max).len() <= max,
{
}

/// Samples that come in two blocks leave the ring as they would in one.
pub proof fn law_ring_forgets_block_borders<T>(
    buf: Seq<T>,
    first: Seq<T>,
    second: Seq<T>,
    max: int,
)
    requires
        max >= 0,
    ensures
        rolled(rolled(buf, first, max), second, max) == rolled(buf, first + second, max),
{
    assert(rolled(rolled(buf, first, max), second, max) =~= rolled(buf, first + second, max));
}

/// Step `i` moves on to the magnitude of sample `i` if it exceeds the peak so far.
pub open spec fn meter_step<M: Arithmetic>(x: Seq<M::Real>) -> spec_fn(
    int,
    M::Real,
    M::Real,
) -> bool {
    |i: int, a: M::Real, b: M::Real|
        exists|m: M::Real|
            #[trigger] call_ensures(M::magnitude, (x[i],), m) && {
                ||| call_ensures(M::exceeds, (m, a), true) && b == m
                ||| call_ensures(M::exceeds, (m, a), false) && b == a
            }
}

/// Takes a block of interleaved samples into the ring and returns the peak of its first channel.
pub fn roll_in<M: Arithmetic>(
    buf: &mut VecDeque<M::Real>,
    data: &[M::Real],
    channels: usize,
    max: usize,
) -> (peak: M::Real)
    requires
        channels > 0,
    ensures
        final(buf)@ == rolled(old(buf)@, first_of_each(data@, channels as int), max as int),
        reached(
            meter_step::<M>(first_of_each(data@, channels as int)),
            first_of_each(data@, channels as int).len(),
            M::ZERO,
            peak,
        ),
{
    let mono = first_channel(data, channels);
    let ghost before = buf@;
    let ghost step = meter_step::<M>(mono@);
    let mut peak = M::ZERO;
    proof {
        lemma_reached_none(step, peak);
        assert(rolled(before, mono@.subrange(0, 0), max as int) =~= before);
    }
    let mut i: usize = 0;
    while i < mono.len()
        invariant
            i <= mono@.len(),
            step == meter_step::<M>(mono@),
            reached(step, i as nat, M::ZERO, peak),
            buf@ == rolled(before, mono@.subrange(0, i as int), max as int),
        decreases mono@.len() - i,
    {
        let s = mono[i];
        let m = M::magnitude(s);
        assert(call_ensures(M::magnitude, (s,), m));
        let ghost was = peak;
        if M::exceeds(m, peak) {
            peak = m;
        }
        proof {
            assert(step(i as int, was, peak));
            lemma_reached_next(step, i as nat, M::ZERO, was, peak);
        }
        buf.push_back(s);
        if buf.len() > max {
            let _oldest = buf.pop_front();
        }
        assert(buf@ =~= rolled(before, mono@.subrange(0, i + 1), max as int));
        i = i + 1;
    }
    assert(mono@.subrange(0, mono@.len() as int) =~= mono@);
    peak
}

// ---------------------------------------------------------------------------------------------
// Listening
// ---------------------------------------------------------------------------------------------

/// How a receiver gets its samples.
#[derive(Clone, Copy, Debug, PartialEq, Eq, Structural)]
pub enum ReceiveMode {
    /// From a file.
    File,
    /// From a microphone, until a frame is decoded.
    Live,
    /// From a microphone, with a display.
    Display,
}

/// The mode that the command line asks for; the display is for live audio only.
pub fn receive_mode(display: bool, file: bool) -> (mode: Option<ReceiveMode>)
    ensures
        mode == if display && file {
            None
        } else if display {
            Some(ReceiveMode::Display)
        } else if file {
            Some(ReceiveMode::File)
        } else {
            Some(ReceiveMode::Live)
        },
{
    if display {
        if file {
            None
        } else {
            Some(ReceiveMode::Display)
        }
    } else if file {
        Some(ReceiveMode::File)
    } else {
        Some(ReceiveMode::Live)
    }
}

/// Whether time is up after `elapsed` of `timeout`, both in the same unit.
pub fn time_is_up(elapsed: u128, timeout: u128) -> (r: bool)
    ensures
        r == (elapsed > timeout),
{
    elapsed > timeout
}

/// The snapshot that a listening receiver decodes when it wakes up `elapsed` after it started:
/// what is left of `buf` after trimming, or nothing once time is up.
pub open spec fn snapshot<T>(elapsed: u128, timeout: u128, buf: Seq<T>, max: int) -> Option<
    Seq<T>,
> {
    if elapsed > timeout {
        None
    } else {
        Some(trimmed(buf, max))
    }
}

/// Wakes a listening receiver up: trims the capture and returns a copy of it, unless time is up.
pub fn wake<T: Copy>(elapsed: u128, timeout: u128, buf: &mut Vec<T>, max: usize) -> (r: Option<
    Vec<T>,
>)
    ensures
        match r {
            Some(copy) => snapshot(elapsed, timeout, old(buf)@, max as int) == Some(copy@)
                && final(buf)@ == copy@,
            None => snapshot(elapsed, timeout, old(buf)@, max as int) is None && final(buf)@
                == old(buf)@,
        },
{
    if time_is_up(elapsed, timeout) {
        return None;
    }
    trim_capture(buf, max);
    let copy = vstd::slice::slice_to_vec(buf.as_slice());
    assert(copy@ =~= buf@);
    Some(copy)
}

/// What a listening receiver does after an attempt to decode.
#[derive(Debug)]
pub enum Listening {
    /// A frame arrived.
    Done(Vec<u8>),
    /// There is no frame in the buffer yet.
    Quiet,
    /// There is a frame, or a part of one, that cannot be read.
    Unreadable(DecodeError),
}

/// What to do after an attempt ended with `result`.
pub fn after_attempt(result: Result<Vec<u8>, DecodeError>) -> (next: Listening)
    ensures
        next == match result {
            Ok(payload) => Listening::Done(payload),
            Err(DecodeError::ChirpNotFound) => Listening::Quiet,
            Err(e) => Listening::Unreadable(e),
        },
{
    match result {
        Ok(payload) => Listening::Done(payload),
        Err(DecodeError::ChirpNotFound) => Listening::Quiet,
        Err(e) => Listening::Unreadable(e),
    }
}

} // verus!
