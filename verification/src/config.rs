//! What both ends have to agree on.

use vstd::prelude::*;
use vstd::string::*;

use crate::arith::Arithmetic;
use crate::formula::{Formula, Term};

verus! {

/// How bits are put on symbols.
#[derive(Clone, Copy, Debug, PartialEq, Eq, Structural)]
pub enum Modulation {
    Bpsk,
}

impl Modulation {
    /// The byte that names this scheme in a frame header.
    pub open spec fn wire_byte(self) -> u8 {
        match self {
            Modulation::Bpsk => 0,
        }
    }

    /// The scheme that byte `b` names, if there is one.
    pub open spec fn named_by(b: u8) -> Option<Modulation> {
        if b == 0 {
            Some(Modulation::Bpsk)
        } else {
            None
        }
    }

    pub fn bits_per_symbol(self) -> (n: usize)
        ensures
            n == match self {
                Modulation::Bpsk => 1usize,
            },
    {
        match self {
            Self::Bpsk => 1,
        }
    }

    pub fn to_byte(self) -> (b: u8)
        ensures
            b == self.wire_byte(),
    {
        match self {
            Self::Bpsk => 0,
        }
    }

    pub fn from_byte(b: u8) -> (m: Option<Self>)
        ensures
            m == Self::named_by(b),
    {
        match b {
            0 => Some(Self::Bpsk),
            _ => None,
        }
    }
}

/// `c` in lower case if it is an ASCII letter, otherwise `c`.
pub open spec fn ascii_lower(c: char) -> char {
    if 'A' <= c <= 'Z' {
        (c as u32 + 32) as char
    } else {
        c
    }
}

/// `s` with every ASCII letter in lower case.
pub open spec fn ascii_lowercase(s: Seq<char>) -> Seq<char> {
    s.map_values(|c: char| ascii_lower(c))
}

/// `str::to_ascii_lowercase` maps each character from `A` to `Z` to its lower case form and
/// leaves every other character as it is.
pub assume_specification[ str::to_ascii_lowercase ](s: &str) -> (r: String)
    ensures
        r@ == ascii_lowercase(s@),
;

impl Modulation {
    /// The scheme called `s`, in any mix of upper and lower case, or a message that gives the
    /// unknown name.
    pub fn parse(s: &str) -> (r: Result<Self, String>)
        ensures
            match r {
                Ok(m) => m == Modulation::Bpsk && ascii_lowercase(s@) == "bpsk"@,
                Err(e) => ascii_lowercase(s@) != "bpsk"@ && e@ == "unknown modulation: "@
                    + ascii_lowercase(s@),
            },
    {
        let name = s.to_ascii_lowercase();
        if name == "bpsk".to_owned() {
            Ok(Self::Bpsk)
        } else {
            let mut e = "unknown modulation: ".to_owned();
            e.append(name.as_str());
            Err(e)
        }
    }
}

impl std::str::FromStr for Modulation {
    type Err = String;

    /// The same as [`Modulation::parse`].
    fn from_str(s: &str) -> (r: Result<Self, String>)
        ensures
            match r {
                Ok(m) => m == Modulation::Bpsk && ascii_lowercase(s@) == "bpsk"@,
                Err(e) => ascii_lowercase(s@) != "bpsk"@ && e@ == "unknown modulation: "@
                    + ascii_lowercase(s@),
            },
    {
        Self::parse(s)
    }
}

/// What a transmitter and a receiver have to agree on.
#[derive(Debug)]
pub struct Config<M: Arithmetic> {
    /// Samples per second.
    pub sample_rate: u32,
    /// Carrier frequency in Hz.
    pub carrier_hz: M::Real,
    /// Symbols per second.
    pub baud: u32,
    /// Roll-off of the pulse shape.
    pub rrc_beta: M::Real,
    /// Length of the pulse shape in symbols.
    pub rrc_span_symbols: usize,
    /// Length of the chirp in milliseconds.
    pub chirp_dur_ms: M::Real,
    /// Frequency at which the chirp starts, in Hz.
    pub chirp_f0_hz: M::Real,
    /// Frequency at which the chirp ends, in Hz.
    pub chirp_f1_hz: M::Real,
    /// Part of the chirp's self-energy that a matched-filter peak must reach.
    pub chirp_detect_threshold: M::Real,
    pub modulation: Modulation,
}

impl<M: Arithmetic> Clone for Config<M> {
    fn clone(&self) -> (c: Self)
        ensures
            c == *self,
    {
        Config {
            sample_rate: self.sample_rate,
            carrier_hz: self.carrier_hz,
            baud: self.baud,
            rrc_beta: self.rrc_beta,
            rrc_span_symbols: self.rrc_span_symbols,
            chirp_dur_ms: self.chirp_dur_ms,
            chirp_f0_hz: self.chirp_f0_hz,
            chirp_f1_hz: self.chirp_f1_hz,
            chirp_detect_threshold: self.chirp_detect_threshold,
            modulation: self.modulation,
        }
    }
}

impl<M: Arithmetic> Default for Config<M> {
    /// 48 kHz samples, 1000 baud on a 6 kHz carrier, a roll-off of 0.35 over 8 symbols, and a
    /// chirp of 50 ms from 4 to 8 kHz that counts as found at 0.3 of its self-energy.
    fn default() -> (c: Self)
        ensures
            c.sample_rate == 48_000,
            call_ensures(M::fraction, (6_000, 1), c.carrier_hz),
            c.baud == 1_000,
            call_ensures(M::fraction, (35, 100), c.rrc_beta),
            c.rrc_span_symbols == 8,
            call_ensures(M::fraction, (50, 1), c.chirp_dur_ms),
            call_ensures(M::fraction, (4_000, 1), c.chirp_f0_hz),
            call_ensures(M::fraction, (8_000, 1), c.chirp_f1_hz),
            call_ensures(M::fraction, (3, 10), c.chirp_detect_threshold),
            c.modulation == Modulation::Bpsk,
    {
        Config {
            sample_rate: 48_000,
            carrier_hz: M::fraction(6_000, 1),
            baud: 1_000,
            rrc_beta: M::fraction(35, 100),
            rrc_span_symbols: 8,
            chirp_dur_ms: M::fraction(50, 1),
            chirp_f0_hz: M::fraction(4_000, 1),
            chirp_f1_hz: M::fraction(8_000, 1),
            chirp_detect_threshold: M::fraction(3, 10),
            modulation: Modulation::Bpsk,
        }
    }
}

impl<M: Arithmetic> Config<M> {
    /// Whole samples in a symbol.
    pub open spec fn samples_per_symbol(self) -> nat {
        (self.sample_rate / self.baud) as nat
    }

    pub fn sps(&self) -> (n: usize)
        requires
            self.baud > 0,
        ensures
            n == self.samples_per_symbol(),
            n <= u32::MAX,
    {
        (self.sample_rate / self.baud) as usize
    }
}

/// `ms` milliseconds, in samples at `rate` samples a second.
pub open spec fn duration<M: Arithmetic>(ms: M::Real, rate: u32) -> Formula<M> {
    Formula::Given(ms).over(Formula::Fraction(1_000, 1)).times(Formula::Count(rate as usize))
}

/// `n` is the number of whole samples nearest to `ms` milliseconds.
pub open spec fn lasts<M: Arithmetic>(ms: M::Real, rate: u32, n: usize) -> bool {
    exists|x: M::Real|
        duration::<M>(ms, rate).yields(x) && #[trigger] call_ensures(M::nearest, (x,), n)
}

impl<M: Arithmetic> Config<M> {
    pub fn chirp_len_samples(&self) -> (n: usize)
        ensures
            lasts::<M>(self.chirp_dur_ms, self.sample_rate, n),
    {
        let x = Term::<M>::given(self.chirp_dur_ms).over(Term::fraction(1_000, 1)).times(
            Term::count(self.sample_rate as usize),
        ).value;
        let n: usize = M::nearest(x);
        assert(call_ensures(M::nearest, (x,), n));
        n
    }
}

/// A scheme is found again under its own byte, and a byte names a scheme only if it is that
/// scheme's byte.
pub proof fn law_modulation_byte_roundtrip(m: Modulation, b: u8)
    ensures
        Modulation::named_by(m.wire_byte()) == Some(m),
        Modulation::named_by(b) == Some(m) ==> m.wire_byte() == b,
{
}

} // verus!
