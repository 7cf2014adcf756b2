//! Packets: their layout, their checksum, and their bits.

use vstd::prelude::*;
use vstd::string::*;

use crc::{Crc, CRC_32_ISO_HDLC};

use crate::arith::Arithmetic;
use crate::bpsk::{modulate, modulated};
use crate::config::Modulation;
use crate::text::{decimal, hex, push_decimal, push_hex};

verus! {

/// Fixed 16-byte / 128-bit training preamble.
///
/// Sits between the chirp and the sync word. Its job is to give the decision-feedback
/// equalizer a known symbol sequence to converge on: recover the absolute phase from the first
/// ~16 symbols, then train the equalizer taps over the remaining ~112.
///
/// The pattern is balanced (about 64 ones, 64 zeros) and frozen so both sides agree.
pub const TRAINING_SEQUENCE: [u8; 16] = [
    0xB8, 0xA0, 0x1B, 0x59, 0xA9, 0xBE, 0x42, 0x73, 0xC4, 0xF6, 0xD2, 0x9D, 0x37, 0x0E, 0x65, 0x8F,
];

/// 32-bit sync pattern. After the chirp and the training preamble, this verifies byte alignment
/// and discards any equalizer that converged on noise.
pub const SYNC_WORD: [u8; 4] = [0x1A, 0xCF, 0xFC, 0x1D];

pub const MAX_PAYLOAD: usize = 65_535;

/// Bytes from the start of a frame to its length field.
pub const HEADER_START: usize = 20;

/// Bytes from the start of a frame to its payload.
pub const PAYLOAD_START: usize = 23;

/// Bytes of a frame that are not payload.
pub const OVERHEAD: usize = 27;

#[allow(inconsistent_fields)]
#[derive(Clone, Copy, Debug, PartialEq, Eq, Structural)]
pub enum FrameError {
    PayloadTooLarge(usize),
    TooShort,
    BadTraining,
    BadSync,
    UnknownModulation(u8),
    Truncated { expected: usize, actual: usize },
    BadCrc { expected: u32, actual: u32 },
}

impl FrameError {
    /// The text that tells a user what went wrong.
    pub open spec fn text(self) -> Seq<char> {
        match self {
            FrameError::PayloadTooLarge(n) => "payload too large: "@ + decimal(n as nat)
                + " bytes (max "@ + decimal(MAX_PAYLOAD as nat) + ")"@,
            FrameError::TooShort => "frame too short to contain header"@,
            FrameError::BadTraining =>
                "training preamble mismatch (equalizer likely failed to converge)"@,
            FrameError::BadSync => "sync word mismatch"@,
            FrameError::UnknownModulation(b) => "unknown modulation byte: "@ + decimal(b as nat),
            FrameError::Truncated { expected, actual } => "payload truncated: header says "@
                + decimal(expected as nat) + " bytes, only "@ + decimal(actual as nat)
                + " available"@,
            FrameError::BadCrc { expected, actual } => "crc mismatch: expected "@ + hex(
                expected as nat,
                8,
            ) + ", computed "@ + hex(actual as nat, 8),
        }
    }

    /// Tells a user what went wrong.
    pub fn message(&self) -> (s: String)
        ensures
            s@ == self.text(),
    {
        match *self {
            FrameError::PayloadTooLarge(n) => {
                let mut s = "payload too large: ".to_owned();
                push_decimal(&mut s, n as u64);
                s.append(" bytes (max ");
                push_decimal(&mut s, MAX_PAYLOAD as u64);
                s.append(")");
                s
            },
            FrameError::TooShort => "frame too short to contain header".to_owned(),
            FrameError::BadTraining =>
                "training preamble mismatch (equalizer likely failed to converge)".to_owned(),
            FrameError::BadSync => "sync word mismatch".to_owned(),
            FrameError::UnknownModulation(b) => {
                let mut s = "unknown modulation byte: ".to_owned();
                push_decimal(&mut s, b as u64);
                s
            },
            FrameError::Truncated { expected, actual } => {
                let mut s = "payload truncated: header says ".to_owned();
                push_decimal(&mut s, expected as u64);
                s.append(" bytes, only ");
                push_decimal(&mut s, actual as u64);
                s.append(" available");
                s
            },
            FrameError::BadCrc { expected, actual } => {
                let mut s = "crc mismatch: expected ".to_owned();
                push_hex(&mut s, expected as u64, 8);
                s.append(", computed ");
                push_hex(&mut s, actual as u64, 8);
                s
            },
        }
    }
}

#[derive(Debug)]
pub struct DecodedFrame {
    pub modulation: Modulation,
    pub payload: Vec<u8>,
}

/// What a frame says: the scheme it names, its payload, and how many bytes it takes up.
pub struct Reading {
    pub modulation: Modulation,
    pub payload: Seq<u8>,
    pub consumed: nat,
}

// ---------------------------------------------------------------------------------------------
// Layout
// ---------------------------------------------------------------------------------------------

/// The two bytes of `n`, low byte first.
pub open spec fn le16(n: nat) -> Seq<u8> {
    seq![(n % 256) as u8, (n / 256 % 256) as u8]
}

/// The four bytes of `n`, low byte first.
pub open spec fn le32(n: nat) -> Seq<u8> {
    seq![
        (n % 256) as u8,
        (n / 256 % 256) as u8,
        (n / 65_536 % 256) as u8,
        (n / 16_777_216 % 256) as u8,
    ]
}

/// The number whose bytes, low byte first, are `b`.
pub open spec fn from_le(b: Seq<u8>) -> nat
    decreases b.len(),
{
    if b.len() == 0 {
        0
    } else {
        (b[0] + 256 * from_le(b.subrange(1, b.len() as int))) as nat
    }
}

/// The fixed markers that every frame starts with.
pub open spec fn markers() -> Seq<u8> {
    TRAINING_SEQUENCE@ + SYNC_WORD@
}

/// The part of a frame that its checksum covers: length, scheme and payload.
pub open spec fn covered(payload: Seq<u8>, modulation: Modulation) -> Seq<u8> {
    le16(payload.len()) + seq![modulation.wire_byte()] + payload
}

/// A frame around `payload` whose checksum field holds `crc`.
pub open spec fn framed(payload: Seq<u8>, modulation: Modulation, crc: u32) -> Seq<u8> {
    markers() + covered(payload, modulation) + le32(crc as nat)
}

/// One bit of a reflected CRC register with the polynomial 0x04c11db7, which reads 0xedb88320
/// backwards.
pub open spec fn crc_shift(c: u32) -> u32 {
    if c & 1 == 1 {
        (c >> 1) ^ 0xedb8_8320
    } else {
        c >> 1
    }
}

/// The register after `n` bits.
pub open spec fn crc_shifts(c: u32, n: nat) -> u32
    decreases n,
{
    if n == 0 {
        c
    } else {
        crc_shift(crc_shifts(c, (n - 1) as nat))
    }
}

/// The register after the bytes of `data`, from all ones on.
pub open spec fn crc_register(data: Seq<u8>) -> u32
    decreases data.len(),
{
    if data.len() == 0 {
        0xffff_ffff
    } else {
        crc_shifts(crc_register(data.drop_last()) ^ (data.last() as u32), 8)
    }
}

/// The CRC-32/ISO-HDLC checksum of `data`.
#[verifier::opaque]
pub open spec fn crc32_iso_hdlc(data: Seq<u8>) -> u32 {
    crc_register(data) ^ 0xffff_ffff
}

/// The frame that is sent for `payload`.
pub open spec fn encoded(payload: Seq<u8>, modulation: Modulation) -> Seq<u8> {
    framed(payload, modulation, crc32_iso_hdlc(covered(payload, modulation)))
}

/// The payload length that a header announces.
pub open spec fn announced(bytes: Seq<u8>) -> nat {
    from_le(bytes.subrange(20, 22))
}

/// The first fault of a frame's header, if it has one.
pub open spec fn header_fault(bytes: Seq<u8>) -> Option<FrameError> {
    if bytes.len() < OVERHEAD {
        Some(FrameError::TooShort)
    } else if bytes.subrange(0, 16) != TRAINING_SEQUENCE@ {
        Some(FrameError::BadTraining)
    } else if bytes.subrange(16, 20) != SYNC_WORD@ {
        Some(FrameError::BadSync)
    } else if Modulation::named_by(bytes[22]) is None {
        Some(FrameError::UnknownModulation(bytes[22]))
    } else if bytes.len() < OVERHEAD + announced(bytes) {
        Some(
            FrameError::Truncated {
                expected: (OVERHEAD + announced(bytes)) as usize,
                actual: bytes.len() as usize,
            },
        )
    } else {
        None
    }
}

/// The bytes of a frame that its checksum covers.
pub open spec fn checked_part(bytes: Seq<u8>) -> Seq<u8> {
    bytes.subrange(20, PAYLOAD_START + announced(bytes))
}

/// The checksum that a frame carries.
pub open spec fn carried_crc(bytes: Seq<u8>) -> nat {
    from_le(bytes.subrange(PAYLOAD_START + announced(bytes), OVERHEAD + announced(bytes)))
}

/// What `bytes` says as a frame, where `computed` is the checksum of its checked part.
pub open spec fn reading(bytes: Seq<u8>, computed: u32) -> Result<Reading, FrameError> {
    match header_fault(bytes) {
        Some(e) => Err(e),
        None => if carried_crc(bytes) != computed {
            Err(FrameError::BadCrc { expected: carried_crc(bytes) as u32, actual: computed })
        } else {
            Ok(
                Reading {
                    modulation: Modulation::named_by(bytes[22]).unwrap(),
                    payload: bytes.subrange(23, PAYLOAD_START + announced(bytes)),
                    consumed: OVERHEAD as nat + announced(bytes),
                },
            )
        },
    }
}

/// What `bytes` says as a frame.
pub open spec fn decoded(bytes: Seq<u8>) -> Result<Reading, FrameError> {
    reading(bytes, crc32_iso_hdlc(checked_part(bytes)))
}

/// `result` reports the reading `r`.
pub open spec fn reports(
    result: Result<(DecodedFrame, usize), FrameError>,
    r: Result<Reading, FrameError>,
) -> bool {
    match result {
        Ok((frame, consumed)) => r == Ok::<Reading, FrameError>(
            Reading {
                modulation: frame.modulation,
                payload: frame.payload@,
                consumed: consumed as nat,
            },
        ),
        Err(e) => r == Err::<Reading, FrameError>(e),
    }
}

// ---------------------------------------------------------------------------------------------
// Byte order
// ---------------------------------------------------------------------------------------------

proof fn lemma_from_le_2(b: Seq<u8>)
    requires
        b.len() == 2,
    ensures
        from_le(b) == b[0] + 256 * b[1],
{
    reveal_with_fuel(from_le, 3);
}

proof fn lemma_from_le_4(b: Seq<u8>)
    requires
        b.len() == 4,
    ensures
        from_le(b) == b[0] + 256 * b[1] + 65_536 * b[2] + 16_777_216 * b[3],
{
    reveal_with_fuel(from_le, 5);
    let b1 = b.subrange(1, 4);
    let b2 = b1.subrange(1, 3);
    let b3 = b2.subrange(1, 2);
    assert(from_le(b3) == b[3]);
    assert(from_le(b2) == b[2] + 256 * b[3]);
    assert(from_le(b1) == b[1] + 256 * from_le(b2));
}

/// Reading back the two bytes of a number below 2^16, or the four bytes of a number below
/// 2^32, gives the number.
pub proof fn law_le_roundtrip(n: nat)
    ensures
        n < 65_536 ==> from_le(le16(n)) == n,
        n < 4_294_967_296 ==> from_le(le32(n)) == n,
{
    lemma_from_le_2(le16(n));
    lemma_from_le_4(le32(n));
}

/// The bytes of the number that two or four bytes make are these bytes.
pub proof fn law_from_le_roundtrip(b: Seq<u8>)
    ensures
        b.len() == 2 ==> from_le(b) < 65_536 && le16(from_le(b)) == b,
        b.len() == 4 ==> from_le(b) < 4_294_967_296 && le32(from_le(b)) == b,
{
    if b.len() == 2 {
        lemma_from_le_2(b);
        assert(le16(from_le(b)) =~= b);
    }
    if b.len() == 4 {
        lemma_from_le_4(b);
        let n = from_le(b);
        let (n1, n2) = (b[1] + 256 * b[2] + 65_536 * b[3], b[2] + 256 * b[3]);
        assert(n == b[0] + 256 * n1);
        assert(n / 256 == n1 && n % 256 == b[0]);
        assert(n1 == b[1] + 256 * n2);
        assert(n / 65_536 == n2 && n1 % 256 == b[1]);
        assert(n / 16_777_216 == b[3] && n2 % 256 == b[2]);
        assert(le32(n) =~= b);
    }
}

// ---------------------------------------------------------------------------------------------
// Writing and reading frames
// ---------------------------------------------------------------------------------------------

/// The checksum of `data`, from [`crc::Crc::checksum`] with the parameters that the `crc` crate
/// publishes as `CRC_32_ISO_HDLC`.
///
/// Claimed of it: the result is the CRC with the polynomial 0x04c11db7 over the bits of each byte
/// from the lowest up, with a register of all ones at first and all bits turned at last.
#[verifier::external_body]
fn crc32(data: &[u8]) -> (sum: u32)
    ensures
        sum == crc32_iso_hdlc(data@),
{
    let table: Crc<u32> = Crc::<u32>::new(&CRC_32_ISO_HDLC);
    table.checksum(data)
}

/// Appends the frame part that the checksum covers.
fn push_covered(buf: &mut Vec<u8>, payload: &[u8], modulation: Modulation)
    requires
        payload@.len() <= MAX_PAYLOAD,
    ensures
        final(buf)@ == old(buf)@ + covered(payload@, modulation),
{
    let len: usize = payload.len();
    buf.push((len % 256) as u8);
    buf.push((len / 256) as u8);
    buf.push(modulation.to_byte());
    buf.extend_from_slice(payload);
    assert(buf@ =~= old(buf)@ + covered(payload@, modulation));
}

/// Appends the four bytes of `n`, low byte first.
fn push_le32(buf: &mut Vec<u8>, n: u32)
    ensures
        final(buf)@ == old(buf)@ + le32(n as nat),
{
    buf.push((n % 256) as u8);
    buf.push((n / 256 % 256) as u8);
    buf.push((n / 65_536 % 256) as u8);
    buf.push((n / 16_777_216 % 256) as u8);
    assert(buf@ =~= old(buf)@ + le32(n as nat));
}

/// The frame around `payload` with `crc` in its checksum field.
///
/// Layout: training (16), sync (4), length (2, little endian), scheme (1), payload, CRC-32 (4,
/// little endian).
pub fn assemble(payload: &[u8], modulation: Modulation, crc: u32) -> (r: Result<
    Vec<u8>,
    FrameError,
>)
    ensures
        match r {
            Ok(frame) => payload@.len() <= MAX_PAYLOAD && frame@ == framed(
                payload@,
                modulation,
                crc,
            ),
            Err(e) => payload@.len() > MAX_PAYLOAD && e == FrameError::PayloadTooLarge(
                payload@.len() as usize,
            ),
        },
{
    if payload.len() > MAX_PAYLOAD {
        return Err(FrameError::PayloadTooLarge(payload.len()));
    }
    let mut buf: Vec<u8> = Vec::with_capacity(OVERHEAD + payload.len());
    buf.extend_from_slice(&TRAINING_SEQUENCE);
    buf.extend_from_slice(&SYNC_WORD);
    assert(buf@ =~= markers());
    push_covered(&mut buf, payload, modulation);
    push_le32(&mut buf, crc);
    Ok(buf)
}

/// Serialize frame bytes (everything that is modulated; the chirp is a separate waveform that
/// goes out first).
///
/// The checksum covers length, scheme and payload, not the training sequence or the sync word,
/// both of which are fixed markers.
pub fn encode(payload: &[u8], modulation: Modulation) -> (r: Result<Vec<u8>, FrameError>)
    ensures
        match r {
            Ok(frame) => payload@.len() <= MAX_PAYLOAD && frame@ == encoded(payload@, modulation),
            Err(e) => payload@.len() > MAX_PAYLOAD && e == FrameError::PayloadTooLarge(
                payload@.len() as usize,
            ),
        },
{
    if payload.len() > MAX_PAYLOAD {
        return Err(FrameError::PayloadTooLarge(payload.len()));
    }
    let mut body: Vec<u8> = Vec::with_capacity(3 + payload.len());
    push_covered(&mut body, payload, modulation);
    assert(body@ =~= covered(payload@, modulation));
    let crc = crc32(body.as_slice());
    assemble(payload, modulation, crc)
}

/// Whether `bytes` holds `pattern` at position `at`.
fn holds_at(bytes: &[u8], at: usize, pattern: &[u8]) -> (r: bool)
    requires
        at + pattern@.len() <= bytes@.len(),
    ensures
        r == (bytes@.subrange(at as int, at + pattern@.len()) == pattern@),
{
    let total: usize = bytes.len();
    let mut i: usize = 0;
    while i < pattern.len()
        invariant
            i <= pattern@.len(),
            at + pattern@.len() <= bytes@.len() == total,
            forall|k: int| 0 <= k < i ==> bytes@[at + k] == pattern@[k],
        decreases pattern@.len() - i,
    {
        if bytes[at + i] != pattern[i] {
            assert(bytes@.subrange(at as int, at + pattern@.len())[i as int] != pattern@[i as int]);
            return false;
        }
        i = i + 1;
    }
    assert(bytes@.subrange(at as int, at + pattern@.len()) =~= pattern@);
    true
}

/// The number in the two bytes at `at`, low byte first.
fn read_le16(bytes: &[u8], at: usize) -> (n: usize)
    requires
        at + 2 <= bytes@.len(),
    ensures
        n == from_le(bytes@.subrange(at as int, at + 2)),
        n < 65_536,
{
    proof {
        lemma_from_le_2(bytes@.subrange(at as int, at + 2));
    }
    bytes[at] as usize + 256 * (bytes[at + 1] as usize)
}

/// The number in the four bytes at `at`, low byte first.
fn read_le32(bytes: &[u8], at: usize) -> (n: u32)
    requires
        at + 4 <= bytes@.len(),
    ensures
        n == from_le(bytes@.subrange(at as int, at + 4)),
{
    proof {
        lemma_from_le_4(bytes@.subrange(at as int, at + 4));
    }
    bytes[at] as u32 + 256 * (bytes[at + 1] as u32) + 65_536 * (bytes[at + 2] as u32) + 16_777_216 * (
    bytes[at + 3] as u32)
}

/// Reads the markers and the header: the scheme and the payload length.
fn read_header(bytes: &[u8]) -> (r: Result<(Modulation, usize), FrameError>)
    ensures
        match r {
            Ok((modulation, len)) => {
                &&& header_fault(bytes@) is None
                &&& Modulation::named_by(bytes@[22]) == Some(modulation)
                &&& len == announced(bytes@)
                &&& OVERHEAD + len <= bytes.len()
            },
            Err(e) => header_fault(bytes@) == Some(e),
        },
{
    if bytes.len() < OVERHEAD {
        return Err(FrameError::TooShort);
    }
    if !holds_at(bytes, 0, &TRAINING_SEQUENCE) {
        return Err(FrameError::BadTraining);
    }
    if !holds_at(bytes, 16, &SYNC_WORD) {
        return Err(FrameError::BadSync);
    }
    let len = read_le16(bytes, HEADER_START);
    let modulation = match Modulation::from_byte(bytes[22]) {
        Some(m) => m,
        None => return Err(FrameError::UnknownModulation(bytes[22])),
    };
    let end: usize = OVERHEAD + len;
    if bytes.len() < end {
        return Err(FrameError::Truncated { expected: end, actual: bytes.len() });
    }
    Ok((modulation, len))
}

/// Holds the checksum that a frame carries against `computed` and takes the payload out.
fn take_payload(bytes: &[u8], modulation: Modulation, len: usize, computed: u32) -> (r: Result<
    (DecodedFrame, usize),
    FrameError,
>)
    requires
        header_fault(bytes@) is None,
        Modulation::named_by(bytes@[22]) == Some(modulation),
        len == announced(bytes@),
        OVERHEAD + len <= bytes.len(),
    ensures
        reports(r, reading(bytes@, computed)),
{
    let carried = read_le32(bytes, PAYLOAD_START + len);
    if carried != computed {
        return Err(FrameError::BadCrc { expected: carried, actual: computed });
    }
    let payload = vstd::slice::slice_to_vec(
        vstd::slice::slice_subrange(bytes, PAYLOAD_START, PAYLOAD_START + len),
    );
    Ok((DecodedFrame { modulation, payload }, OVERHEAD + len))
}

/// Parse a frame from `bytes`, given the checksum `computed` of its checked part.
pub fn decode_with_checksum(bytes: &[u8], computed: u32) -> (r: Result<
    (DecodedFrame, usize),
    FrameError,
>)
    ensures
        reports(r, reading(bytes@, computed)),
{
    match read_header(bytes) {
        Ok((modulation, len)) => take_payload(bytes, modulation, len, computed),
        Err(e) => Err(e),
    }
}

/// Parse a frame from `bytes`. Returns the decoded payload and how many bytes of the input were
/// consumed.
pub fn decode(bytes: &[u8]) -> (r: Result<(DecodedFrame, usize), FrameError>)
    ensures
        reports(r, decoded(bytes@)),
{
    let computed: u32 = match read_header(bytes) {
        Ok((_modulation, len)) => crc32(
            vstd::slice::slice_subrange(bytes, HEADER_START, PAYLOAD_START + len),
        ),
        Err(_e) => 0,
    };
    decode_with_checksum(bytes, computed)
}

// ---------------------------------------------------------------------------------------------
// Laws of the frame format
// ---------------------------------------------------------------------------------------------

/// Where the parts of a frame stand when it is followed by `tail`.
proof fn lemma_parts(payload: Seq<u8>, modulation: Modulation, crc: u32, tail: Seq<u8>)
    requires
        payload.len() <= MAX_PAYLOAD,
    ensures
        ({
            let bytes = framed(payload, modulation, crc) + tail;
            &&& framed(payload, modulation, crc).len() == OVERHEAD + payload.len()
            &&& bytes.len() == OVERHEAD + payload.len() + tail.len()
            &&& bytes.subrange(0, 16) == TRAINING_SEQUENCE@
            &&& bytes.subrange(16, 20) == SYNC_WORD@
            &&& bytes.subrange(20, 22) == le16(payload.len())
            &&& bytes[22] == modulation.wire_byte()
            &&& announced(bytes) == payload.len()
            &&& checked_part(bytes) == covered(payload, modulation)
            &&& bytes.subrange(23, PAYLOAD_START + payload.len()) == payload
            &&& bytes.subrange(PAYLOAD_START + payload.len(), OVERHEAD + payload.len()) == le32(crc as nat)
            &&& carried_crc(bytes) == crc
        }),
{
    let bytes = framed(payload, modulation, crc) + tail;
    assert(bytes.subrange(0, 16) =~= TRAINING_SEQUENCE@);
    assert(bytes.subrange(16, 20) =~= SYNC_WORD@);
    assert(bytes.subrange(20, 22) =~= le16(payload.len()));
    law_le_roundtrip(payload.len());
    law_le_roundtrip(crc as nat);
    assert(checked_part(bytes) =~= covered(payload, modulation));
    assert(bytes.subrange(23, PAYLOAD_START + payload.len()) =~= payload);
    assert(bytes.subrange(PAYLOAD_START + payload.len(), OVERHEAD + payload.len()) =~= le32(crc as nat));
}

/// What is sent is read back: decoding a frame gives its payload and its scheme and consumes
/// exactly the frame, whatever bytes follow it.
pub proof fn law_frame_roundtrip(payload: Seq<u8>, modulation: Modulation, tail: Seq<u8>)
    requires
        payload.len() <= MAX_PAYLOAD,
    ensures
        decoded(encoded(payload, modulation) + tail) == Ok::<Reading, FrameError>(
            Reading { modulation, payload, consumed: encoded(payload, modulation).len() },
        ),
{
    lemma_parts(payload, modulation, crc32_iso_hdlc(covered(payload, modulation)), tail);
}

/// There is one frame for each payload and scheme: bytes that decode start with the very frame
/// that encoding the decoded payload gives.
#[verifier::rlimit(40)]
pub proof fn law_accepted_bytes_are_a_frame(bytes: Seq<u8>)
    ensures
        match decoded(bytes) {
            Ok(r) => {
                &&& r.payload.len() <= MAX_PAYLOAD
                &&& r.consumed <= bytes.len()
                &&& bytes.subrange(0, r.consumed as int) == encoded(r.payload, r.modulation)
            },
            Err(_) => true,
        },
{
    match decoded(bytes) {
        Ok(r) => {
            let n = announced(bytes);
            let size = bytes.subrange(20, 22);
            let sum = bytes.subrange(PAYLOAD_START + n, OVERHEAD + n);
            law_from_le_roundtrip(size);
            law_from_le_roundtrip(sum);
            assert(checked_part(bytes) =~= covered(r.payload, r.modulation)) by {
                assert forall|i: int| 0 <= i < 3 + n implies checked_part(bytes)[i] == covered(
                    r.payload,
                    r.modulation,
                )[i] by {
                    if i < 2 {
                        assert(size[i] == bytes[20 + i]);
                    }
                }
            }
            let whole = bytes.subrange(0, r.consumed as int);
            let parts = encoded(r.payload, r.modulation);
            assert forall|i: int| 0 <= i < whole.len() implies whole[i] == parts[i] by {
                if i < 16 {
                    assert(bytes.subrange(0, 16)[i] == bytes[i]);
                } else if i < 20 {
                    assert(bytes.subrange(16, 20)[i - 16] == bytes[i]);
                } else if i < PAYLOAD_START + n {
                    assert(checked_part(bytes)[i - 20] == bytes[i]);
                } else {
                    assert(sum[i - PAYLOAD_START - n] == bytes[i]);
                }
            }
            assert(whole =~= parts);
        },
        Err(_) => {},
    }
}

/// A frame cut short is refused: below the size of an empty frame as too short, otherwise as
/// truncated, with the size of the whole frame and the size that there is.
#[verifier::rlimit(40)]
pub proof fn law_cut_frame_is_refused(payload: Seq<u8>, modulation: Modulation, n: int)
    requires
        payload.len() <= MAX_PAYLOAD,
        0 <= n < encoded(payload, modulation).len(),
    ensures
        decoded(encoded(payload, modulation).subrange(0, n)) == Err::<Reading, FrameError>(
            if n < OVERHEAD {
                FrameError::TooShort
            } else {
                FrameError::Truncated {
                    expected: encoded(payload, modulation).len() as usize,
                    actual: n as usize,
                }
            },
        ),
{
    let whole = encoded(payload, modulation);
    let cut = whole.subrange(0, n);
    lemma_parts(
        payload,
        modulation,
        crc32_iso_hdlc(covered(payload, modulation)),
        Seq::<u8>::empty(),
    );
    assert(whole + Seq::<u8>::empty() =~= whole);
    assert(cut.len() == n);
    if n >= OVERHEAD {
        assert(cut.subrange(0, 16) =~= whole.subrange(0, 16));
        assert(cut.subrange(16, 20) =~= whole.subrange(16, 20));
        assert(cut.subrange(20, 22) =~= whole.subrange(20, 22));
    }
}

/// One wrong byte in the training sequence, the sync word or the checksum field is always
/// noticed, each in its own way.
#[verifier::rlimit(40)]
pub proof fn law_damaged_marker_is_refused(
    payload: Seq<u8>,
    modulation: Modulation,
    tail: Seq<u8>,
    i: int,
    b: u8,
)
    requires
        payload.len() <= MAX_PAYLOAD,
        0 <= i < encoded(payload, modulation).len(),
        b != encoded(payload, modulation)[i],
    ensures
        ({
            let sent = encoded(payload, modulation);
            let got = decoded((sent + tail).update(i, b));
            &&& i < 16 ==> got == Err::<Reading, FrameError>(FrameError::BadTraining)
            &&& 16 <= i < 20 ==> got == Err::<Reading, FrameError>(FrameError::BadSync)
            &&& i >= sent.len() - 4 ==> {
                &&& got matches Err(FrameError::BadCrc { expected, actual })
                &&& actual == crc32_iso_hdlc(covered(payload, modulation))
                &&& le32(expected as nat) == le32(actual as nat).update(i - (sent.len() - 4), b)
            }
        }),
{
    let crc = crc32_iso_hdlc(covered(payload, modulation));
    let sent = encoded(payload, modulation) + tail;
    let got = sent.update(i, b);
    lemma_parts(payload, modulation, crc, tail);
    if i < 16 {
        assert(got.subrange(0, 16)[i] == b);
        assert(sent.subrange(0, 16)[i] == sent[i]);
    } else if i < 20 {
        assert(got.subrange(0, 16) =~= sent.subrange(0, 16));
        assert(got.subrange(16, 20)[i - 16] == b);
        assert(sent.subrange(16, 20)[i - 16] == sent[i]);
    } else if i >= PAYLOAD_START + payload.len() {
        let at = PAYLOAD_START + payload.len();
        assert(got.subrange(0, 16) =~= sent.subrange(0, 16));
        assert(got.subrange(16, 20) =~= sent.subrange(16, 20));
        assert(got.subrange(20, 22) =~= sent.subrange(20, 22));
        assert(checked_part(got) =~= checked_part(sent));
        let field = got.subrange(at, at + 4);
        assert(field =~= sent.subrange(at, at + 4).update(i - at, b));
        law_from_le_roundtrip(field);
        assert(field[i - at] != le32(crc as nat)[i - at]);
    }
}

/// Different registers stay different.
proof fn lemma_shifts_tell_apart(c: u32, d: u32, n: nat)
    requires
        c != d,
    ensures
        crc_shifts(c, n) != crc_shifts(d, n),
    decreases n,
{
    if n > 0 {
        lemma_shifts_tell_apart(c, d, (n - 1) as nat);
        let (x, y) = (crc_shifts(c, (n - 1) as nat), crc_shifts(d, (n - 1) as nat));
        assert(crc_shift(x) != crc_shift(y)) by (bit_vector)
            requires
                x != y,
        ;
    }
}

/// Content that differs in one byte has another register at the end.
proof fn lemma_register_tells_apart(data: Seq<u8>, i: int, b: u8)
    requires
        0 <= i < data.len(),
        b != data[i],
    ensures
        crc_register(data.update(i, b)) != crc_register(data),
    decreases data.len(),
{
    let other = data.update(i, b);
    let (c, d) = (crc_register(data.drop_last()), crc_register(other.drop_last()));
    let (p, q) = (data.last(), other.last());
    if i == data.len() - 1 {
        assert(other.drop_last() =~= data.drop_last());
        assert(c ^ (p as u32) != c ^ (q as u32)) by (bit_vector)
            requires
                p != q,
        ;
    } else {
        assert(other.drop_last() =~= data.drop_last().update(i, b));
        lemma_register_tells_apart(data.drop_last(), i, b);
        assert(c ^ (p as u32) != d ^ (p as u32)) by (bit_vector)
            requires
                c != d,
        ;
    }
    lemma_shifts_tell_apart(c ^ (p as u32), d ^ (q as u32), 8);
}

/// Content that differs in one byte has another checksum.
pub proof fn law_checksum_tells_single_bytes_apart(data: Seq<u8>, i: int, b: u8)
    requires
        0 <= i < data.len(),
        b != data[i],
    ensures
        crc32_iso_hdlc(data.update(i, b)) != crc32_iso_hdlc(data),
{
    reveal(crc32_iso_hdlc);
    lemma_register_tells_apart(data, i, b);
    let (c, d) = (crc_register(data), crc_register(data.update(i, b)));
    assert(c ^ 0xffff_ffff != d ^ 0xffff_ffff) by (bit_vector)
        requires
            c != d,
    ;
}

/// One wrong payload byte is always noticed.
#[verifier::rlimit(40)]
pub proof fn law_damaged_payload_is_refused(
    payload: Seq<u8>,
    modulation: Modulation,
    tail: Seq<u8>,
    i: int,
    b: u8,
)
    requires
        payload.len() <= MAX_PAYLOAD,
        0 <= i < payload.len(),
        b != payload[i],
    ensures
        decoded((encoded(payload, modulation) + tail).update(PAYLOAD_START + i, b)) == Err::<
            Reading,
            FrameError,
        >(
            FrameError::BadCrc {
                expected: crc32_iso_hdlc(covered(payload, modulation)),
                actual: crc32_iso_hdlc(covered(payload.update(i, b), modulation)),
            },
        ),
{
    let crc = crc32_iso_hdlc(covered(payload, modulation));
    let sent = encoded(payload, modulation) + tail;
    let got = sent.update(PAYLOAD_START + i, b);
    lemma_parts(payload, modulation, crc, tail);
    let other = framed(payload.update(i, b), modulation, crc) + tail;
    lemma_parts(payload.update(i, b), modulation, crc, tail);
    assert(got =~= other);
    assert(covered(payload.update(i, b), modulation) =~= covered(payload, modulation).update(
        3 + i,
        b,
    ));
    law_checksum_tells_single_bytes_apart(covered(payload, modulation), 3 + i, b);
}

// ---------------------------------------------------------------------------------------------
// Bits
// ---------------------------------------------------------------------------------------------

/// Bit `k` of `b`, counted from the most significant.
pub open spec fn bit_of(b: u8, k: int) -> u8 {
    (b >> ((7 - k) as u8)) & 1
}

/// The byte whose bits, most significant first, are the low bits of the entries of `bits`; of
/// more than eight entries the last eight count.
pub open spec fn packed(bits: Seq<u8>) -> u8
    decreases bits.len(),
{
    if bits.len() == 0 {
        0
    } else {
        (packed(bits.drop_last()) << 1) | (bits.last() & 1)
    }
}

/// The bits of `bytes`, most significant first in each byte.
pub open spec fn bits_of(bytes: Seq<u8>) -> Seq<u8> {
    Seq::new(8 * bytes.len(), |i: int| bit_of(bytes[i / 8], i % 8))
}

/// The bytes that each group of eight bits makes; what is left over is dropped.
pub open spec fn bytes_of(bits: Seq<u8>) -> Seq<u8> {
    Seq::new(bits.len() / 8, |i: int| packed(bits.subrange(8 * i, 8 * i + 8)))
}

/// Convert a byte slice into a flat Vec of bits (most significant first per byte). Values are 0
/// or 1.
pub fn bytes_to_bits(bytes: &[u8]) -> (bits: Vec<u8>)
    requires
        8 * bytes@.len() <= usize::MAX,
    ensures
        bits@ == bits_of(bytes@),
{
    let mut bits: Vec<u8> = Vec::with_capacity(bytes.len() * 8);
    let mut i: usize = 0;
    while i < bytes.len()
        invariant
            i <= bytes@.len(),
            bits@.len() == 8 * i,
            forall|p: int| 0 <= p < 8 * i ==> bits@[p] == bit_of(bytes@[p / 8], p % 8),
        decreases bytes@.len() - i,
    {
        let b: u8 = bytes[i];
        let mut k: u8 = 0;
        while k < 8
            invariant
                i < bytes@.len(),
                b == bytes@[i as int],
                k <= 8,
                bits@.len() == 8 * i + k,
                forall|p: int|
                    0 <= p < 8 * i + k ==> bits@[p] == bit_of(bytes@[p / 8], p % 8),
            decreases 8 - k,
        {
            bits.push((b >> (7 - k)) & 1);
            assert((8 * i + k) / 8 == i && (8 * i + k) % 8 == k);
            k = k + 1;
        }
        i = i + 1;
    }
    assert(bits@ =~= bits_of(bytes@));
    bits
}

/// Inverse of [`bytes_to_bits`]. Drops any trailing bits that don't fill a byte.
pub fn bits_to_bytes(bits: &[u8]) -> (out: Vec<u8>)
    ensures
        out@ == bytes_of(bits@),
{
    let n: usize = bits.len() / 8;
    let mut out: Vec<u8> = Vec::with_capacity(n);
    let mut i: usize = 0;
    while i < n
        invariant
            i <= n == bits@.len() as usize / 8,
            bits@.len() <= usize::MAX,
            out@.len() == i,
            forall|p: int|
                0 <= p < i ==> out@[p] == packed(#[trigger] bits@.subrange(8 * p, 8 * p + 8)),
        decreases n - i,
    {
        let mut b: u8 = 0;
        let mut k: usize = 0;
        while k < 8
            invariant
                k <= 8,
                8 * i + 8 <= bits@.len() <= usize::MAX,
                b == packed(bits@.subrange(8 * i, 8 * i + k)),
            decreases 8 - k,
        {
            let bit: u8 = bits[8 * i + k];
            b = (b << 1) | (bit & 1);
            assert(bits@.subrange(8 * i, 8 * i + k + 1).drop_last() =~= bits@.subrange(
                8 * i,
                8 * i + k,
            ));
            k = k + 1;
        }
        out.push(b);
        i = i + 1;
    }
    assert(out@ =~= bytes_of(bits@));
    out
}

proof fn lemma_packed_eight(g: Seq<u8>)
    requires
        g.len() == 8,
    ensures
        packed(g) == ((g[0] & 1) << 7) | ((g[1] & 1) << 6) | ((g[2] & 1) << 5) | ((g[3] & 1) << 4)
            | ((g[4] & 1) << 3) | ((g[5] & 1) << 2) | ((g[6] & 1) << 1) | (g[7] & 1),
{
    reveal_with_fuel(packed, 9);
    let (b0, b1, b2, b3, b4, b5, b6, b7) = (g[0], g[1], g[2], g[3], g[4], g[5], g[6], g[7]);
    let p0 = (0u8 << 1) | (b0 & 1);
    let p1 = (p0 << 1) | (b1 & 1);
    let p2 = (p1 << 1) | (b2 & 1);
    let p3 = (p2 << 1) | (b3 & 1);
    let p4 = (p3 << 1) | (b4 & 1);
    let p5 = (p4 << 1) | (b5 & 1);
    let p6 = (p5 << 1) | (b6 & 1);
    let p7 = (p6 << 1) | (b7 & 1);
    assert(packed(g) == p7);
    assert(p7 == ((b0 & 1) << 7) | ((b1 & 1) << 6) | ((b2 & 1) << 5) | ((b3 & 1) << 4) | ((b4 & 1)
        << 3) | ((b5 & 1) << 2) | ((b6 & 1) << 1) | (b7 & 1)) by (bit_vector)
        requires
            p0 == (0u8 << 1) | (b0 & 1),
            p1 == (p0 << 1) | (b1 & 1),
            p2 == (p1 << 1) | (b2 & 1),
            p3 == (p2 << 1) | (b3 & 1),
            p4 == (p3 << 1) | (b4 & 1),
            p5 == (p4 << 1) | (b5 & 1),
            p6 == (p5 << 1) | (b6 & 1),
            p7 == (p6 << 1) | (b7 & 1),
    ;
}

proof fn lemma_byte_is_packed_from_its_bits(b: u8, g: Seq<u8>)
    requires
        g.len() == 8,
        forall|k: int| 0 <= k < 8 ==> #[trigger] g[k] == bit_of(b, k),
    ensures
        packed(g) == b,
{
    lemma_packed_eight(g);
    assert(((((b >> 7) & 1) & 1) << 7) | ((((b >> 6) & 1) & 1) << 6) | ((((b >> 5) & 1) & 1) << 5)
        | ((((b >> 4) & 1) & 1) << 4) | ((((b >> 3) & 1) & 1) << 3) | ((((b >> 2) & 1) & 1) << 2)
        | ((((b >> 1) & 1) & 1) << 1) | (((b >> 0) & 1) & 1) == b) by (bit_vector);
    assert(g[0] == (b >> 7) & 1 && g[1] == (b >> 6) & 1 && g[2] == (b >> 5) & 1 && g[3] == (b >> 4)
        & 1 && g[4] == (b >> 3) & 1 && g[5] == (b >> 2) & 1 && g[6] == (b >> 1) & 1 && g[7] == (b
        >> 0) & 1);
}

proof fn lemma_bits_of_packed(g: Seq<u8>, k: int)
    requires
        g.len() == 8,
        forall|j: int| 0 <= j < 8 ==> #[trigger] g[j] <= 1,
        0 <= k < 8,
    ensures
        bit_of(packed(g), k) == g[k],
{
    lemma_packed_eight(g);
    let (b0, b1, b2, b3, b4, b5, b6, b7) = (g[0], g[1], g[2], g[3], g[4], g[5], g[6], g[7]);
    let p = packed(g);
    assert(((p >> 7) & 1) == b0 && ((p >> 6) & 1) == b1 && ((p >> 5) & 1) == b2 && ((p >> 4) & 1)
        == b3 && ((p >> 3) & 1) == b4 && ((p >> 2) & 1) == b5 && ((p >> 1) & 1) == b6 && ((p >> 0)
        & 1) == b7) by (bit_vector)
        requires
            p == ((b0 & 1) << 7) | ((b1 & 1) << 6) | ((b2 & 1) << 5) | ((b3 & 1) << 4) | ((b4 & 1)
                << 3) | ((b5 & 1) << 2) | ((b6 & 1) << 1) | (b7 & 1),
            b0 <= 1,
            b1 <= 1,
            b2 <= 1,
            b3 <= 1,
            b4 <= 1,
            b5 <= 1,
            b6 <= 1,
            b7 <= 1,
    ;
}

/// Bits are zeros and ones.
pub proof fn law_bits_are_binary(bytes: Seq<u8>, i: int)
    requires
        0 <= i < bits_of(bytes).len(),
    ensures
        bits_of(bytes)[i] <= 1,
{
    let b = bytes[i / 8] >> ((7 - i % 8) as u8);
    assert(b & 1 <= 1) by (bit_vector);
}

/// Packing the bits of some bytes gives the bytes, also when up to seven bits follow.
pub proof fn law_bits_roundtrip(bytes: Seq<u8>, rest: Seq<u8>)
    requires
        rest.len() < 8,
    ensures
        bytes_of(bits_of(bytes) + rest) == bytes,
{
    let bits = bits_of(bytes) + rest;
    assert forall|i: int| 0 <= i < bytes.len() implies bytes_of(bits)[i] == bytes[i] by {
        let g = bits.subrange(8 * i, 8 * i + 8);
        assert forall|k: int| 0 <= k < 8 implies #[trigger] g[k] == bit_of(bytes[i], k) by {
            assert((8 * i + k) / 8 == i && (8 * i + k) % 8 == k);
        }
        lemma_byte_is_packed_from_its_bits(bytes[i], g);
    }
    assert(bytes_of(bits) =~= bytes);
}

/// Bytes made from one run of whole bytes and then another are the bytes of the first followed
/// by the bytes of the second.
pub proof fn law_bytes_of_concatenation(head: Seq<u8>, rest: Seq<u8>)
    requires
        head.len() % 8 == 0,
    ensures
        bytes_of(head + rest) == bytes_of(head) + bytes_of(rest),
{
    let n = head.len() / 8;
    assert forall|i: int| 0 <= i < (head + rest).len() / 8 implies bytes_of(head + rest)[i] == (
    bytes_of(head) + bytes_of(rest))[i] by {
        let g = (head + rest).subrange(8 * i, 8 * i + 8);
        if i < n {
            assert(g =~= head.subrange(8 * i, 8 * i + 8));
        } else {
            assert(g =~= rest.subrange(8 * (i - n), 8 * (i - n) + 8));
        }
    }
    assert(bytes_of(head + rest) =~= bytes_of(head) + bytes_of(rest));
}

/// Unpacking whole bytes that were packed from zeros and ones gives these zeros and ones.
pub proof fn law_bytes_roundtrip(bits: Seq<u8>)
    requires
        bits.len() % 8 == 0,
        forall|i: int| 0 <= i < bits.len() ==> #[trigger] bits[i] <= 1,
    ensures
        bits_of(bytes_of(bits)) == bits,
{
    assert forall|i: int| 0 <= i < bits.len() implies bits_of(bytes_of(bits))[i] == bits[i] by {
        let g = bits.subrange(8 * (i / 8), 8 * (i / 8) + 8);
        lemma_bits_of_packed(g, i % 8);
    }
    assert(bits_of(bytes_of(bits)) =~= bits);
}

/// The coherent symbols of the training preamble (+1 and -1 on the real axis). The receiver uses
/// these as known targets when adapting the equalizer.
pub fn training_symbols<M: Arithmetic>() -> (symbols: Vec<M::Symbol>)
    ensures
        symbols@ == modulated::<M>(bits_of(TRAINING_SEQUENCE@)),
        symbols@.len() == 128,
{
    let bits = bytes_to_bits(&TRAINING_SEQUENCE);
    modulate::<M>(bits.as_slice())
}

} // verus!
