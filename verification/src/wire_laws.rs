//! Laws of numbers in messages and of packets on the wire.

use vstd::prelude::*;

use crate::config::Modulation;
use crate::frame::{
    bit_of, bits_of, covered, crc32_iso_hdlc, decoded, encoded, from_le, le16, le32, markers,
    FrameError, Reading, SYNC_WORD, TRAINING_SEQUENCE,
};
use crate::text::{decimal, digit_char, hex, signed_decimal};

verus! {

// ---------------------------------------------------------------------------------------------
// Numbers
// ---------------------------------------------------------------------------------------------

/// What a digit counts for.
pub open spec fn digit_value(c: char) -> int {
    if '0' <= c <= '9' {
        c as int - '0' as int
    } else {
        c as int - 'a' as int + 10
    }
}

/// Whether `c` is a digit to `base`, written in lower case.
pub open spec fn is_digit(c: char, base: int) -> bool {
    ('0' <= c <= '9' || 'a' <= c <= 'f') && digit_value(c) < base
}

/// The number that the digits `s` stand for.
pub open spec fn number(s: Seq<char>, base: int) -> int
    decreases s.len(),
{
    if s.len() == 0 {
        0
    } else {
        number(s.drop_last(), base) * base + digit_value(s.last())
    }
}

/// A number is written with the digits that stand for it, without a leading zero.
pub proof fn law_decimal_stands_for_its_number(n: nat)
    ensures
        number(decimal(n), 10) == n,
        decimal(n).len() > 0,
        forall|i: int| 0 <= i < decimal(n).len() ==> is_digit(#[trigger] decimal(n)[i], 10),
        n > 0 ==> decimal(n)[0] != '0',
        n == 0 ==> decimal(n) == seq!['0'],
    decreases n,
{
    reveal_with_fuel(number, 2);
    if n < 10 {
        let s = seq![digit_char(n)];
        assert(s.drop_last() =~= Seq::<char>::empty());
        assert(number(s, 10) == digit_value(digit_char(n)));
    } else {
        law_decimal_stands_for_its_number(n / 10);
        let s = decimal(n / 10);
        assert(s.push(digit_char(n % 10)).drop_last() =~= s);
        assert(digit_value(digit_char(n % 10)) == n % 10);
    }
}

/// A signed number is written with its sign, a plus from zero on.
pub proof fn law_signed_decimal_stands_for_its_number(n: int)
    ensures
        signed_decimal(n)[0] == if n < 0 {
            '-'
        } else {
            '+'
        },
        number(signed_decimal(n).subrange(1, signed_decimal(n).len() as int), 10) == if n < 0 {
            -n
        } else {
            n
        },
{
    let m = if n < 0 {
        (-n) as nat
    } else {
        n as nat
    };
    law_decimal_stands_for_its_number(m);
    assert(signed_decimal(n).subrange(1, signed_decimal(n).len() as int) =~= decimal(m));
}

/// How many numbers `width` digits to base 16 can tell apart.
pub open spec fn sixteens(width: nat) -> nat
    decreases width,
{
    if width == 0 {
        1
    } else {
        16 * sixteens((width - 1) as nat)
    }
}

/// A number to base 16 has as many digits as asked for, and they stand for it if it fits.
pub proof fn law_hex_stands_for_its_number(n: nat, width: nat)
    ensures
        hex(n, width).len() == width,
        forall|i: int| 0 <= i < width ==> is_digit(#[trigger] hex(n, width)[i], 16),
        n < sixteens(width) ==> number(hex(n, width), 16) == n,
    decreases width,
{
    if width > 0 {
        let m = (width - 1) as nat;
        law_hex_stands_for_its_number(n / 16, m);
        let s = hex(n / 16, m);
        assert(s.push(digit_char(n % 16)).drop_last() =~= s);
        assert(digit_value(digit_char(n % 16)) == n % 16);
        assert(is_digit(digit_char(n % 16), 16));
    }
}

/// Eight digits are enough for every checksum.
pub proof fn law_checksums_are_written_in_full(crc: u32)
    ensures
        number(hex(crc as nat, 8), 16) == crc,
        hex(crc as nat, 8).len() == 8,
{
    reveal_with_fuel(sixteens, 9);
    law_hex_stands_for_its_number(crc as nat, 8);
}

// ---------------------------------------------------------------------------------------------
// Bits
// ---------------------------------------------------------------------------------------------

proof fn lemma_byte_is_its_bits(b: u8)
    ensures
        b == 128 * bit_of(b, 0) + 64 * bit_of(b, 1) + 32 * bit_of(b, 2) + 16 * bit_of(b, 3) + 8
            * bit_of(b, 4) + 4 * bit_of(b, 5) + 2 * bit_of(b, 6) + bit_of(b, 7),
{
    assert(b == 128 * ((b >> 7u8) & 1) + 64 * ((b >> 6u8) & 1) + 32 * ((b >> 5u8) & 1) + 16 * ((b
        >> 4u8) & 1) + 8 * ((b >> 3u8) & 1) + 4 * ((b >> 2u8) & 1) + 2 * ((b >> 1u8) & 1) + ((b
        >> 0u8) & 1)) by (bit_vector);
}

/// The bits of a byte are sent from the most significant to the least.
pub proof fn law_bits_run_from_the_most_significant(bytes: Seq<u8>, i: int)
    requires
        0 <= i < bytes.len(),
    ensures
        bits_of(bytes).len() == 8 * bytes.len(),
        bytes[i] == 128 * bits_of(bytes)[8 * i] + 64 * bits_of(bytes)[8 * i + 1] + 32 * bits_of(
            bytes,
        )[8 * i + 2] + 16 * bits_of(bytes)[8 * i + 3] + 8 * bits_of(bytes)[8 * i + 4] + 4 * bits_of(
            bytes,
        )[8 * i + 5] + 2 * bits_of(bytes)[8 * i + 6] + bits_of(bytes)[8 * i + 7],
{
    let b = bytes[i];
    lemma_byte_is_its_bits(b);
    assert forall|k: int| 0 <= k < 8 implies #[trigger] bits_of(bytes)[8 * i + k] == bit_of(
        b,
        k,
    ) by {
        assert((8 * i + k) / 8 == i && (8 * i + k) % 8 == k);
    }
    assert(bits_of(bytes)[8 * i + 0] == bit_of(b, 0));
}

// ---------------------------------------------------------------------------------------------
// Packets
// ---------------------------------------------------------------------------------------------

/// The number in the bytes of `b` from `at` on, two of them, the lower first.
pub open spec fn two_bytes(b: Seq<u8>, at: int) -> int {
    b[at] + 256 * b[at + 1]
}

/// The number in the bytes of `b` from `at` on, four of them, the lowest first.
pub open spec fn four_bytes(b: Seq<u8>, at: int) -> int {
    b[at] + 256 * b[at + 1] + 65_536 * b[at + 2] + 16_777_216 * b[at + 3]
}

/// The training sequence is frozen, so that both sides agree on it.
pub proof fn law_training_sequence_is_frozen()
    ensures
        TRAINING_SEQUENCE@ == seq![
            0xB8u8, 0xA0u8, 0x1Bu8, 0x59u8, 0xA9u8, 0xBEu8, 0x42u8, 0x73u8, 0xC4u8, 0xF6u8, 0xD2u8,
            0x9Du8, 0x37u8, 0x0Eu8, 0x65u8, 0x8Fu8,
        ],
{
}

/// A packet is the training sequence, the sync word, the length of the payload in two bytes, the
/// modulation, the payload, and the checksum of what follows the sync word in four bytes.
pub proof fn law_packet_layout(payload: Seq<u8>, modulation: Modulation)
    requires
        payload.len() <= 65_535,
    ensures
        ({
            let e = encoded(payload, modulation);
            let n = payload.len() as int;
            &&& e.len() == 27 + n
            &&& e.subrange(0, 16) == TRAINING_SEQUENCE@
            &&& e[16] == 0x1A && e[17] == 0xCF && e[18] == 0xFC && e[19] == 0x1D
            &&& two_bytes(e, 20) == n
            &&& e[22] == 0
            &&& e.subrange(23, 23 + n) == payload
            &&& four_bytes(e, 23 + n) == crc32_iso_hdlc(e.subrange(20, 23 + n))
        }),
{
    let e = encoded(payload, modulation);
    let n = payload.len() as int;
    let part = covered(payload, modulation);
    let crc = crc32_iso_hdlc(part);
    assert(markers().len() == 20);
    assert(part.len() == 3 + n);
    assert(e.subrange(0, 16) =~= TRAINING_SEQUENCE@);
    assert(e.subrange(20, 23 + n) =~= part);
    assert(e.subrange(23, 23 + n) =~= payload);
    assert(e[16] == SYNC_WORD@[0] && e[17] == SYNC_WORD@[1] && e[18] == SYNC_WORD@[2] && e[19]
        == SYNC_WORD@[3]);
    assert(e[20] == part[0] && e[21] == part[1] && e[22] == part[2]);
    assert(part[0] == le16(n as nat)[0] && part[1] == le16(n as nat)[1]);
    assert(forall|i: int| 0 <= i < 4 ==> e[23 + n + i] == #[trigger] le32(crc as nat)[i]);
    assert(e[23 + n] == le32(crc as nat)[0]);
    let c = crc as int;
    assert(c == c % 256 + 256 * (c / 256 % 256) + 65_536 * (c / 65_536 % 256) + 16_777_216 * (c
        / 16_777_216 % 256));
}

proof fn lemma_from_two(b: Seq<u8>, at: int)
    requires
        0 <= at,
        at + 2 <= b.len(),
    ensures
        from_le(b.subrange(at, at + 2)) == two_bytes(b, at),
{
    reveal_with_fuel(from_le, 3);
    let s = b.subrange(at, at + 2);
    assert(s.subrange(1, 2) =~= seq![b[at + 1]]);
    assert(seq![b[at + 1]].subrange(1, 1) =~= Seq::<u8>::empty());
}

proof fn lemma_from_four(b: Seq<u8>, at: int)
    requires
        0 <= at,
        at + 4 <= b.len(),
    ensures
        from_le(b.subrange(at, at + 4)) == four_bytes(b, at),
{
    reveal_with_fuel(from_le, 5);
    let s = b.subrange(at, at + 4);
    assert(s.subrange(1, 4) =~= b.subrange(at + 1, at + 4));
    assert(b.subrange(at + 1, at + 4).subrange(1, 3) =~= b.subrange(at + 2, at + 4));
    assert(b.subrange(at + 2, at + 4).subrange(1, 2) =~= b.subrange(at + 3, at + 4));
    assert(b.subrange(at + 3, at + 4).subrange(1, 1) =~= Seq::<u8>::empty());
}

/// What is wrong with a packet is told in the order of its parts, and a packet with nothing wrong
/// gives its payload.
pub proof fn law_first_fault_is_told(b: Seq<u8>)
    requires
        b.len() <= usize::MAX,
    ensures
        ({
            let n = two_bytes(b, 20);
            let sent = four_bytes(b, 23 + n);
            let sum = crc32_iso_hdlc(b.subrange(20, 23 + n));
            let told = decoded(b);
            if b.len() < 27 {
                told == Err::<Reading, FrameError>(FrameError::TooShort)
            } else if b.subrange(0, 16) != TRAINING_SEQUENCE@ {
                told == Err::<Reading, FrameError>(FrameError::BadTraining)
            } else if !(b[16] == 0x1A && b[17] == 0xCF && b[18] == 0xFC && b[19] == 0x1D) {
                told == Err::<Reading, FrameError>(FrameError::BadSync)
            } else if b[22] != 0 {
                told == Err::<Reading, FrameError>(FrameError::UnknownModulation(b[22]))
            } else if b.len() < 27 + n {
                told == Err::<Reading, FrameError>(
                    FrameError::Truncated { expected: (27 + n) as usize, actual: b.len() as usize },
                )
            } else if sent != sum {
                told == Err::<Reading, FrameError>(
                    FrameError::BadCrc { expected: sent as u32, actual: sum },
                )
            } else {
                told == Ok::<Reading, FrameError>(
                    Reading {
                        modulation: Modulation::Bpsk,
                        payload: b.subrange(23, 23 + n),
                        consumed: (27 + n) as nat,
                    },
                )
            }
        }),
{
    if b.len() >= 27 {
        let n = two_bytes(b, 20);
        lemma_from_two(b, 20);
        let word = b.subrange(16, 20);
        if b[16] == 0x1A && b[17] == 0xCF && b[18] == 0xFC && b[19] == 0x1D {
            assert(word =~= SYNC_WORD@);
        } else {
            assert(word[0] == b[16] && word[1] == b[17] && word[2] == b[18] && word[3] == b[19]);
            assert(word != SYNC_WORD@);
        }
        if b.len() >= 27 + n {
            lemma_from_four(b, 23 + n);
        }
    }
}

} // verus!
