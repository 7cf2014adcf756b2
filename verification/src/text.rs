//! Numbers as text.

use vstd::prelude::*;
use vstd::string::*;

verus! {

/// The character for digit `d` of a number written in base 16 or less.
pub open spec fn digit_char(d: nat) -> char {
    if d < 10 {
        (48 + d) as char
    } else {
        (87 + d) as char
    }
}

/// `n` in base 10, without leading zeros.
pub open spec fn decimal(n: nat) -> Seq<char>
    decreases n,
{
    if n < 10 {
        seq![digit_char(n)]
    } else {
        decimal(n / 10).push(digit_char(n % 10))
    }
}

/// `n` in base 10 with its sign, also when it is not negative.
pub open spec fn signed_decimal(n: int) -> Seq<char> {
    if n < 0 {
        seq!['-'] + decimal((-n) as nat)
    } else {
        seq!['+'] + decimal(n as nat)
    }
}

/// The last `width` digits of `n` in base 16.
pub open spec fn hex(n: nat, width: nat) -> Seq<char>
    decreases width,
{
    if width == 0 {
        Seq::<char>::empty()
    } else {
        hex(n / 16, (width - 1) as nat).push(digit_char(n % 16))
    }
}

fn push_digit(s: &mut String, d: u64)
    requires
        d < 16,
    ensures
        final(s)@ == old(s)@.push(digit_char(d as nat)),
{
    let digit: &str = match d {
        0 => "0",
        1 => "1",
        2 => "2",
        3 => "3",
        4 => "4",
        5 => "5",
        6 => "6",
        7 => "7",
        8 => "8",
        9 => "9",
        10 => "a",
        11 => "b",
        12 => "c",
        13 => "d",
        14 => "e",
        _ => "f",
    };
    proof {
        reveal_strlit("0");
        reveal_strlit("1");
        reveal_strlit("2");
        reveal_strlit("3");
        reveal_strlit("4");
        reveal_strlit("5");
        reveal_strlit("6");
        reveal_strlit("7");
        reveal_strlit("8");
        reveal_strlit("9");
        reveal_strlit("a");
        reveal_strlit("b");
        reveal_strlit("c");
        reveal_strlit("d");
        reveal_strlit("e");
        reveal_strlit("f");
        assert(digit@ =~= seq![digit_char(d as nat)]);
    }
    s.append(digit);
    assert(s@ =~= old(s)@.push(digit_char(d as nat)));
}

/// Appends `n` in base 10.
pub fn push_decimal(s: &mut String, n: u64)
    ensures
        final(s)@ == old(s)@ + decimal(n as nat),
    decreases n,
{
    if n < 10 {
        push_digit(s, n);
    } else {
        push_decimal(s, n / 10);
        push_digit(s, n % 10);
    }
    assert(s@ =~= old(s)@ + decimal(n as nat));
}

/// Appends `n` in base 10 with its sign.
pub fn push_signed(s: &mut String, n: i32)
    ensures
        final(s)@ == old(s)@ + signed_decimal(n as int),
{
    let wide: i64 = n as i64;
    proof {
        reveal_strlit("-");
        reveal_strlit("+");
    }
    if wide < 0 {
        s.append("-");
        push_decimal(s, (-wide) as u64);
    } else {
        s.append("+");
        push_decimal(s, wide as u64);
    }
    assert(s@ =~= old(s)@ + signed_decimal(n as int));
}

/// Appends the last `width` digits of `n` in base 16.
pub fn push_hex(s: &mut String, n: u64, width: u8)
    ensures
        final(s)@ == old(s)@ + hex(n as nat, width as nat),
    decreases width,
{
    if width > 0 {
        push_hex(s, n / 16, width - 1);
        push_digit(s, n % 16);
    }
    assert(s@ =~= old(s)@ + hex(n as nat, width as nat));
}

} // verus!
