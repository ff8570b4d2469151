//! How numbers read in a name or a message: decimal, padded decimal and
//! hexadecimal digits, as a specification and as code.

use vstd::prelude::*;

verus! {

/// The character of one digit below sixteen, lower case.
pub open spec fn digit(d: int) -> char {
    if d == 0 {
        '0'
    } else if d == 1 {
        '1'
    } else if d == 2 {
        '2'
    } else if d == 3 {
        '3'
    } else if d == 4 {
        '4'
    } else if d == 5 {
        '5'
    } else if d == 6 {
        '6'
    } else if d == 7 {
        '7'
    } else if d == 8 {
        '8'
    } else if d == 9 {
        '9'
    } else if d == 10 {
        'a'
    } else if d == 11 {
        'b'
    } else if d == 12 {
        'c'
    } else if d == 13 {
        'd'
    } else if d == 14 {
        'e'
    } else {
        'f'
    }
}

/// `n` in decimal, no sign and no leading zeros.
pub open spec fn decimal(n: nat) -> Seq<char>
    decreases n,
{
    if n < 10 {
        seq![digit(n as int)]
    } else {
        decimal(n / 10).push(digit((n % 10) as int))
    }
}

/// `n` in decimal, with zeros in front up to `width` characters.
pub open spec fn padded(n: nat, width: nat) -> Seq<char> {
    if decimal(n).len() < width {
        Seq::new((width - decimal(n).len()) as nat, |i: int| '0') + decimal(n)
    } else {
        decimal(n)
    }
}

/// A byte as `0x` and two hexadecimal digits.
pub open spec fn hex_byte(byte: u8) -> Seq<char> {
    "0x"@.push(digit((byte / 16) as int)).push(digit((byte % 16) as int))
}

/// Append the character of the digit `d`.
fn push_digit(out: &mut String, d: u8)
    requires
        d < 16,
    ensures
        final(out)@ == old(out)@.push(digit(d as int)),
{
    let text = match d {
        0 => "0",
        1 => "1",
        2 => "2",
        3 => "3",
        4 => "4",
        5 => "5",
        6 => "6",
        7 => "7",
        8 => "8",
        9 => "9",
        10 => "a",
        11 => "b",
        12 => "c",
        13 => "d",
        14 => "e",
        _ => "f",
    };
    proof {
        reveal_strlit("0");
        reveal_strlit("1");
        reveal_strlit("2");
        reveal_strlit("3");
        reveal_strlit("4");
        reveal_strlit("5");
        reveal_strlit("6");
        reveal_strlit("7");
        reveal_strlit("8");
        reveal_strlit("9");
        reveal_strlit("a");
        reveal_strlit("b");
        reveal_strlit("c");
        reveal_strlit("d");
        reveal_strlit("e");
        reveal_strlit("f");
        assert(text@ =~= seq![digit(d as int)]);
    }
    out.append(text);
    assert(out@ =~= old(out)@.push(digit(d as int)));
}

/// Append `n` in decimal.
pub fn push_decimal(out: &mut String, n: u64)
    ensures
        final(out)@ == old(out)@ + decimal(n as nat),
    decreases n,
{
    if n >= 10 {
        push_decimal(out, n / 10);
    }
    push_digit(out, (n % 10) as u8);
    assert(out@ =~= old(out)@ + decimal(n as nat));
}

/// Append `byte` as `0x` and two hexadecimal digits.
pub fn push_hex_byte(out: &mut String, byte: u8)
    ensures
        final(out)@ == old(out)@ + hex_byte(byte),
{
    out.append("0x");
    push_digit(out, byte / 16);
    push_digit(out, byte % 16);
    assert(out@ =~= old(out)@ + hex_byte(byte));
}

/// Append `n` in decimal, with zeros in front up to `width` characters.
pub fn push_padded(out: &mut String, n: u64, width: usize)
    ensures
        final(out)@ == old(out)@ + padded(n as nat, width as nat),
{
    let mut rest: u64 = n;
    let mut filled: u64 = 1;
    while rest >= 10
        invariant
            1 <= filled,
            filled + rest <= n + 1,
            decimal(n as nat).len() + 1 == filled + decimal(rest as nat).len(),
        decreases rest,
    {
        rest = rest / 10;
        filled = filled + 1;
    }
    let ghost length = decimal(n as nat).len();
    while filled < width as u64
        invariant
            length <= filled,
            length < filled ==> filled <= width,
            out@ == old(out)@ + Seq::new((filled - length) as nat, |i: int| '0'),
        decreases width - filled,
    {
        push_digit(out, 0);
        filled = filled + 1;
        assert(out@ =~= old(out)@ + Seq::new((filled - length) as nat, |i: int| '0'));
    }
    push_decimal(out, n);
    assert(out@ =~= old(out)@ + padded(n as nat, width as nat));
}

/// Decimal is positional: one more digit behind a number's digits is ten
/// times the number and the digit, and a number below ten is its own digit.
pub proof fn law_decimal_is_positional(n: nat, d: nat)
    requires
        d < 10,
    ensures
        decimal(d) == seq![(48 + d) as char],
        n > 0 ==> decimal(n * 10 + d) == decimal(n).push((48 + d) as char),
{
    assert(digit(d as int) == (48 + d) as char);
    if n > 0 {
        assert((n * 10 + d) / 10 == n && (n * 10 + d) % 10 == d);
    }
}

/// A padded number closes with its decimal, has nothing but zeros in front
/// of it, and is as wide as asked unless the number alone is wider.
pub proof fn law_padding_is_zeros_in_front(n: nat, width: nat)
    ensures
        padded(n, width).len() == if decimal(n).len() < width {
            width
        } else {
            decimal(n).len()
        },
        padded(n, width).skip(padded(n, width).len() - decimal(n).len()) == decimal(n),
        forall|i: int|
            0 <= i < padded(n, width).len() - decimal(n).len() ==> #[trigger] padded(n, width)[i]
                == '0',
{
    let all = padded(n, width);
    assert(all.skip(all.len() - decimal(n).len()) =~= decimal(n));
}

/// A byte in hexadecimal is `0x` and its two half bytes, high first, each a
/// digit or a lower case letter from `a` for ten.
pub proof fn law_hexadecimal_is_two_half_bytes(byte: u8)
    ensures
        hex_byte(byte).len() == 4,
        hex_byte(byte)[0] == '0',
        hex_byte(byte)[1] == 'x',
        hex_byte(byte)[2] as int == if byte / 16 < 10 {
            48 + byte / 16
        } else {
            87 + byte / 16
        },
        hex_byte(byte)[3] as int == if byte % 16 < 10 {
            48 + byte % 16
        } else {
            87 + byte % 16
        },
{
    reveal_strlit("0x");
}

} // verus!
