//! Numbers as they appear in messages.

use vstd::prelude::*;
use vstd::string::*;

verus! {

/// The character for a digit below sixteen.
pub open spec fn digit_char(d: nat) -> char
    recommends
        d < 16,
{
    if d < 10 {
        ('0' as nat + d) as char
    } else {
        ('a' as nat + (d - 10)) as char
    }
}

/// `n` in decimal, without leading zeros.
pub open spec fn decimal_chars(n: nat) -> Seq<char>
    decreases n,
{
    if n < 10 {
        seq![digit_char(n)]
    } else {
        decimal_chars(n / 10).push(digit_char(n % 10))
    }
}

/// The `width` lowest hexadecimal digits of `n`.
pub open spec fn hex_digits(n: nat, width: nat) -> Seq<char>
    decreases width,
{
    if width == 0 {
        Seq::empty()
    } else {
        hex_digits(n / 16, (width - 1) as nat).push(digit_char(n % 16))
    }
}

/// A 32-bit value as `0x` and eight hexadecimal digits.
pub open spec fn hex_chars(n: u32) -> Seq<char> {
    "0x"@ + hex_digits(n as nat, 8)
}

fn digit(d: u8) -> (s: &'static str)
    requires
        d < 16,
    ensures
        s@ == seq![digit_char(d as nat)],
{
    proof {
        reveal_strlit("0");
        reveal_strlit("1");
        reveal_strlit("2");
        reveal_strlit("3");
        reveal_strlit("4");
        reveal_strlit("5");
        reveal_strlit("6");
        reveal_strlit("7");
        reveal_strlit("8");
        reveal_strlit("9");
        reveal_strlit("a");
        reveal_strlit("b");
        reveal_strlit("c");
        reveal_strlit("d");
        reveal_strlit("e");
        reveal_strlit("f");
    }
    match d {
        0 => "0",
        1 => "1",
        2 => "2",
        3 => "3",
        4 => "4",
        5 => "5",
        6 => "6",
        7 => "7",
        8 => "8",
        9 => "9",
        10 => "a",
        11 => "b",
        12 => "c",
        13 => "d",
        14 => "e",
        _ => "f",
    }
}

/// Formats `n` in decimal.
pub fn decimal(n: u128) -> (s: String)
    ensures
        s@ == decimal_chars(n as nat),
    decreases n,
{
    if n < 10 {
        digit(n as u8).to_owned()
    } else {
        let mut s = decimal(n / 10);
        s.append(digit((n % 10) as u8));
        s
    }
}

fn hex_into(s: &mut String, n: u32, width: u32)
    requires
        width <= 8,
    ensures
        final(s)@ == old(s)@ + hex_digits(n as nat, width as nat),
    decreases width,
{
    if width > 0 {
        hex_into(s, n / 16, width - 1);
        s.append(digit((n % 16) as u8));
    }
    assert(s@ =~= old(s)@ + hex_digits(n as nat, width as nat));
}

/// Formats `n` as `0x` and eight hexadecimal digits.
pub fn hex(n: u32) -> (s: String)
    ensures
        s@ == hex_chars(n),
{
    let mut s = "0x".to_owned();
    hex_into(&mut s, n, 8);
    s
}

/// The digit that a character stands for.
pub open spec fn digit_value(c: char) -> int {
    if '0' <= c <= '9' {
        c as int - '0' as int
    } else {
        c as int - 'a' as int + 10
    }
}

/// The number that a sequence of digits stands for.
pub open spec fn number_value(digits: Seq<char>, base: int) -> int
    decreases digits.len(),
{
    if digits.len() == 0 {
        0
    } else {
        number_value(digits.drop_last(), base) * base + digit_value(digits.last())
    }
}

/// A number in decimal reads back as the number. It has decimal digits only,
/// and no zeros in front.
pub proof fn lemma_decimal_reads_back(n: nat)
    ensures
        number_value(decimal_chars(n), 10) == n,
        decimal_chars(n).len() > 0,
        forall|i: int|
            0 <= i < decimal_chars(n).len() ==> '0' <= #[trigger] decimal_chars(n)[i] <= '9',
        n > 0 ==> decimal_chars(n)[0] != '0',
    decreases n,
{
    let chars = decimal_chars(n);
    if n < 10 {
        assert(chars.drop_last() =~= Seq::empty());
        assert(number_value(Seq::empty(), 10) == 0);
    } else {
        lemma_decimal_reads_back(n / 10);
        assert(chars.drop_last() =~= decimal_chars(n / 10));
        assert(chars[0] == decimal_chars(n / 10)[0]);
        assert forall|i: int| 0 <= i < chars.len() implies '0' <= #[trigger] chars[i] <= '9' by {
            if i < chars.len() - 1 {
                assert(chars[i] == decimal_chars(n / 10)[i]);
            }
        }
    }
}

proof fn lemma_hex_digits_read_back(n: nat, width: nat)
    ensures
        hex_digits(n, width).len() == width,
        forall|i: int|
            0 <= i < width ==> ('0' <= #[trigger] hex_digits(n, width)[i] <= '9' || 'a'
                <= hex_digits(n, width)[i] <= 'f'),
        n < vstd::arithmetic::power::pow(16, width) ==> number_value(hex_digits(n, width), 16)
            == n,
    decreases width,
{
    vstd::arithmetic::power::lemma_pow0(16);
    if width > 0 {
        let less = (width - 1) as nat;
        lemma_hex_digits_read_back(n / 16, less);
        let chars = hex_digits(n, width);
        assert(chars.drop_last() =~= hex_digits(n / 16, less));
        assert(vstd::arithmetic::power::pow(16, width) == 16 * vstd::arithmetic::power::pow(
            16,
            less,
        )) by {
            reveal(vstd::arithmetic::power::pow);
        }
        assert forall|i: int| 0 <= i < width implies ('0' <= #[trigger] chars[i] <= '9' || 'a'
            <= chars[i] <= 'f') by {
            if i < width - 1 {
                assert(chars[i] == hex_digits(n / 16, less)[i]);
            }
        }
    }
}

/// A value in hexadecimal is `0x` and eight digits, and reads back as the
/// value.
pub proof fn lemma_hex_reads_back(n: u32)
    ensures
        hex_chars(n).len() == 10,
        hex_chars(n)[0] == '0' && hex_chars(n)[1] == 'x',
        number_value(hex_chars(n).skip(2), 16) == n,
        forall|i: int|
            2 <= i < 10 ==> ('0' <= #[trigger] hex_chars(n)[i] <= '9' || 'a' <= hex_chars(n)[i]
                <= 'f'),
{
    reveal_strlit("0x");
    lemma_hex_digits_read_back(n as nat, 8);
    assert(vstd::arithmetic::power::pow(16, 8) == 0x1_0000_0000) by {
        reveal_with_fuel(vstd::arithmetic::power::pow, 9);
    }
    assert(hex_chars(n).skip(2) =~= hex_digits(n as nat, 8));
}

} // verus!
