//! Decimal notation of unsigned numbers, as bytes and as text.

use vstd::arithmetic::power::{lemma_pow_adds, pow};
use vstd::prelude::*;

verus! {

/// The ASCII digit of a number below ten.
pub open spec fn digit(d: nat) -> u8 {
    (0x30 + d) as u8
}

/// The decimal digits of `n`, most significant first, without leading zeros.
pub open spec fn decimal(n: nat) -> Seq<u8>
    decreases n,
{
    if n < 10 {
        seq![digit(n)]
    } else {
        decimal(n / 10).push(digit(n % 10))
    }
}

/// ASCII bytes read as characters.
pub open spec fn ascii_text(bytes: Seq<u8>) -> Seq<char> {
    Seq::new(bytes.len(), |i: int| bytes[i] as char)
}

/// Whether a byte is an ASCII digit.
pub open spec fn is_digit(b: u8) -> bool {
    0x30 <= b <= 0x39
}

/// The number that a sequence of digits denotes.
pub open spec fn digits_value(digits: Seq<u8>) -> nat
    decreases digits.len(),
{
    if digits.len() == 0 {
        0
    } else {
        digits_value(digits.drop_last()) * 10 + (digits.last() - 0x30) as nat
    }
}

/// Whether `digits` is a number in decimal notation, leading zeros allowed.
pub open spec fn is_number(digits: Seq<u8>) -> bool {
    &&& digits.len() > 0
    &&& forall|i: int| 0 <= i < digits.len() ==> is_digit(#[trigger] digits[i])
}

/// Appends the decimal digits of `n` to `out`.
pub fn push_decimal(out: &mut Vec<u8>, n: usize)
    ensures
        final(out)@ == old(out)@ + decimal(n as nat),
    decreases n,
{
    if n < 10 {
        out.push(0x30 + n as u8);
    } else {
        push_decimal(out, n / 10);
        out.push(0x30 + (n % 10) as u8);
    }
}

/// The text of one digit.
fn digit_text(d: usize) -> (text: &'static str)
    requires
        d < 10,
    ensures
        text@ == seq![digit(d as nat) as char],
{
    proof {
        reveal_strlit("0");
        reveal_strlit("1");
        reveal_strlit("2");
        reveal_strlit("3");
        reveal_strlit("4");
        reveal_strlit("5");
        reveal_strlit("6");
        reveal_strlit("7");
        reveal_strlit("8");
        reveal_strlit("9");
    }
    match d {
        0 => "0",
        1 => "1",
        2 => "2",
        3 => "3",
        4 => "4",
        5 => "5",
        6 => "6",
        7 => "7",
        8 => "8",
        _ => "9",
    }
}

/// Appends the decimal digits of `n` to `out`.
pub fn push_decimal_text(out: &mut String, n: usize)
    ensures
        final(out)@ == old(out)@ + ascii_text(decimal(n as nat)),
    decreases n,
{
    if n < 10 {
        out.append(digit_text(n));
        assert(ascii_text(decimal(n as nat)) =~= seq![digit(n as nat) as char]);
    } else {
        push_decimal_text(out, n / 10);
        out.append(digit_text(n % 10));
        assert(ascii_text(decimal(n as nat)) =~= ascii_text(decimal(n as nat / 10)).push(
            digit(n as nat % 10) as char,
        ));
    }
}

/// The decimal digits of `n` as text.
pub fn decimal_text(n: usize) -> (text: String)
    ensures
        text@ == ascii_text(decimal(n as nat)),
{
    let mut text = String::new();
    push_decimal_text(&mut text, n);
    text
}

/// Reading the decimal notation of a number gives the number back.
pub proof fn law_digits_of_decimal(n: nat)
    ensures
        is_number(decimal(n)),
        digits_value(decimal(n)) == n,
    decreases n,
{
    if n < 10 {
        assert(decimal(n).drop_last() =~= Seq::<u8>::empty());
        assert(digits_value(Seq::<u8>::empty()) == 0);
    } else {
        law_digits_of_decimal(n / 10);
        assert(decimal(n).drop_last() =~= decimal(n / 10));
    }
}

/// A number below ten to the `k` has at most `k` digits.
proof fn lemma_digit_count(n: nat, k: nat)
    requires
        k > 0,
        n < pow(10, k),
    ensures
        decimal(n).len() <= k,
    decreases k,
{
    reveal(pow);
    if n >= 10 {
        if k == 1 {
            assert(pow(10, 0) == 1);
        } else {
            assert(pow(10, k) == 10 * pow(10, (k - 1) as nat));
            lemma_digit_count(n / 10, (k - 1) as nat);
        }
    }
}

/// A number that the machine holds has at most 20 digits.
pub(crate) proof fn lemma_decimal_length(n: usize)
    ensures
        decimal(n as nat).len() <= 20,
{
    assert(pow(10, 5) == 100_000) by {
        reveal_with_fuel(pow, 6);
    }
    lemma_pow_adds(10, 5, 5);
    assert(pow(10, 10) == 10_000_000_000);
    lemma_pow_adds(10, 10, 10);
    assert(pow(10, 20) == 100_000_000_000_000_000_000);
    lemma_digit_count(n as nat, 20);
}

} // verus!
