//! How numbers and bytes are read from text: what the notations that this crate
//! writes mean to a reader.

use crate::decimal::{ascii_text, decimal, decimal_text, push_decimal, push_decimal_text};
use crate::outside::{hex_text, percent_text, unreserved};
use vstd::prelude::*;

verus! {

/// The value of a decimal digit.
pub open spec fn digit_value(c: char) -> int {
    c as int - '0' as int
}

/// The number that decimal digits stand for: each place counts ten times the
/// place behind it.
pub open spec fn number_read(text: Seq<char>) -> int
    decreases text.len(),
{
    if text.len() == 0 {
        0
    } else {
        10 * number_read(text.drop_last()) + digit_value(text.last())
    }
}

/// Whether `text` is the decimal notation of `n`: digits only, without a leading
/// zero but for zero itself.
pub open spec fn is_notation(text: Seq<char>, n: int) -> bool {
    &&& text.len() > 0
    &&& forall|i: int| 0 <= i < text.len() ==> '0' <= #[trigger] text[i] <= '9'
    &&& text[0] == '0' ==> text.len() == 1
    &&& number_read(text) == n
}

/// The value of a hexadecimal digit, of either case.
pub open spec fn hex_value(c: char) -> int {
    if '0' <= c <= '9' {
        c as int - '0' as int
    } else if 'a' <= c <= 'f' {
        c as int - 'a' as int + 10
    } else {
        c as int - 'A' as int + 10
    }
}

/// Whether `text` gives each of `bytes` by two lower case hexadecimal digits.
#[verifier::opaque]
pub open spec fn is_hex_of(text: Seq<char>, bytes: Seq<u8>) -> bool {
    &&& text.len() == 2 * bytes.len()
    &&& forall|i: int|
        0 <= i < text.len() ==> '0' <= #[trigger] text[i] <= '9' || 'a' <= text[i] <= 'f'
    &&& forall|i: int|
        0 <= i < bytes.len() ==> #[trigger] bytes[i] == 16 * hex_value(text[2 * i]) + hex_value(
            text[2 * i + 1],
        )
}

/// The bytes that a part of a URL stands for: `%` and two hexadecimal digits
/// stand for a byte, any other character for itself.
pub open spec fn unescaped(text: Seq<char>) -> Seq<u8>
    decreases text.len(),
{
    if text.len() == 0 {
        Seq::empty()
    } else if text[0] == '%' && text.len() >= 3 {
        seq![(16 * hex_value(text[1]) + hex_value(text[2])) as u8] + unescaped(text.skip(3))
    } else {
        seq![text[0] as u8] + unescaped(text.skip(1))
    }
}

/// Whether `text` stands for `bytes` in a query and cannot be mistaken for
/// anything else there: it holds letters, digits, `-`, `.`, `_`, `~` and escapes
/// alone.
pub open spec fn is_escape_of(text: Seq<char>, bytes: Seq<u8>) -> bool {
    &&& unescaped(text) == bytes
    &&& forall|i: int| #![trigger text[i]]
        0 <= i < text.len() ==> {
            ||| '0' <= text[i] <= '9'
            ||| 'A' <= text[i] <= 'Z'
            ||| 'a' <= text[i] <= 'z'
            ||| text[i] == '-'
            ||| text[i] == '.'
            ||| text[i] == '_'
            ||| text[i] == '~'
            ||| text[i] == '%'
        }
}

/// Decimal notation is read back.
pub proof fn law_notation_is_read_back(n: nat)
    ensures
        is_notation(ascii_text(decimal(n)), n as int),
    decreases n,
{
    let text = ascii_text(decimal(n));
    if n < 10 {
        assert(text.drop_last() =~= Seq::<char>::empty());
        assert(text.len() == 1);
        assert(number_read(Seq::<char>::empty()) == 0);
        assert(text[0] as int == 0x30 + n);
        assert(text[0] == '0' || n > 0);
    } else {
        law_notation_is_read_back(n / 10);
        let fewer = ascii_text(decimal(n / 10));
        assert(text.drop_last() =~= fewer);
        assert(text.last() as int == 0x30 + n % 10);
        assert forall|i: int| 0 <= i < text.len() implies '0' <= #[trigger] text[i] <= '9' by {
            if i < fewer.len() {
                assert(text[i] == fewer[i]);
            }
        }
        assert(text[0] == fewer[0]);
        if text[0] == '0' {
            assert(fewer.len() == 1);
            assert(fewer.drop_last() =~= Seq::<char>::empty());
            assert(number_read(Seq::<char>::empty()) == 0);
            assert(number_read(fewer) == 0);
        }
        assert(10 * (n / 10) + n % 10 == n);
    }
}

/// Hexadecimal notation is read back.
pub proof fn law_hex_is_read_back(bytes: Seq<u8>)
    ensures
        is_hex_of(hex_text(bytes), bytes),
{
    reveal(is_hex_of);
    let text = hex_text(bytes);
    assert forall|i: int| 0 <= i < text.len() implies '0' <= #[trigger] text[i] <= '9' || 'a'
        <= text[i] <= 'f' by {}
    assert forall|i: int| 0 <= i < bytes.len() implies #[trigger] bytes[i] == 16 * hex_value(
        text[2 * i],
    ) + hex_value(text[2 * i + 1]) by {
        assert(2 * i / 2 == i && (2 * i) % 2 == 0);
        assert((2 * i + 1) / 2 == i && (2 * i + 1) % 2 == 1);
        let b = bytes[i] as int;
        assert(b == 16 * (b / 16) + b % 16);
    }
}

proof fn lemma_percent_of_front(bytes: Seq<u8>)
    requires
        bytes.len() > 0,
    ensures
        percent_text(bytes) == percent_text(seq![bytes[0]]) + percent_text(bytes.skip(1)),
    decreases bytes.len(),
{
    reveal_with_fuel(percent_text, 2);
    let one = seq![bytes[0]];
    assert(one.drop_last() =~= Seq::<u8>::empty());
    if bytes.len() == 1 {
        assert(bytes =~= one);
        assert(bytes.skip(1) =~= Seq::<u8>::empty());
        assert(percent_text(bytes) =~= percent_text(one) + Seq::<char>::empty());
    } else {
        let fewer = bytes.drop_last();
        lemma_percent_of_front(fewer);
        assert(fewer.skip(1) =~= bytes.skip(1).drop_last());
        assert(bytes.skip(1).last() == bytes.last());
        assert(percent_text(bytes) =~= percent_text(one) + percent_text(bytes.skip(1)));
    }
}

/// Percent-encoding is read back.
pub proof fn law_escape_is_read_back(bytes: Seq<u8>)
    ensures
        is_escape_of(percent_text(bytes), bytes),
    decreases bytes.len(),
{
    if bytes.len() == 0 {
        assert(unescaped(percent_text(bytes)) =~= bytes);
    } else {
        reveal_with_fuel(percent_text, 2);
        let b = bytes[0];
        let one = seq![b];
        let head = percent_text(one);
        let tail = percent_text(bytes.skip(1));
        let text = percent_text(bytes);
        lemma_percent_of_front(bytes);
        law_escape_is_read_back(bytes.skip(1));
        assert(one.drop_last() =~= Seq::<u8>::empty());
        assert(one.last() == b);
        assert(text == head + tail);
        if unreserved(b) {
            assert(head =~= seq![b as char]);
            assert(text.skip(1) =~= tail);
            assert(text[0] == b as char);
            assert(text[0] != '%');
        } else {
            assert(head.len() == 3);
            assert(head[0] == '%');
            assert(text.skip(3) =~= tail);
            assert(text[1] == head[1] && text[2] == head[2]);
            let n = b as int;
            assert(hex_value(head[1]) == n / 16);
            assert(hex_value(head[2]) == n % 16);
            assert(16 * (n / 16) + n % 16 == n);
        }
        assert(unescaped(text) =~= bytes);
        assert forall|i: int| #![trigger text[i]] 0 <= i < text.len() implies {
            ||| '0' <= text[i] <= '9'
            ||| 'A' <= text[i] <= 'Z'
            ||| 'a' <= text[i] <= 'z'
            ||| text[i] == '-'
            ||| text[i] == '.'
            ||| text[i] == '_'
            ||| text[i] == '~'
            ||| text[i] == '%'
        } by {
            if i < head.len() {
                assert(text[i] == head[i]);
            } else {
                assert(text[i] == tail[i - head.len()]);
            }
        }
    }
}

/// A number is appended in decimal notation, to bytes and to text, and nothing
/// before it changes.
pub proof fn law_number_is_appended(
    bytes: &mut Vec<u8>,
    n: usize,
    done: (),
    text: &mut String,
    m: usize,
    text_done: (),
    alone: String,
)
    requires
        call_ensures(push_decimal, (bytes, n), done),
        call_ensures(push_decimal_text, (text, m), text_done),
        call_ensures(decimal_text, (m,), alone),
    ensures
        final(bytes)@.take(old(bytes)@.len() as int) == old(bytes)@,
        is_notation(
            final(bytes)@.skip(old(bytes)@.len() as int).map_values(|b: u8| b as char),
            n as int,
        ),
        final(text)@.take(old(text)@.len() as int) == old(text)@,
        is_notation(final(text)@.skip(old(text)@.len() as int), m as int),
        is_notation(alone@, m as int),
{
    law_notation_is_read_back(n as nat);
    law_notation_is_read_back(m as nat);
    assert(final(bytes)@.take(old(bytes)@.len() as int) =~= old(bytes)@);
    assert(final(bytes)@.skip(old(bytes)@.len() as int).map_values(|b: u8| b as char) =~= ascii_text(
        decimal(n as nat),
    ));
    assert(final(text)@.take(old(text)@.len() as int) =~= old(text)@);
    assert(final(text)@.skip(old(text)@.len() as int) =~= ascii_text(decimal(m as nat)));
}

} // verus!
