//! Bencoding: reading a bencoded value, and the encodings of the leaf values.

use crate::decimal::{decimal, digits_value, is_digit, is_number, law_digits_of_decimal};
use vstd::prelude::*;
use vstd::utf8::{
    decode_utf8, encode_utf8, encode_utf8_decode_utf8, encode_utf8_valid_utf8, is_char_boundary,
    is_char_boundary_iff_not_is_continuation_byte, is_char_boundary_start_end_of_seq,
    is_continuation_byte, length_of_first_scalar, pop_first_scalar, valid_first_scalar,
    valid_utf8, valid_utf8_concat, valid_utf8_split,
};

verus! {

/// A bencoded value.
#[derive(Debug, PartialEq, Eq)]
pub enum Value {
    /// What an empty input holds.
    Null,
    Integer(i64),
    /// A number with a decimal point, in the notation it was written in.
    Fraction(String),
    Text(String),
    List(Vec<Value>),
}

/// What a `Value` stands for.
pub enum Data {
    Null,
    Integer(int),
    Fraction(Seq<char>),
    Text(Seq<char>),
    List(Seq<Data>),
}

impl View for Value {
    type V = Data;

    open spec fn view(&self) -> Data
        decreases self,
    {
        match self {
            Value::Null => Data::Null,
            Value::Integer(n) => Data::Integer(*n as int),
            Value::Fraction(s) => Data::Fraction(s@),
            Value::Text(s) => Data::Text(s@),
            Value::List(items) => Data::List(
                Seq::new(
                    items@.len(),
                    |i: int|
                        if 0 <= i < items@.len() {
                            items@[i].view()
                        } else {
                            Data::Null
                        },
                ),
            ),
        }
    }
}

/// Why an input is no bencoded value.
#[derive(Debug, Clone, Copy, PartialEq, Eq, Structural)]
pub enum DecodeError {
    /// A list without its closing `e`.
    UnclosedList,
    /// A number without its closing `e`.
    UnclosedNumber,
    /// A number that is no signed 64-bit integer.
    InvalidNumber,
    /// A string without the `:` behind its length.
    MissingColon,
    /// A string whose length is no unsigned number of the machine's size.
    InvalidLength,
    /// A string whose length does not end between two characters of the input.
    UnevenString,
    /// A value that starts with none of the known marks.
    UnknownMark,
}

/// The integer that `text` denotes: an optional sign, then digits.
pub open spec fn signed_value(text: Seq<u8>) -> Option<int> {
    if text.len() > 0 && text[0] == 0x2d {
        if is_number(text.skip(1)) {
            Some(-(digits_value(text.skip(1)) as int))
        } else {
            None
        }
    } else if text.len() > 0 && text[0] == 0x2b {
        if is_number(text.skip(1)) {
            Some(digits_value(text.skip(1)) as int)
        } else {
            None
        }
    } else if is_number(text) {
        Some(digits_value(text) as int)
    } else {
        None
    }
}

/// The number at the start of `b`, which begins behind the mark `i`, and the
/// bytes it takes up, its closing `e` included.
pub open spec fn decode_number(b: Seq<u8>) -> Result<(Data, int), DecodeError> {
    match b.index_of_first(0x65) {
        None => Err(DecodeError::UnclosedNumber),
        Some(end) => {
            let text = b.take(end);
            if text.contains(0x2e) {
                Ok((Data::Fraction(decode_utf8(text)), end + 1))
            } else {
                match signed_value(text) {
                    Some(n) if i64::MIN <= n <= i64::MAX => Ok((Data::Integer(n), end + 1)),
                    _ => Err(DecodeError::InvalidNumber),
                }
            }
        },
    }
}

/// The string at the start of `b` and the bytes it takes up: the length in
/// bytes, a colon, and that many bytes of text.
pub open spec fn decode_string(b: Seq<u8>) -> Result<(Data, int), DecodeError> {
    match b.index_of_first(0x3a) {
        None => Err(DecodeError::MissingColon),
        Some(colon) => {
            let len = b.take(colon);
            let rest = b.skip(colon + 1);
            if !is_number(len) || digits_value(len) > usize::MAX {
                Err(DecodeError::InvalidLength)
            } else if !is_char_boundary(rest, digits_value(len) as int) {
                Err(DecodeError::UnevenString)
            } else {
                Ok(
                    (
                        Data::Text(decode_utf8(rest.take(digits_value(len) as int))),
                        colon + 1 + digits_value(len),
                    ),
                )
            }
        },
    }
}

/// The value at the start of `b` and the bytes it takes up.
pub open spec fn decode(b: Seq<u8>) -> Result<(Data, int), DecodeError>
    decreases b.len(), 0int,
{
    if b.len() == 0 {
        Ok((Data::Null, 0))
    } else if b[0] == 0x6c {
        match decode_items(b.skip(1)) {
            Err(e) => Err(e),
            Ok((items, n)) => if 1 + n < b.len() {
                Ok((Data::List(items), n + 2))
            } else {
                Err(DecodeError::UnclosedList)
            },
        }
    } else if b[0] == 0x69 {
        match decode_number(b.skip(1)) {
            Err(e) => Err(e),
            Ok((n, len)) => Ok((n, len + 1)),
        }
    } else if is_digit(b[0]) {
        decode_string(b)
    } else {
        Err(DecodeError::UnknownMark)
    }
}

/// The values at the start of `b`, up to an `e` or the end of the input, and
/// the bytes they take up.
pub open spec fn decode_items(b: Seq<u8>) -> Result<(Seq<Data>, int), DecodeError>
    decreases b.len(), 1int,
{
    if b.len() == 0 || b[0] == 0x65 {
        Ok((seq![], 0))
    } else {
        match decode(b) {
            Err(e) => Err(e),
            Ok((first, n)) => if 0 < n <= b.len() {
                match decode_items(b.skip(n)) {
                    Err(e) => Err(e),
                    Ok((others, m)) => Ok((seq![first] + others, n + m)),
                }
            } else {
                arbitrary()
            },
        }
    }
}

/// In UTF-8, both ends of an ASCII byte lie between two characters.
proof fn lemma_ascii_boundary(b: Seq<u8>, i: int)
    requires
        valid_utf8(b),
        0 <= i < b.len(),
        b[i] < 0x80,
    ensures
        is_char_boundary(b, i),
        is_char_boundary(b, i + 1),
{
    is_char_boundary_iff_not_is_continuation_byte(b, i);
    assert(!is_continuation_byte(b[i]));
    if i + 1 == b.len() {
        is_char_boundary_start_end_of_seq(b);
    } else {
        valid_utf8_split(b, i);
        let tail = b.subrange(i, b.len() as int);
        assert(valid_first_scalar(tail));
        assert(length_of_first_scalar(tail) == 1);
        let next = pop_first_scalar(tail);
        assert(next.len() > 0 && next[0] == b[i + 1]);
        reveal_with_fuel(valid_utf8, 2);
        assert(valid_first_scalar(next));
        is_char_boundary_iff_not_is_continuation_byte(b, i + 1);
    }
}

/// A prefix of digits denotes no more than the whole.
proof fn lemma_prefix_value(digits: Seq<u8>, n: int)
    requires
        is_number(digits),
        0 <= n <= digits.len(),
    ensures
        digits_value(digits.take(n)) <= digits_value(digits),
    decreases digits.len(),
{
    if n == digits.len() {
        assert(digits.take(n) =~= digits);
    } else if digits.len() > 1 {
        let shorter = digits.drop_last();
        assert(is_number(shorter)) by {
            assert forall|i: int| 0 <= i < shorter.len() implies is_digit(#[trigger] shorter[i]) by {
                assert(is_digit(digits[i]));
            }
        }
        lemma_prefix_value(shorter, n);
        assert(shorter.take(n) =~= digits.take(n));
        assert(is_digit(digits[digits.len() - 1]));
    } else {
        assert(digits.take(0) =~= Seq::<u8>::empty());
        assert(digits_value(Seq::<u8>::empty()) == 0);
    }
}

/// The number that `digits` denote, where it is one of at most `max`.
fn magnitude(digits: &[u8], max: u64) -> (r: Option<u64>)
    ensures
        r == if is_number(digits@) && digits_value(digits@) <= max {
            Some(digits_value(digits@) as u64)
        } else {
            None
        },
{
    if digits.len() == 0 {
        return None;
    }
    let mut value: u64 = 0;
    let mut i: usize = 0;
    assert(digits@.take(0) =~= Seq::<u8>::empty());
    while i < digits.len()
        invariant
            i <= digits@.len(),
            0 < digits@.len(),
            forall|j: int| 0 <= j < i ==> is_digit(#[trigger] digits@[j]),
            value == digits_value(digits@.take(i as int)),
            value <= max,
        decreases digits@.len() - i,
    {
        let b = digits[i];
        if b < 0x30 || b > 0x39 {
            assert(!is_digit(digits@[i as int]));
            return None;
        }
        let d = (b - 0x30) as u64;
        assert(digits@.take(i + 1).drop_last() =~= digits@.take(i as int));
        assert(digits_value(digits@.take(i + 1)) == value * 10 + d);
        if value > max / 10 || d > max - value * 10 {
            assert(value * 10 + d > max);
            proof {
                if is_number(digits@) {
                    lemma_prefix_value(digits@, i + 1);
                }
            }
            return None;
        }
        value = value * 10 + d;
        i += 1;
    }
    assert(digits@.take(i as int) =~= digits@);
    Some(value)
}

/// The integer that `text` denotes, where it is one of 64 bits.
fn signed(text: &[u8]) -> (r: Option<i64>)
    ensures
        r == match signed_value(text@) {
            Some(n) if i64::MIN <= n <= i64::MAX => Some(n as i64),
            _ => None,
        },
{
    let len = text.len();
    if len > 0 && text[0] == 0x2d {
        let digits = vstd::slice::slice_subrange(text, 1, len);
        assert(digits@ =~= text@.skip(1));
        match magnitude(digits, 0x8000_0000_0000_0000) {
            Some(m) => if m == 0x8000_0000_0000_0000 {
                Some(i64::MIN)
            } else {
                Some(-(m as i64))
            },
            None => None,
        }
    } else if len > 0 && text[0] == 0x2b {
        let digits = vstd::slice::slice_subrange(text, 1, len);
        assert(digits@ =~= text@.skip(1));
        match magnitude(digits, 0x7fff_ffff_ffff_ffff) {
            Some(m) => Some(m as i64),
            None => None,
        }
    } else {
        match magnitude(text, 0x7fff_ffff_ffff_ffff) {
            Some(m) => Some(m as i64),
            None => None,
        }
    }
}

/// The place of the first `byte` in `bytes`.
fn find(bytes: &[u8], byte: u8) -> (r: Option<usize>)
    ensures
        match bytes@.index_of_first(byte) {
            Some(i) => r matches Some(k) && k == i && k < bytes@.len() && bytes@[i] == byte,
            None => r is None,
        },
{
    let mut i: usize = 0;
    while i < bytes.len()
        invariant
            i <= bytes@.len(),
            forall|j: int| 0 <= j < i ==> bytes@[j] != byte,
        decreases bytes@.len() - i,
    {
        if bytes[i] == byte {
            assert(bytes@.contains(byte));
            proof {
                bytes@.index_of_first_ensures(byte);
            }
            return Some(i);
        }
        i += 1;
    }
    proof {
        bytes@.index_of_first_ensures(byte);
    }
    None
}

/// A text behind its first byte, which is ASCII.
fn tail(text: &str) -> (rest: &str)
    requires
        encode_utf8(text@).len() > 0,
        encode_utf8(text@)[0] < 0x80,
    ensures
        encode_utf8(rest@) == encode_utf8(text@).skip(1),
{
    proof {
        encode_utf8_valid_utf8(text@);
        lemma_ascii_boundary(encode_utf8(text@), 0);
    }
    let (_, rest) = text.split_at(1);
    assert(encode_utf8(rest@) =~= encode_utf8(text@).skip(1));
    rest
}

/// Reads a number behind its mark `i`.
fn read_number(text: &str) -> (r: Result<(Value, &str), DecodeError>)
    ensures
        match decode_number(encode_utf8(text@)) {
            Ok((data, n)) => r matches Ok((value, rest)) && value@ == data && encode_utf8(rest@)
                == encode_utf8(text@).skip(n),
            Err(e) => r matches Err(x) && x == e,
        },
{
    let ghost b = encode_utf8(text@);
    let bytes = text.as_bytes();
    let end = match find(bytes, 0x65) {
        Some(end) => end,
        None => {
            return Err(DecodeError::UnclosedNumber);
        },
    };
    proof {
        encode_utf8_valid_utf8(text@);
        lemma_ascii_boundary(b, end as int);
    }
    let (num, closing) = text.split_at(end);
    assert(encode_utf8(num@) =~= b.take(end as int));
    let rest = tail(closing);
    assert(encode_utf8(rest@) =~= b.skip(end + 1));
    proof {
        encode_utf8(num@).index_of_first_ensures(0x2e);
        encode_utf8_decode_utf8(num@);
    }
    match find(num.as_bytes(), 0x2e) {
        Some(_) => Ok((Value::Fraction(num.to_owned()), rest)),
        None => match signed(num.as_bytes()) {
            Some(n) => Ok((Value::Integer(n), rest)),
            None => Err(DecodeError::InvalidNumber),
        },
    }
}

/// Reads a string from the first digit of its length on.
fn read_string(text: &str) -> (r: Result<(Value, &str), DecodeError>)
    ensures
        match decode_string(encode_utf8(text@)) {
            Ok((data, n)) => r matches Ok((value, rest)) && value@ == data && encode_utf8(rest@)
                == encode_utf8(text@).skip(n),
            Err(e) => r matches Err(x) && x == e,
        },
{
    let ghost b = encode_utf8(text@);
    let bytes = text.as_bytes();
    let colon = match find(bytes, 0x3a) {
        Some(colon) => colon,
        None => {
            return Err(DecodeError::MissingColon);
        },
    };
    proof {
        encode_utf8_valid_utf8(text@);
        lemma_ascii_boundary(b, colon as int);
    }
    let (len, behind) = text.split_at(colon);
    assert(encode_utf8(len@) =~= b.take(colon as int));
    let rest = tail(behind);
    assert(encode_utf8(rest@) =~= b.skip(colon + 1));
    let n = match magnitude(len.as_bytes(), usize::MAX as u64) {
        Some(n) => n as usize,
        None => {
            return Err(DecodeError::InvalidLength);
        },
    };
    if !rest.is_char_boundary(n) {
        return Err(DecodeError::UnevenString);
    }
    let (string, after) = rest.split_at(n);
    proof {
        encode_utf8_decode_utf8(string@);
        encode_utf8_valid_utf8(rest@);
        lemma_boundary_in_range(encode_utf8(rest@), n as int);
        assert(encode_utf8(string@) =~= encode_utf8(rest@).take(n as int));
        assert(encode_utf8(after@) =~= b.skip(colon + 1 + n));
    }
    Ok((Value::Text(string.to_owned()), after))
}

/// A place between two characters is a place in the text.
proof fn lemma_boundary_in_range(b: Seq<u8>, i: int)
    requires
        valid_utf8(b),
        is_char_boundary(b, i),
    ensures
        0 <= i <= b.len(),
    decreases b.len(),
{
    if i > 0 && b.len() > 0 {
        lemma_boundary_in_range(pop_first_scalar(b), i - length_of_first_scalar(b));
    }
}

/// A value that is read from text takes up no more than the text, something of
/// it where it is not empty, and ends between two of its characters.
pub proof fn law_decode_extent(b: Seq<u8>)
    requires
        decode(b) is Ok,
        valid_utf8(b),
    ensures
        0 <= decode(b)->Ok_0.1 <= b.len(),
        b.len() > 0 ==> decode(b)->Ok_0.1 > 0,
        is_char_boundary(b, decode(b)->Ok_0.1),
    decreases b.len(), 0int,
{
    if b.len() == 0 {
    } else if b[0] == 0x6c {
        lemma_ascii_boundary(b, 0);
        valid_utf8_split(b, 1);
        assert(b.skip(1) =~= b.subrange(1, b.len() as int));
        lemma_items_extent(b.skip(1));
        let n = decode_items(b.skip(1))->Ok_0.1;
        lemma_ascii_boundary(b, n + 1);
    } else if b[0] == 0x69 {
        b.skip(1).index_of_first_ensures(0x65);
        let end = b.skip(1).index_of_first(0x65)->0;
        lemma_ascii_boundary(b, end + 1);
    } else {
        b.index_of_first_ensures(0x3a);
        let colon = b.index_of_first(0x3a)->0;
        lemma_ascii_boundary(b, colon);
        valid_utf8_split(b, colon + 1);
        let rest = b.skip(colon + 1);
        assert(rest =~= b.subrange(colon + 1, b.len() as int));
        let n = digits_value(b.take(colon)) as int;
        lemma_boundary_in_range(rest, n);
        if n < rest.len() {
            is_char_boundary_iff_not_is_continuation_byte(rest, n);
            is_char_boundary_iff_not_is_continuation_byte(b, colon + 1 + n);
            assert(rest[n] == b[colon + 1 + n]);
        } else {
            is_char_boundary_start_end_of_seq(b);
        }
    }
}

/// The values of a list take up no more than the input; they end at an `e` or
/// at the end of the input.
pub(crate) proof fn lemma_items_extent(b: Seq<u8>)
    requires
        decode_items(b) is Ok,
        valid_utf8(b),
    ensures
        0 <= decode_items(b)->Ok_0.1 <= b.len(),
        decode_items(b)->Ok_0.1 < b.len() ==> b[decode_items(b)->Ok_0.1] == 0x65,
    decreases b.len(), 1int,
{
    if b.len() == 0 || b[0] == 0x65 {
    } else {
        law_decode_extent(b);
        let n = decode(b)->Ok_0.1;
        valid_utf8_split(b, n);
        assert(b.skip(n) =~= b.subrange(n, b.len() as int));
        lemma_items_extent(b.skip(n));
    }
}

/// What the values of a list come to, once `done` are read from the first
/// `k` bytes and `others` is what the remaining bytes hold.
spec fn continued(
    done: Seq<Data>,
    k: int,
    others: Result<(Seq<Data>, int), DecodeError>,
) -> Result<(Seq<Data>, int), DecodeError> {
    match others {
        Err(e) => Err(e),
        Ok((items, m)) => Ok((done + items, k + m)),
    }
}

/// The data of each of `items`.
spec fn views(items: Seq<Value>) -> Seq<Data> {
    Seq::new(items.len(), |i: int| items[i]@)
}

/// Reads the value at the start of `encoded_value`, and gives back what
/// follows it.
pub fn decode_bencoded_value(encoded_value: &str) -> (r: Result<(Value, &str), DecodeError>)
    ensures
        match decode(encode_utf8(encoded_value@)) {
            Ok((data, n)) => r matches Ok((value, rest)) && value@ == data && encode_utf8(rest@)
                == encode_utf8(encoded_value@).skip(n),
            Err(e) => r matches Err(x) && x == e,
        },
    decreases encode_utf8(encoded_value@).len(),
{
    let ghost b = encode_utf8(encoded_value@);
    let bytes = encoded_value.as_bytes();
    if bytes.len() == 0 {
        assert(b.skip(0) =~= b);
        return Ok((Value::Null, encoded_value));
    }
    let mark = bytes[0];
    if mark == 0x6c {
        let mut rest = tail(encoded_value);
        let ghost whole = encode_utf8(rest@);
        let mut items: Vec<Value> = Vec::new();
        let ghost mut k: int = 0;
        proof {
            encode_utf8_valid_utf8(rest@);
            assert(whole.skip(0) =~= whole);
            assert(views(items@) =~= Seq::<Data>::empty());
            match decode_items(whole) {
                Ok((all, m)) => {
                    assert(Seq::<Data>::empty() + all =~= all);
                },
                Err(_) => {},
            }
        }
        while rest.as_bytes().len() > 0 && rest.as_bytes()[0] != 0x65
            invariant
                b.len() > 0,
                b[0] == 0x6c,
                b == encode_utf8(encoded_value@),
                whole == b.skip(1),
                0 <= k <= whole.len(),
                encode_utf8(rest@) == whole.skip(k),
                decode_items(whole) == continued(views(items@), k, decode_items(whole.skip(k))),
            decreases encode_utf8(rest@).len(),
        {
            let ghost here = whole.skip(k);
            proof {
                encode_utf8_valid_utf8(rest@);
                if decode(here) is Ok {
                    law_decode_extent(here);
                }
            }
            match decode_bencoded_value(rest) {
                Err(e) => {
                    return Err(e);
                },
                Ok((value, remaining)) => {
                    let ghost n = decode(here)->Ok_0.1;
                    let ghost before = views(items@);
                    items.push(value);
                    rest = remaining;
                    proof {
                        assert(here.skip(n) =~= whole.skip(k + n));
                        assert(views(items@) =~= before.push(value@));
                        match decode_items(whole.skip(k + n)) {
                            Ok((others, m)) => {
                                assert(before + (seq![value@] + others) =~= views(items@) + others);
                            },
                            Err(_) => {},
                        }
                        k = k + n;
                    }
                },
            }
        }
        proof {
            assert(views(items@) + Seq::<Data>::empty() =~= views(items@));
            assert(Value::List(items)@ == Data::List(views(items@))) by {
                assert(Value::List(items)@->List_0 =~= views(items@));
            }
        }
        if rest.as_bytes().len() == 0 {
            return Err(DecodeError::UnclosedList);
        }
        let rest = tail(rest);
        assert(encode_utf8(rest@) =~= b.skip(k + 2));
        Ok((Value::List(items), rest))
    } else if mark == 0x69 {
        let rest = tail(encoded_value);
        match read_number(rest) {
            Ok((value, after)) => {
                let ghost n = decode_number(encode_utf8(rest@))->Ok_0.1;
                proof {
                    encode_utf8(rest@).index_of_first_ensures(0x65);
                }
                assert(encode_utf8(after@) =~= b.skip(n + 1));
                Ok((value, after))
            },
            Err(e) => Err(e),
        }
    } else if 0x30 <= mark && mark <= 0x39 {
        read_string(encoded_value)
    } else {
        Err(DecodeError::UnknownMark)
    }
}

/// The decimal notation of an integer, with a minus sign where it is negative.
pub open spec fn signed_decimal(n: int) -> Seq<u8> {
    if n < 0 {
        seq![0x2du8] + decimal((-n) as nat)
    } else {
        decimal(n as nat)
    }
}

/// The bencoding of an integer.
pub open spec fn integer(n: int) -> Seq<u8> {
    seq![0x69u8] + signed_decimal(n) + seq![0x65u8]
}

/// The bencoding of a string of bytes.
pub open spec fn string(bytes: Seq<u8>) -> Seq<u8> {
    decimal(bytes.len()) + seq![0x3au8] + bytes
}

/// The bencoding of a value.
pub open spec fn bencode(data: Data) -> Seq<u8>
    decreases data,
{
    match data {
        Data::Null => Seq::empty(),
        Data::Integer(n) => integer(n),
        Data::Fraction(text) => seq![0x69u8] + encode_utf8(text) + seq![0x65u8],
        Data::Text(text) => string(encode_utf8(text)),
        Data::List(items) => seq![0x6cu8] + bencode_items(items) + seq![0x65u8],
    }
}

/// The bencodings of values one behind the other.
pub open spec fn bencode_items(items: Seq<Data>) -> Seq<u8>
    decreases items,
{
    if items.len() == 0 {
        Seq::empty()
    } else {
        bencode(items[0]) + bencode_items(items.drop_first())
    }
}

/// Whether a value has a bencoding: integers of 64 bits, numbers with a point
/// and without an `e`, strings that the machine can hold, and lists of these.
pub open spec fn encodable(data: Data) -> bool
    decreases data,
{
    match data {
        Data::Null => false,
        Data::Integer(n) => i64::MIN <= n <= i64::MAX,
        Data::Fraction(text) => encode_utf8(text).contains(0x2e) && !encode_utf8(text).contains(
            0x65,
        ),
        Data::Text(text) => encode_utf8(text).len() <= usize::MAX,
        Data::List(items) => forall|i: int|
            0 <= i < items.len() ==> encodable(#[trigger] items[i]),
    }
}

/// The first place of a byte that does not occur before it.
pub(crate) proof fn lemma_first_index(before: Seq<u8>, byte: u8, behind: Seq<u8>)
    requires
        !before.contains(byte),
    ensures
        (before + seq![byte] + behind).index_of_first(byte) == Some(before.len() as int),
{
    let all = before + seq![byte] + behind;
    all.index_of_first_ensures(byte);
    assert(all[before.len() as int] == byte);
    assert(all.contains(byte));
    let first = all.index_of_first(byte)->0;
    if first < before.len() {
        assert(before[first] == byte);
    }
}

/// Decimal notation holds digits only.
proof fn lemma_decimal_digits_only(n: nat, byte: u8)
    requires
        !is_digit(byte),
    ensures
        !decimal(n).contains(byte),
        decimal(n).len() > 0,
        is_digit(decimal(n)[0]),
{
    law_digits_of_decimal(n);
    if decimal(n).contains(byte) {
        let i = decimal(n).index_of(byte);
        assert(is_digit(decimal(n)[i]));
    }
    assert(is_digit(decimal(n)[0]));
}

/// Decimal notation denotes its number, and holds neither an `e` nor a point.
proof fn lemma_signed_decimal(n: int)
    ensures
        signed_value(signed_decimal(n)) == Some(n),
        !signed_decimal(n).contains(0x65),
        !signed_decimal(n).contains(0x2e),
{
    let m = if n < 0 { (-n) as nat } else { n as nat };
    let text = signed_decimal(n);
    law_digits_of_decimal(m);
    lemma_decimal_digits_only(m, 0x65);
    lemma_decimal_digits_only(m, 0x2e);
    if n < 0 {
        assert(text.skip(1) =~= decimal(m));
        assert forall|i: int| 0 <= i < text.len() implies text[i] != 0x65 && text[i] != 0x2e by {
            if i > 0 {
                assert(decimal(m)[i - 1] == text[i]);
                assert(decimal(m).contains(text[i]));
            }
        }
    }
}

/// A number is read back behind its mark.
proof fn lemma_number_read_back(n: int, rest: Seq<u8>)
    requires
        i64::MIN <= n <= i64::MAX,
    ensures
        decode_number(signed_decimal(n) + seq![0x65u8] + rest) == Ok::<_, DecodeError>(
            (Data::Integer(n), signed_decimal(n).len() as int + 1),
        ),
{
    let text = signed_decimal(n);
    let b = text + seq![0x65u8] + rest;
    lemma_signed_decimal(n);
    lemma_first_index(text, 0x65, rest);
    assert(b.take(text.len() as int) =~= text);
}

/// An integer is read back from its bencoding.
proof fn lemma_integer_read_back(n: int, rest: Seq<u8>)
    requires
        i64::MIN <= n <= i64::MAX,
    ensures
        decode(integer(n) + rest) == Ok::<_, DecodeError>(
            (Data::Integer(n), integer(n).len() as int),
        ),
{
    let b = integer(n) + rest;
    lemma_number_read_back(n, rest);
    assert(b[0] == 0x69);
    assert(b.skip(1) =~= signed_decimal(n) + seq![0x65u8] + rest);
}

/// A string is read back from its bencoding.
proof fn lemma_string_read_back(text: Seq<char>, rest: Seq<u8>)
    requires
        encode_utf8(text).len() <= usize::MAX,
        valid_utf8(rest),
    ensures
        decode(string(encode_utf8(text)) + rest) == Ok::<_, DecodeError>(
            (Data::Text(text), string(encode_utf8(text)).len() as int),
        ),
{
    let bytes = encode_utf8(text);
    let len = decimal(bytes.len());
    let b = string(bytes) + rest;
    law_digits_of_decimal(bytes.len());
    lemma_decimal_digits_only(bytes.len(), 0x3a);
    lemma_first_index(len, 0x3a, bytes + rest);
    assert(b =~= len + seq![0x3au8] + (bytes + rest));
    assert(b.take(len.len() as int) =~= len);
    let behind = b.skip(len.len() as int + 1);
    assert(behind =~= bytes + rest);
    encode_utf8_valid_utf8(text);
    encode_utf8_decode_utf8(text);
    valid_utf8_concat(bytes, rest);
    assert(is_char_boundary(behind, bytes.len() as int)) by {
        if rest.len() == 0 {
            is_char_boundary_start_end_of_seq(behind);
        } else {
            assert(behind[bytes.len() as int] == rest[0]);
            assert(valid_first_scalar(rest));
            is_char_boundary_iff_not_is_continuation_byte(behind, bytes.len() as int);
        }
    }
    assert(behind.take(bytes.len() as int) =~= bytes);
    assert(b[0] == len[0]);
}

/// A bencoding is text.
proof fn lemma_bencode_valid(data: Data)
    requires
        encodable(data),
    ensures
        valid_utf8(bencode(data)),
        bencode(data).len() > 0,
        bencode(data)[0] != 0x65,
    decreases data,
{
    match data {
        Data::Null => {},
        Data::Integer(n) => {
            let m = if n < 0 { (-n) as nat } else { n as nat };
            law_digits_of_decimal(m);
            lemma_ascii_valid(integer(n));
        },
        Data::Fraction(text) => {
            encode_utf8_valid_utf8(text);
            lemma_ascii_valid(seq![0x69u8]);
            lemma_ascii_valid(seq![0x65u8]);
            valid_utf8_concat(seq![0x69u8], encode_utf8(text));
            valid_utf8_concat(seq![0x69u8] + encode_utf8(text), seq![0x65u8]);
        },
        Data::Text(text) => {
            let bytes = encode_utf8(text);
            encode_utf8_valid_utf8(text);
            law_digits_of_decimal(bytes.len());
            lemma_ascii_valid(decimal(bytes.len()) + seq![0x3au8]);
            valid_utf8_concat(decimal(bytes.len()) + seq![0x3au8], bytes);
            lemma_decimal_digits_only(bytes.len(), 0x65);
        },
        Data::List(items) => {
            lemma_items_valid(items);
            lemma_ascii_valid(seq![0x6cu8]);
            lemma_ascii_valid(seq![0x65u8]);
            valid_utf8_concat(seq![0x6cu8], bencode_items(items));
            valid_utf8_concat(seq![0x6cu8] + bencode_items(items), seq![0x65u8]);
        },
    }
}

/// Bencodings one behind the other are text.
proof fn lemma_items_valid(items: Seq<Data>)
    requires
        forall|i: int| 0 <= i < items.len() ==> encodable(#[trigger] items[i]),
    ensures
        valid_utf8(bencode_items(items)),
    decreases items,
{
    if items.len() > 0 {
        lemma_bencode_valid(items[0]);
        assert forall|i: int| 0 <= i < items.drop_first().len() implies encodable(
            #[trigger] items.drop_first()[i],
        ) by {
            assert(encodable(items[i + 1]));
        }
        lemma_items_valid(items.drop_first());
        valid_utf8_concat(bencode(items[0]), bencode_items(items.drop_first()));
    }
}

/// ASCII is UTF-8.
proof fn lemma_ascii_valid(bytes: Seq<u8>)
    requires
        forall|i: int| 0 <= i < bytes.len() ==> (#[trigger] bytes[i]) < 0x80,
    ensures
        valid_utf8(bytes),
    decreases bytes.len(),
{
    if bytes.len() > 0 {
        assert(bytes[0] < 0x80);
        assert(valid_first_scalar(bytes));
        let rest = pop_first_scalar(bytes);
        assert forall|i: int| 0 <= i < rest.len() implies (#[trigger] rest[i]) < 0x80 by {
            assert(rest[i] == bytes[i + 1]);
        }
        lemma_ascii_valid(rest);
    }
}

/// A value is read back from its bencoding, whatever text follows.
pub proof fn law_decode_of_bencode(data: Data, rest: Seq<u8>)
    requires
        encodable(data),
        valid_utf8(rest),
    ensures
        decode(bencode(data) + rest) == Ok::<_, DecodeError>((data, bencode(data).len() as int)),
    decreases data,
{
    match data {
        Data::Null => {},
        Data::Integer(n) => {
            lemma_integer_read_back(n, rest);
        },
        Data::Fraction(text) => {
            let bytes = encode_utf8(text);
            let b = bencode(data) + rest;
            lemma_first_index(bytes, 0x65, rest);
            let inner = bytes + seq![0x65u8] + rest;
            assert(b.skip(1) =~= inner);
            assert(inner.take(bytes.len() as int) =~= bytes);
            encode_utf8_decode_utf8(text);
        },
        Data::Text(text) => {
            lemma_string_read_back(text, rest);
        },
        Data::List(items) => {
            let b = bencode(data) + rest;
            let behind = seq![0x65u8] + rest;
            lemma_ascii_valid(seq![0x65u8]);
            valid_utf8_concat(seq![0x65u8], rest);
            lemma_items_read_back(items, behind);
            assert(b.skip(1) =~= bencode_items(items) + behind);
        },
    }
}

/// The values of a list are read back from their bencodings.
proof fn lemma_items_read_back(items: Seq<Data>, behind: Seq<u8>)
    requires
        forall|i: int| 0 <= i < items.len() ==> encodable(#[trigger] items[i]),
        behind.len() > 0,
        behind[0] == 0x65,
        valid_utf8(behind),
    ensures
        decode_items(bencode_items(items) + behind) == Ok::<_, DecodeError>(
            (items, bencode_items(items).len() as int),
        ),
    decreases items,
{
    let b = bencode_items(items) + behind;
    if items.len() == 0 {
        assert(b =~= behind);
        assert(items =~= Seq::<Data>::empty());
    } else {
        let first = bencode(items[0]);
        let others = items.drop_first();
        assert forall|i: int| 0 <= i < others.len() implies encodable(#[trigger] others[i]) by {
            assert(encodable(items[i + 1]));
        }
        lemma_bencode_valid(items[0]);
        lemma_items_valid(others);
        valid_utf8_concat(bencode_items(others), behind);
        assert(b =~= first + (bencode_items(others) + behind));
        law_decode_of_bencode(items[0], bencode_items(others) + behind);
        assert(b.skip(first.len() as int) =~= bencode_items(others) + behind);
        lemma_items_read_back(others, behind);
        assert(seq![items[0]] + others =~= items);
    }
}

} // verus!
