//! How bencoded text is read, mark by mark.

use crate::bencode::{
    decode, decode_bencoded_value, decode_items, decode_number, decode_string,
    law_decode_extent, lemma_first_index, lemma_items_extent, signed_value, Data, DecodeError,
    Value,
};
use crate::decimal::{digits_value, is_digit, is_number};
use crate::torrent_laws::digits_read;
use vstd::prelude::*;
use vstd::utf8::{
    encode_utf8, encode_utf8_decode_utf8, encode_utf8_valid_utf8, is_char_boundary,
    is_char_boundary_iff_not_is_continuation_byte, is_char_boundary_start_end_of_seq,
    valid_first_scalar, valid_utf8_concat,
};

verus! {

/// Whether all bytes are ASCII digits, and there is one.
pub open spec fn all_digits(b: Seq<u8>) -> bool {
    b.len() > 0 && forall|i: int| 0 <= i < b.len() ==> 0x30 <= #[trigger] b[i] <= 0x39
}

proof fn lemma_digits(b: Seq<u8>)
    requires
        forall|i: int| 0 <= i < b.len() ==> 0x30 <= #[trigger] b[i] <= 0x39,
    ensures
        digits_value(b) == digits_read(b),
    decreases b.len(),
{
    let text = b.map_values(|x: u8| x as char);
    if b.len() > 0 {
        let fewer = b.drop_last();
        assert forall|i: int| 0 <= i < fewer.len() implies 0x30 <= #[trigger] fewer[i] <= 0x39 by {
            assert(fewer[i] == b[i]);
        }
        lemma_digits(fewer);
        assert(text.drop_last() =~= fewer.map_values(|x: u8| x as char));
        assert(0x30 <= b[b.len() - 1] <= 0x39);
        assert(text.last() as int == b.last() as int);
    } else {
        assert(text =~= Seq::<char>::empty());
    }
}

proof fn lemma_all_digits(b: Seq<u8>)
    ensures
        all_digits(b) <==> is_number(b),
        all_digits(b) ==> digits_value(b) == digits_read(b),
{
    if all_digits(b) {
        lemma_digits(b);
        assert forall|i: int| 0 <= i < b.len() implies is_digit(#[trigger] b[i]) by {}
    }
    if is_number(b) {
        assert forall|i: int| 0 <= i < b.len() implies 0x30 <= #[trigger] b[i] <= 0x39 by {
            assert(is_digit(b[i]));
        }
    }
}

proof fn lemma_behind_text(text: Seq<char>, rest: Seq<char>)
    ensures
        is_char_boundary(encode_utf8(text) + encode_utf8(rest), encode_utf8(text).len() as int),
{
    let (a, r) = (encode_utf8(text), encode_utf8(rest));
    encode_utf8_valid_utf8(text);
    encode_utf8_valid_utf8(rest);
    valid_utf8_concat(a, r);
    if r.len() == 0 {
        is_char_boundary_start_end_of_seq(a + r);
    } else {
        assert((a + r)[a.len() as int] == r[0]);
        assert(valid_first_scalar(r));
        is_char_boundary_iff_not_is_continuation_byte(a + r, a.len() as int);
    }
}

/// A string is its length in digits, a colon and as many bytes of text; what
/// stands behind it is left.
pub proof fn law_string_is_read(
    digits: Seq<u8>,
    text: Seq<char>,
    rest: Seq<char>,
    input: &str,
    r: Result<(Value, &str), DecodeError>,
)
    requires
        all_digits(digits),
        digits_read(digits) == encode_utf8(text).len() <= usize::MAX,
        encode_utf8(input@) == digits + seq![0x3au8] + encode_utf8(text) + encode_utf8(rest),
        call_ensures(decode_bencoded_value, (input,), r),
    ensures
        r matches Ok((Value::Text(s), left)) && s@ == text && left@ == rest,
{
    let b = encode_utf8(input@);
    let bytes = encode_utf8(text);
    let behind = bytes + encode_utf8(rest);
    let k = digits.len() as int;
    lemma_all_digits(digits);
    assert(!digits.contains(0x3a));
    lemma_first_index(digits, 0x3a, behind);
    assert(b =~= digits + seq![0x3au8] + behind);
    assert(b.take(k) =~= digits);
    assert(b.skip(k + 1) =~= behind);
    lemma_behind_text(text, rest);
    assert(behind.take(bytes.len() as int) =~= bytes);
    encode_utf8_decode_utf8(text);
    assert(b[0] == digits[0]);
    assert(decode(b) == decode_string(b));
    assert(decode(b) == Ok::<(Data, int), DecodeError>((Data::Text(text), k + 1 + bytes.len())));
    if let Ok((value, left)) = r {
        assert(value@ == Data::Text(text));
        assert(value is Text);
        assert(encode_utf8(left@) =~= encode_utf8(rest));
        encode_utf8_decode_utf8(left@);
        encode_utf8_decode_utf8(rest);
    }
}

/// A string without a colon, with anything but digits before the colon, or with
/// a length that does not end between two characters of what is there, is refused.
pub proof fn law_bad_string_is_refused(input: &str, r: Result<(Value, &str), DecodeError>)
    requires
        encode_utf8(input@).len() > 0,
        0x30 <= encode_utf8(input@)[0] <= 0x39,
        call_ensures(decode_bencoded_value, (input,), r),
    ensures
        !encode_utf8(input@).contains(0x3a) <==> (r matches Err(DecodeError::MissingColon)),
        forall|len: Seq<u8>, behind: Seq<u8>|
            #![trigger len + seq![0x3au8] + behind]
            encode_utf8(input@) == len + seq![0x3au8] + behind && !len.contains(0x3a) ==> {
                &&& (!all_digits(len) || digits_read(len) > usize::MAX) <==> (r matches Err(
                    DecodeError::InvalidLength,
                ))
                &&& all_digits(len) && digits_read(len) <= usize::MAX && !is_char_boundary(
                    behind,
                    digits_read(len),
                ) <==> (r matches Err(DecodeError::UnevenString))
            },
{
    let b = encode_utf8(input@);
    b.index_of_first_ensures(0x3a);
    assert(decode(b) == decode_string(b));
    assert forall|len: Seq<u8>, behind: Seq<u8>|
        #![trigger len + seq![0x3au8] + behind]
        b == len + seq![0x3au8] + behind && !len.contains(0x3a) implies {
        &&& (!all_digits(len) || digits_read(len) > usize::MAX) <==> (r matches Err(
            DecodeError::InvalidLength,
        ))
        &&& all_digits(len) && digits_read(len) <= usize::MAX && !is_char_boundary(
            behind,
            digits_read(len),
        ) <==> (r matches Err(DecodeError::UnevenString))
    } by {
        lemma_first_index(len, 0x3a, behind);
        lemma_all_digits(len);
        assert(b.take(len.len() as int) =~= len);
        assert(b.skip(len.len() as int + 1) =~= behind);
        assert(b[len.len() as int] == 0x3a);
    }
}

/// The decimal notation of an integer: an optional sign, and digits.
pub open spec fn integer_read(text: Seq<u8>) -> Option<int> {
    if all_digits(text) {
        Some(digits_read(text))
    } else if text.len() > 0 && text[0] == 0x2b && all_digits(text.skip(1)) {
        Some(digits_read(text.skip(1)))
    } else if text.len() > 0 && text[0] == 0x2d && all_digits(text.skip(1)) {
        Some(-digits_read(text.skip(1)))
    } else {
        None
    }
}

proof fn lemma_integer_read(text: Seq<u8>)
    ensures
        integer_read(text) == signed_value(text),
{
    lemma_all_digits(text);
    lemma_all_digits(text.skip(1));
    if text.len() > 0 && (text[0] == 0x2d || text[0] == 0x2b) {
        assert(!all_digits(text));
    }
}

/// An integer stands between `i` and the first `e`. It is read where it has 64
/// bits, and refused where it has more or is none; what stands behind the `e` is
/// left.
pub proof fn law_integer_is_read(
    text: Seq<u8>,
    rest: Seq<u8>,
    input: &str,
    r: Result<(Value, &str), DecodeError>,
)
    requires
        !text.contains(0x65),
        !text.contains(0x2e),
        encode_utf8(input@) == seq![0x69u8] + text + seq![0x65u8] + rest,
        call_ensures(decode_bencoded_value, (input,), r),
    ensures
        match integer_read(text) {
            Some(n) if -0x8000_0000_0000_0000 <= n < 0x8000_0000_0000_0000 => r matches Ok(
                (Value::Integer(x), left),
            ) && x == n && encode_utf8(left@) == rest,
            _ => r matches Err(DecodeError::InvalidNumber),
        },
{
    let b = encode_utf8(input@);
    let inner = text + seq![0x65u8] + rest;
    let k = text.len() as int;
    assert(b.skip(1) =~= inner);
    lemma_first_index(text, 0x65, rest);
    assert(inner.take(k) =~= text);
    lemma_integer_read(text);
    assert(b[0] == 0x69);
    match integer_read(text) {
        Some(n) if -0x8000_0000_0000_0000 <= n < 0x8000_0000_0000_0000 => {
            assert(decode_number(inner) == Ok::<(Data, int), DecodeError>(
                (Data::Integer(n), k + 1),
            ));
            if let Ok((value, left)) = r {
                assert(value@ == Data::Integer(n));
                assert(value is Integer);
                assert(b.skip(k + 2) =~= rest);
            }
        },
        _ => {
            assert(decode_number(inner) == Err::<(Data, int), DecodeError>(
                DecodeError::InvalidNumber,
            ));
        },
    }
}

/// A number with a point between `i` and the first `e` is kept as it is written.
pub proof fn law_fraction_is_read(
    text: Seq<char>,
    rest: Seq<u8>,
    input: &str,
    r: Result<(Value, &str), DecodeError>,
)
    requires
        !encode_utf8(text).contains(0x65),
        encode_utf8(text).contains(0x2e),
        encode_utf8(input@) == seq![0x69u8] + encode_utf8(text) + seq![0x65u8] + rest,
        call_ensures(decode_bencoded_value, (input,), r),
    ensures
        r matches Ok((Value::Fraction(s), left)) && s@ == text && encode_utf8(left@) == rest,
{
    let b = encode_utf8(input@);
    let bytes = encode_utf8(text);
    let inner = bytes + seq![0x65u8] + rest;
    let k = bytes.len() as int;
    assert(b.skip(1) =~= inner);
    lemma_first_index(bytes, 0x65, rest);
    assert(inner.take(k) =~= bytes);
    encode_utf8_decode_utf8(text);
    assert(b[0] == 0x69);
    if let Ok((value, left)) = r {
        assert(value@ == Data::Fraction(text));
        assert(value is Fraction);
        assert(b.skip(k + 2) =~= rest);
    }
}

/// A number without an `e` is refused.
pub proof fn law_unclosed_number_is_refused(input: &str, r: Result<(Value, &str), DecodeError>)
    requires
        encode_utf8(input@).len() > 0,
        encode_utf8(input@)[0] == 0x69,
        call_ensures(decode_bencoded_value, (input,), r),
    ensures
        !encode_utf8(input@).contains(0x65) <==> (r matches Err(DecodeError::UnclosedNumber)),
{
    let b = encode_utf8(input@);
    let inner = b.skip(1);
    inner.index_of_first_ensures(0x65);
    if b.contains(0x65) {
        let i = b.index_of(0x65);
        assert(inner[i - 1] == 0x65);
    } else if inner.contains(0x65) {
        let i = inner.index_of(0x65);
        assert(b[i + 1] == 0x65);
    }
}

/// An empty input holds nothing, and an input that starts with anything but `l`,
/// `i` or a digit is refused.
pub proof fn law_first_byte_decides(input: &str, r: Result<(Value, &str), DecodeError>)
    requires
        call_ensures(decode_bencoded_value, (input,), r),
    ensures
        encode_utf8(input@).len() == 0 ==> (r matches Ok((Value::Null, left))
            && encode_utf8(left@).len() == 0),
        encode_utf8(input@).len() > 0 && encode_utf8(input@)[0] != 0x6c && encode_utf8(input@)[0]
            != 0x69 && !(0x30 <= encode_utf8(input@)[0] <= 0x39) ==> (r matches Err(
            DecodeError::UnknownMark,
        )),
{
    let b = encode_utf8(input@);
    if b.len() == 0 {
        if let Ok((value, left)) = r {
            assert(value@ == Data::Null);
            assert(value is Null);
        }
    }
}

/// `l` and `e` around nothing are an empty list; `l` alone is refused.
pub proof fn law_empty_list_is_read(
    rest: Seq<u8>,
    input: &str,
    r: Result<(Value, &str), DecodeError>,
    bare: &str,
    s: Result<(Value, &str), DecodeError>,
)
    requires
        encode_utf8(input@) == seq![0x6cu8, 0x65u8] + rest,
        call_ensures(decode_bencoded_value, (input,), r),
        encode_utf8(bare@) == seq![0x6cu8],
        call_ensures(decode_bencoded_value, (bare,), s),
    ensures
        r matches Ok((Value::List(items), left)) && items@.len() == 0 && encode_utf8(left@) == rest,
        s matches Err(DecodeError::UnclosedList),
{
    let b = encode_utf8(input@);
    assert(b[0] == 0x6c);
    assert(b.skip(1)[0] == 0x65);
    assert(decode_items(b.skip(1)) == Ok::<(Seq<Data>, int), DecodeError>((seq![], 0)));
    if let Ok((value, left)) = r {
        assert(value@ == Data::List(seq![]));
        assert(value is List);
        if let Value::List(items) = value {
            assert(value@->List_0.len() == items@.len());
        }
        assert(b.skip(2) =~= rest);
    }
    let c = encode_utf8(bare@);
    assert(c.skip(1).len() == 0);
    assert(decode_items(c.skip(1)) == Ok::<(Seq<Data>, int), DecodeError>((seq![], 0)));
}

/// A list is read value by value. Let `item` be an input that does not start with
/// `e`, and `others` be `l` and what is left of `item` behind its first value.
/// Then `l` and `item` hold the list of `others` with that value in front; and
/// they are refused, for the same reason, where one of the two is.
pub proof fn law_list_is_read_value_by_value(
    item: &str,
    first: Result<(Value, &str), DecodeError>,
    others: &str,
    shorter: Result<(Value, &str), DecodeError>,
    whole: &str,
    r: Result<(Value, &str), DecodeError>,
)
    requires
        encode_utf8(item@).len() > 0,
        encode_utf8(item@)[0] != 0x65,
        call_ensures(decode_bencoded_value, (item,), first),
        first matches Ok((_, left)) ==> encode_utf8(others@) == seq![0x6cu8] + encode_utf8(left@),
        call_ensures(decode_bencoded_value, (others,), shorter),
        encode_utf8(whole@) == seq![0x6cu8] + encode_utf8(item@),
        call_ensures(decode_bencoded_value, (whole,), r),
    ensures
        first matches Err(e) ==> (r matches Err(x) && x == e),
        first matches Ok((v, _)) ==> match shorter {
            Err(e) => r matches Err(x) && x == e,
            Ok((Value::List(values), end)) => {
                &&& r matches Ok((Value::List(items), left))
                &&& items@.len() == values@.len() + 1
                &&& items@[0]@ == v@
                &&& forall|i: int|
                    0 <= i < values@.len() ==> (#[trigger] items@[i + 1])@ == values@[i]@
                &&& encode_utf8(left@) == encode_utf8(end@)
            },
            Ok(_) => false,
        },
{
    let a = encode_utf8(item@);
    let b = encode_utf8(whole@);
    encode_utf8_valid_utf8(item@);
    assert(b.skip(1) =~= a);
    assert(b[0] == 0x6c);
    if let Ok((v, left)) = first {
        law_decode_extent(a);
        let n = decode(a)->Ok_0.1;
        let c = encode_utf8(others@);
        assert(c.skip(1) =~= encode_utf8(left@));
        assert(c.skip(1) =~= a.skip(n));
        assert(c[0] == 0x6c);
        match decode_items(a.skip(n)) {
            Err(e) => {},
            Ok((rest, m)) => {
                assert(decode_items(a) == Ok::<(Seq<Data>, int), DecodeError>(
                    (seq![v@] + rest, n + m),
                ));
                encode_utf8_valid_utf8(left@);
                lemma_items_extent(a.skip(n));
                if 1 + m < c.len() {
                    assert(c.len() == 1 + a.len() - n);
                    if let Ok((sv, end)) = shorter {
                        assert(sv@ == Data::List(rest));
                        assert(sv is List);
                        if let Ok((rv, tail)) = r {
                            assert(rv@ == Data::List(seq![v@] + rest));
                            assert(rv is List);
                            let (items, values) = (rv->List_0, sv->List_0);
                            assert(rv@->List_0.len() == items@.len());
                            assert(sv@->List_0.len() == values@.len());
                            assert(rv@->List_0[0] == items@[0]@);
                            assert forall|i: int| 0 <= i < values@.len() implies (
                            #[trigger] items@[i + 1])@ == values@[i]@ by {
                                assert(rv@->List_0[i + 1] == items@[i + 1]@);
                                assert(sv@->List_0[i] == values@[i]@);
                            }
                            assert(b.skip(n + m + 2) =~= c.skip(m + 2));
                        }
                    }
                } else {
                    assert(!(1 + n + m < b.len()));
                }
            },
        }
    }
}

} // verus!
