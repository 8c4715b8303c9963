use bittorrent::bencode::{decode_bencoded_value, DecodeError, Value};
use bittorrent::decimal::{decimal_text, push_decimal, push_decimal_text};

fn text(s: &str) -> Value {
    Value::Text(s.to_string())
}

#[test]
fn decodes_a_string_and_leaves_the_rest() {
    assert_eq!(decode_bencoded_value("5:hello"), Ok((text("hello"), "")));
    assert_eq!(decode_bencoded_value("5:hello3:abc"), Ok((text("hello"), "3:abc")));
    assert_eq!(decode_bencoded_value("0:"), Ok((text(""), "")));
    assert_eq!(decode_bencoded_value("003:abc"), Ok((text("abc"), "")));
    assert_eq!(decode_bencoded_value("2:éx"), Ok((text("é"), "x")));
    assert_eq!(decode_bencoded_value("3:a:b"), Ok((text("a:b"), "")));
}

#[test]
fn decodes_integers() {
    assert_eq!(decode_bencoded_value("i52e"), Ok((Value::Integer(52), "")));
    assert_eq!(decode_bencoded_value("i-52e"), Ok((Value::Integer(-52), "")));
    assert_eq!(decode_bencoded_value("i+7erest"), Ok((Value::Integer(7), "rest")));
    assert_eq!(decode_bencoded_value("i-0e"), Ok((Value::Integer(0), "")));
    assert_eq!(decode_bencoded_value("i007e"), Ok((Value::Integer(7), "")));
    assert_eq!(
        decode_bencoded_value("i9223372036854775807e"),
        Ok((Value::Integer(i64::MAX), ""))
    );
    assert_eq!(
        decode_bencoded_value("i-9223372036854775808e"),
        Ok((Value::Integer(i64::MIN), ""))
    );
}

#[test]
fn keeps_the_notation_of_fractions() {
    assert_eq!(
        decode_bencoded_value("i3.14ex"),
        Ok((Value::Fraction("3.14".to_string()), "x"))
    );
}

#[test]
fn decodes_lists() {
    assert_eq!(
        decode_bencoded_value("l5:helloi52ee"),
        Ok((Value::List(vec![text("hello"), Value::Integer(52)]), ""))
    );
    assert_eq!(decode_bencoded_value("le"), Ok((Value::List(vec![]), "")));
    assert_eq!(
        decode_bencoded_value("lli1eelee2:ok"),
        Ok((
            Value::List(vec![
                Value::List(vec![Value::Integer(1)]),
                Value::List(vec![])
            ]),
            "2:ok"
        ))
    );
}

#[test]
fn an_empty_input_holds_nothing() {
    assert_eq!(decode_bencoded_value(""), Ok((Value::Null, "")));
}

#[test]
fn refuses_what_is_no_bencoded_value() {
    assert_eq!(decode_bencoded_value("li1e"), Err(DecodeError::UnclosedList));
    assert_eq!(decode_bencoded_value("l"), Err(DecodeError::UnclosedList));
    assert_eq!(decode_bencoded_value("i12"), Err(DecodeError::UnclosedNumber));
    assert_eq!(decode_bencoded_value("ie"), Err(DecodeError::InvalidNumber));
    assert_eq!(decode_bencoded_value("i1x2e"), Err(DecodeError::InvalidNumber));
    assert_eq!(
        decode_bencoded_value("i9223372036854775808e"),
        Err(DecodeError::InvalidNumber)
    );
    assert_eq!(decode_bencoded_value("5hello"), Err(DecodeError::MissingColon));
    assert_eq!(decode_bencoded_value("5x:hello"), Err(DecodeError::InvalidLength));
    assert_eq!(
        decode_bencoded_value("99999999999999999999:a"),
        Err(DecodeError::InvalidLength)
    );
    assert_eq!(decode_bencoded_value("6:hello"), Err(DecodeError::UnevenString));
    assert_eq!(decode_bencoded_value("1:é"), Err(DecodeError::UnevenString));
    assert_eq!(decode_bencoded_value("d3:fooe"), Err(DecodeError::UnknownMark));
    assert_eq!(decode_bencoded_value("-1"), Err(DecodeError::UnknownMark));
    assert_eq!(decode_bencoded_value("l1:ax"), Err(DecodeError::UnknownMark));
}

#[test]
fn what_serde_bencode_writes_is_read_back() {
    let value = serde_bencode::value::Value::List(vec![
        serde_bencode::value::Value::Bytes(b"spam".to_vec()),
        serde_bencode::value::Value::Int(-7),
        serde_bencode::value::Value::List(vec![]),
    ]);
    let bytes = serde_bencode::to_bytes(&value).unwrap();
    let mut input = String::from_utf8(bytes).unwrap();
    input.push_str("i1e");
    assert_eq!(
        decode_bencoded_value(&input),
        Ok((
            Value::List(vec![text("spam"), Value::Integer(-7), Value::List(vec![])]),
            "i1e"
        ))
    );
}

#[test]
fn writes_decimal_numbers() {
    assert_eq!(decimal_text(0), "0");
    assert_eq!(decimal_text(9), "9");
    assert_eq!(decimal_text(10), "10");
    assert_eq!(decimal_text(1234567890), "1234567890");
    assert_eq!(decimal_text(usize::MAX), format!("{}", usize::MAX));
    let mut bytes = b"x=".to_vec();
    push_decimal(&mut bytes, 407);
    assert_eq!(bytes, b"x=407");
    let mut s = String::from("y=");
    push_decimal_text(&mut s, 56);
    assert_eq!(s, "y=56");
}
