//! What the library takes from other crates and from the standard library
//! without proof: each item states what it relies on.

use bytes::{Buf, BufMut, BytesMut};
use reqwest::Url;
use sha1::{Digest, Sha1};
use std::path::PathBuf;
use std::str::FromStr;
use vstd::prelude::*;

verus! {

/// `std::path::PathBuf`, carried through and never looked into.
#[verifier::external_type_specification]
#[verifier::external_body]
pub struct ExPathBuf(PathBuf);

/// `bytes::BytesMut`, the growable byte buffer that frames are read from and
/// written to.
#[verifier::external_type_specification]
#[verifier::external_body]
pub struct ExBytesMut(BytesMut);

/// The readable bytes of a `bytes::BytesMut`, oldest first.
pub uninterp spec fn buffered(buf: BytesMut) -> Seq<u8>;

/// `BytesMut::new`: an empty buffer.
pub assume_specification[ BytesMut::new ]() -> (buf: BytesMut)
    ensures
        buffered(buf) == Seq::<u8>::empty(),
;

/// `BytesMut::len`: the number of readable bytes.
pub assume_specification[ BytesMut::len ](buf: &BytesMut) -> (n: usize)
    ensures
        n == buffered(*buf).len(),
;

/// `BytesMut::reserve`: makes room and leaves the readable bytes as they are. It
/// panics where it cannot have the memory that it asks for: at most `isize::MAX`
/// bytes, which can be up to four times the bytes to hold, since the buffer
/// keeps the place of bytes that were read and grows by doubling.
pub assume_specification[ BytesMut::reserve ](buf: &mut BytesMut, additional: usize)
    requires
        4 * (buffered(*old(buf)).len() + additional) <= isize::MAX,
    ensures
        buffered(*final(buf)) == buffered(*old(buf)),
;

/// `BytesMut::extend_from_slice`: makes room as `BytesMut::reserve` does, and
/// appends the bytes of the slice.
pub assume_specification[ BytesMut::extend_from_slice ](buf: &mut BytesMut, extend: &[u8])
    requires
        4 * (buffered(*old(buf)).len() + extend@.len()) <= isize::MAX,
    ensures
        buffered(*final(buf)) == buffered(*old(buf)) + extend@,
;

/// `BufMut::put_u8` on a `BytesMut`: makes room as `BytesMut::reserve` does, and
/// appends one byte.
#[verifier::external_body]
pub(crate) fn put_u8(buf: &mut BytesMut, n: u8)
    requires
        4 * (buffered(*old(buf)).len() + 1) <= isize::MAX,
    ensures
        buffered(*final(buf)) == buffered(*old(buf)).push(n),
{
    buf.put_u8(n)
}

/// `Buf::advance` on a `BytesMut`: drops the first `cnt` readable bytes. It
/// panics where there are fewer.
#[verifier::external_body]
pub(crate) fn advance(buf: &mut BytesMut, cnt: usize)
    requires
        cnt <= buffered(*old(buf)).len(),
    ensures
        buffered(*final(buf)) == buffered(*old(buf)).skip(cnt as int),
{
    buf.advance(cnt)
}

/// `AsRef::as_ref` on a `BytesMut`: the readable bytes as a slice.
#[verifier::external_body]
pub(crate) fn readable(buf: &BytesMut) -> (bytes: &[u8])
    ensures
        bytes@ == buffered(*buf),
{
    buf.as_ref()
}

/// The SHA-1 digest of a message.
pub uninterp spec fn sha1_digest(message: Seq<u8>) -> Seq<u8>;

/// `sha1::Sha1::digest`: the digest of `message`, 20 bytes. SHA-1 is defined
/// for messages of less than 2^64 bits.
#[verifier::external_body]
pub(crate) fn sha1(message: &[u8]) -> (digest: [u8; 20])
    requires
        message@.len() * 8 <= u64::MAX,
    ensures
        digest@ == sha1_digest(message@),
{
    Sha1::digest(message).into()
}

/// The address of `announce` with its query replaced by `query`, as text;
/// `None` where `announce` is no URL.
pub uninterp spec fn url_with_query(announce: Seq<char>, query: Seq<char>) -> Option<Seq<char>>;

/// `reqwest::Url`: reads `announce` with `Url::from_str`, replaces the query with
/// `Url::set_query` and gives the address back as text with `String::from`. The
/// address counts its bytes in 32 bits and panics beyond that; the bound leaves
/// 256 bytes for each character of the arguments, which none takes up.
#[verifier::external_body]
pub(crate) fn set_url_query(announce: &str, query: &str) -> (url: Option<String>)
    requires
        announce@.len() + query@.len() < 0x100_0000,
    ensures
        match url {
            Some(text) => url_with_query(announce@, query@) == Some(text@),
            None => url_with_query(announce@, query@) is None,
        },
{
    let mut url = Url::from_str(announce).ok()?;
    url.set_query(Some(query));
    Some(url.into())
}

/// The lower case hexadecimal digit of a number below sixteen.
pub open spec fn hex_digit(d: int) -> char {
    if d < 10 {
        (0x30 + d) as char
    } else {
        (0x61 + d - 10) as char
    }
}

/// Bytes in hexadecimal: two lower case digits each, the high half first.
pub open spec fn hex_text(bytes: Seq<u8>) -> Seq<char> {
    Seq::new(
        bytes.len() * 2,
        |i: int|
            if i % 2 == 0 {
                hex_digit(bytes[i / 2] as int / 16)
            } else {
                hex_digit(bytes[i / 2] as int % 16)
            },
    )
}

/// `hex::encode`: the bytes in lower case hexadecimal. A text has at most
/// `isize::MAX` bytes.
#[verifier::external_body]
pub(crate) fn hex_encode(bytes: &[u8]) -> (text: String)
    requires
        bytes@.len() * 2 <= isize::MAX,
    ensures
        text@ == hex_text(bytes@),
{
    hex::encode(bytes)
}

/// Whether a byte goes into a URL as it is: letters, digits, `-`, `.`, `_`
/// and `~`.
pub open spec fn unreserved(b: u8) -> bool {
    ||| 0x30 <= b <= 0x39
    ||| 0x41 <= b <= 0x5a
    ||| 0x61 <= b <= 0x7a
    ||| b == 0x2d
    ||| b == 0x2e
    ||| b == 0x5f
    ||| b == 0x7e
}

/// The upper case hexadecimal digit of a number below sixteen.
pub open spec fn upper_hex_digit(d: int) -> char {
    if d < 10 {
        (0x30 + d) as char
    } else {
        (0x41 + d - 10) as char
    }
}

/// Bytes in percent-encoding: an unreserved byte as its character, another as
/// `%` and two upper case hexadecimal digits.
pub open spec fn percent_text(bytes: Seq<u8>) -> Seq<char>
    decreases bytes.len(),
{
    if bytes.len() == 0 {
        Seq::empty()
    } else if unreserved(bytes.last()) {
        percent_text(bytes.drop_last()) + seq![bytes.last() as char]
    } else {
        percent_text(bytes.drop_last()) + seq![
            '%',
            upper_hex_digit(bytes.last() as int / 16),
            upper_hex_digit(bytes.last() as int % 16),
        ]
    }
}

/// `urlencoding::encode_binary`: the bytes in percent-encoding. The text, of up
/// to three characters a byte, grows by doubling.
#[verifier::external_body]
pub(crate) fn percent_encode(bytes: &[u8]) -> (text: String)
    requires
        bytes@.len() * 6 + 30 <= isize::MAX,
    ensures
        text@ == percent_text(bytes@),
{
    urlencoding::encode_binary(bytes).into_owned()
}

} // verus!
