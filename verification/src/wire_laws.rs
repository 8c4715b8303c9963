//! What goes over the wire between peers: the place and the meaning of each byte.

use crate::decimal::{ascii_text, decimal};
use crate::notation::{is_notation, law_notation_is_read_back};
use crate::outside::buffered;
use crate::peer::{
    law_bit_field_lists_set_bits, Bitfield, FrameTooLarge, Handshake, NoBitfield, PeerHandle,
    PeerMessage, PeerMessageCodec, Status,
};
use crate::peer_agent::HashMismatch;
use crate::wire::{
    array20, be32, be_bytes, law_be32_of_be_bytes, law_be_bytes_of_be32, read_be32, same20, write_be32,
};
use bytes::BytesMut;
use vstd::prelude::*;

verus! {

/// The number at `at`: four bytes, each of which counts 256 times the one behind
/// it.
pub open spec fn number_at(bytes: Seq<u8>, at: int) -> int {
    ((bytes[at] * 256 + bytes[at + 1]) * 256 + bytes[at + 2]) * 256 + bytes[at + 3]
}

/// Bit `i` of `bytes`, counted from the highest bit of the first byte.
pub open spec fn bit_at(bytes: Seq<u8>, i: int) -> bool {
    (bytes[i / 8] >> ((7 - i % 8) as u8)) & 1u8 == 1u8
}

proof fn lemma_bit(byte: u8, shift: u8)
    requires
        shift < 8,
    ensures
        ((byte >> shift) & 1u8 == 1u8) == ((byte >> shift) & 1u8 != 0),
{
    assert(((byte >> shift) & 1u8 == 1u8) == ((byte >> shift) & 1u8 != 0)) by (bit_vector);
}

/// A number is read from four bytes, the most significant first.
pub proof fn law_number_is_read(b: [u8; 4], n: u32)
    requires
        call_ensures(read_be32, (&b,), n),
    ensures
        n == number_at(b@, 0),
{
}

/// The four bytes of a number stand for its low 32 bits.
pub(crate) proof fn lemma_number_bytes(n: int)
    requires
        0 <= n,
    ensures
        number_at(be_bytes(n), 0) == n % 0x1_0000_0000,
{
    let m = n % 0x1_0000_0000;
    let q = n / 0x1_0000_0000;
    assert(n == 0x1_0000_0000 * q + m);
    assert(n / 0x100_0000 == 0x100 * q + m / 0x100_0000);
    assert(n / 0x1_0000 == 0x1_0000 * q + m / 0x1_0000);
    assert(n / 0x100 == 0x100_0000 * q + m / 0x100);
    assert((0x100 * q + m / 0x100_0000) % 0x100 == (m / 0x100_0000) % 0x100);
    assert((0x1_0000 * q + m / 0x1_0000) % 0x100 == (m / 0x1_0000) % 0x100);
    assert((0x100_0000 * q + m / 0x100) % 0x100 == (m / 0x100) % 0x100);
    assert(be_bytes(n) =~= be_bytes(m));
    law_be32_of_be_bytes(m);
}

/// A number is written as four bytes, the most significant first; of a number
/// above 32 bits the low 32 bits are written.
pub proof fn law_number_is_written(n: usize, b: [u8; 4])
    requires
        call_ensures(write_be32, (n,), b),
    ensures
        number_at(b@, 0) == n as int % 0x1_0000_0000,
{
    lemma_number_bytes(n as int);
}

/// A digest is taken from where it stands.
pub proof fn law_digest_is_taken(bytes: &[u8], from: usize, a: [u8; 20], i: int)
    requires
        call_ensures(array20, (bytes, from), a),
        from + 20 <= bytes@.len(),
        0 <= i < 20,
    ensures
        a@[i] == bytes@[from + i],
{
}

/// Two digests are the same exactly where each byte is.
pub proof fn law_digests_compare_bytewise(a: [u8; 20], b: [u8; 20], same: bool)
    requires
        call_ensures(same20, (&a, &b), same),
    ensures
        same <==> forall|i: int| 0 <= i < 20 ==> #[trigger] a@[i] == b@[i],
{
    if forall|i: int| 0 <= i < 20 ==> #[trigger] a@[i] == b@[i] {
        assert(a@ =~= b@);
    }
}

/// On the wire a handshake has 68 bytes: the length, the protocol string, the
/// reserved bytes, the hash of the torrent and the identifier of the sender.
pub proof fn law_handshake_layout(h: Handshake, sent: BytesMut)
    requires
        call_ensures(Handshake::to_bytes, (&h,), sent),
    ensures
        buffered(sent).len() == 68,
        buffered(sent)[0] == h.length,
        buffered(sent).subrange(1, 20) == h.string@,
        buffered(sent).subrange(20, 28) == h.reserved@,
        buffered(sent).subrange(28, 48) == h.info_hash@,
        buffered(sent).subrange(48, 68) == h.peer_id@,
{
    let b = buffered(sent);
    assert(b.subrange(1, 20) =~= h.string@);
    assert(b.subrange(20, 28) =~= h.reserved@);
    assert(b.subrange(28, 48) =~= h.info_hash@);
    assert(b.subrange(48, 68) =~= h.peer_id@);
}

/// This client's handshake goes out as the length 19, `BitTorrent protocol`,
/// eight zero bytes, the hash of the torrent and the identifier of the client.
pub proof fn law_own_handshake_layout(
    info_hash: [u8; 20],
    peer_id: [u8; 20],
    h: Handshake,
    sent: BytesMut,
)
    requires
        call_ensures(Handshake::new, (info_hash, peer_id), h),
        call_ensures(Handshake::to_bytes, (&h,), sent),
    ensures
        buffered(sent).len() == 68,
        buffered(sent)[0] == 19,
        forall|i: int|
            0 <= i < 19 ==> #[trigger] buffered(sent)[1 + i] == ("BitTorrent protocol"@)[i] as u8,
        forall|i: int| 20 <= i < 28 ==> #[trigger] buffered(sent)[i] == 0,
        buffered(sent).subrange(28, 48) == info_hash@,
        buffered(sent).subrange(48, 68) == peer_id@,
{
    reveal_strlit("BitTorrent protocol");
    law_handshake_layout(h, sent);
    let b = buffered(sent);
    assert forall|i: int| 0 <= i < 19 implies #[trigger] b[1 + i] == ("BitTorrent protocol"@)[i] as u8 by {
        assert(b[1 + i] == b.subrange(1, 20)[i]);
        assert(h.string@[i] == ("BitTorrent protocol"@)[i] as u8);
    }
    assert forall|i: int| 20 <= i < 28 implies #[trigger] b[i] == 0 by {
        assert(b[i] == b.subrange(20, 28)[i - 20]);
    }
}

/// A handshake is read from its 68 bytes field by field.
pub proof fn law_handshake_is_read(bytes: [u8; 68], h: Handshake)
    requires
        call_ensures(Handshake::from_bytes, (&bytes,), h),
    ensures
        h.length == bytes@[0],
        h.string@ == bytes@.subrange(1, 20),
        h.reserved@ == bytes@.subrange(20, 28),
        h.info_hash@ == bytes@.subrange(28, 48),
        h.peer_id@ == bytes@.subrange(48, 68),
{
}

/// A new message is blank.
pub proof fn law_new_message_is_blank(m: PeerMessage)
    requires
        call_ensures(PeerMessage::new, (), m),
    ensures
        m.length@ == seq![0u8, 0u8, 0u8, 0u8],
        m.kind == 0,
        m.content@.len() == 0,
{
    assert(m@.length == m.length@);
    assert(m@.content == m.content@);
    assert(m@.kind == m.kind);
    assert(m.length@ =~= seq![0u8, 0u8, 0u8, 0u8]);
}

/// A request has the length 13 and the kind 6, and holds the piece, the offset
/// and the number of bytes, one after the other, with 32 bits each.
pub proof fn law_request_layout(piece_i: usize, offset: usize, block_size: usize, m: PeerMessage)
    requires
        call_ensures(PeerMessage::new_request, (piece_i, offset, block_size), m),
    ensures
        m.length@ == seq![0u8, 0u8, 0u8, 13u8],
        m.kind == 6,
        m.content@.len() == 12,
        number_at(m.content@, 0) == piece_i as int % 0x1_0000_0000,
        number_at(m.content@, 4) == offset as int % 0x1_0000_0000,
        number_at(m.content@, 8) == block_size as int % 0x1_0000_0000,
{
    assert(m@.length == m.length@);
    assert(m@.content == m.content@);
    assert(m@.kind == m.kind);
    assert(m.length@ =~= seq![0u8, 0u8, 0u8, 13u8]);
    let c = m.content@;
    let (p, o, s) = (
        be_bytes(piece_i as int),
        be_bytes(offset as int),
        be_bytes(block_size as int),
    );
    assert(c == p + o + s);
    assert(c[0] == p[0] && c[1] == p[1] && c[2] == p[2] && c[3] == p[3]);
    assert(c[4] == o[0] && c[5] == o[1] && c[6] == o[2] && c[7] == o[3]);
    assert(c[8] == s[0] && c[9] == s[1] && c[10] == s[2] && c[11] == s[3]);
    lemma_number_bytes(piece_i as int);
    lemma_number_bytes(offset as int);
    lemma_number_bytes(block_size as int);
}

/// Interest is told by the kind 2 alone.
pub proof fn law_interested_layout(m: PeerMessage)
    requires
        call_ensures(PeerMessage::interested, (), m),
    ensures
        m.length@ == seq![0u8, 0u8, 0u8, 1u8],
        m.kind == 2,
        m.content@.len() == 0,
{
    assert(m@.length == m.length@);
    assert(m@.content == m.content@);
    assert(m@.kind == m.kind);
    assert(m.length@ =~= seq![0u8, 0u8, 0u8, 1u8]);
}

/// On the wire a message is its length field, its kind and its content.
pub proof fn law_message_layout(m: PeerMessage, sent: BytesMut)
    requires
        call_ensures(PeerMessage::to_bytes, (&m,), sent),
    ensures
        buffered(sent).len() == 5 + m.content@.len(),
        buffered(sent).take(4) == m.length@,
        buffered(sent)[4] == m.kind,
        buffered(sent).skip(5) == m.content@,
{
    assert(m@.length == m.length@);
    assert(m@.content == m.content@);
    assert(m@.kind == m.kind);
    assert(buffered(sent).take(4) =~= m.length@);
    assert(buffered(sent).skip(5) =~= m.content@);
}

/// A length field counts the kind and the content.
pub proof fn law_content_is_one_less(length: [u8; 4], n: usize)
    requires
        call_ensures(PeerMessage::content_length, (&length,), n),
    ensures
        n + 1 == number_at(length@, 0),
{
}

/// What is read from the bytes that came in: nothing while no more than a length
/// field is there; a refusal where that is above 32768; nothing while the bytes
/// that it counts are not all there; else the fifth byte as the kind and the
/// counted bytes behind it as the content. Those bytes leave the buffer, and no
/// others do.
pub proof fn law_frame_layout_read(
    codec: &mut PeerMessageCodec,
    src: &mut BytesMut,
    r: Result<Option<PeerMessage>, FrameTooLarge>,
)
    requires
        call_ensures(PeerMessageCodec::decode, (codec, src), r),
        buffered(*old(src)).len() > 4 ==> number_at(buffered(*old(src)), 0) > 0,
    ensures
        ({
            let b = buffered(*old(src));
            let left = buffered(*final(src));
            let n = number_at(b, 0);
            if b.len() <= 4 {
                r matches Ok(None) && left == b
            } else if n > 32768 {
                r matches Err(e) && e.length == n && left == b
            } else if b.len() < 4 + n {
                r matches Ok(None) && left == b
            } else {
                &&& r matches Ok(Some(m))
                &&& m.length@ == b.take(4)
                &&& m.kind == b[4]
                &&& m.content@ == b.subrange(5, 4 + n)
                &&& left == b.skip(4 + n)
            }
        }),
{
    let b = buffered(*old(src));
    if b.len() > 4 {
        let head = b.take(4);
        assert(head[0] == b[0] && head[1] == b[1] && head[2] == b[2] && head[3] == b[3]);
        law_be_bytes_of_be32(head);
        let n = number_at(b, 0);
        assert(be32(head) == n);
        if n <= 32768 && b.len() >= 4 + n {
            assert(r matches Ok(Some(m)) && m@.length == m.length@ && m@.content == m.content@
                && m@.kind == m.kind);
        }
    }
}

/// What is written for a message: nothing and a refusal where its length field
/// is above 32768, else the length field, the kind and the content behind what
/// the buffer held.
pub proof fn law_frame_layout_written(
    codec: &mut PeerMessageCodec,
    item: PeerMessage,
    dst: &mut BytesMut,
    r: Result<(), FrameTooLarge>,
)
    requires
        call_ensures(PeerMessageCodec::encode, (codec, item, dst), r),
    ensures
        ({
            let b = buffered(*old(dst));
            let out = buffered(*final(dst));
            let n = number_at(item.length@, 0);
            if n > 32768 {
                r matches Err(e) && e.length == n && out == b
            } else {
                &&& r is Ok
                &&& out.len() == b.len() + 5 + item.content@.len()
                &&& out.take(b.len() as int) == b
                &&& out.subrange(b.len() as int, b.len() as int + 4) == item.length@
                &&& out[b.len() as int + 4] == item.kind
                &&& out.skip(b.len() as int + 5) == item.content@
            }
        }),
{
    assert(item@.length == item.length@);
    assert(item@.content == item.content@);
    assert(item@.kind == item.kind);
    let b = buffered(*old(dst));
    let out = buffered(*final(dst));
    if number_at(item.length@, 0) <= 32768 {
        assert(out.take(b.len() as int) =~= b);
        assert(out.subrange(b.len() as int, b.len() as int + 4) =~= item.length@);
        assert(out.skip(b.len() as int + 5) =~= item.content@);
    }
}

/// A message that is written is read as the same message, and what stands behind
/// it in the buffer stays there.
pub proof fn law_written_message_is_read(
    writer: &mut PeerMessageCodec,
    item: PeerMessage,
    dst: &mut BytesMut,
    written: Result<(), FrameTooLarge>,
    reader: &mut PeerMessageCodec,
    src: &mut BytesMut,
    read: Result<Option<PeerMessage>, FrameTooLarge>,
    rest: Seq<u8>,
)
    requires
        call_ensures(PeerMessageCodec::encode, (writer, item, dst), written),
        buffered(*old(dst)).len() == 0,
        written is Ok,
        number_at(item.length@, 0) == item.content@.len() + 1,
        buffered(*old(src)) == buffered(*final(dst)) + rest,
        call_ensures(PeerMessageCodec::decode, (reader, src), read),
    ensures
        read matches Ok(Some(m)) && m.length@ == item.length@ && m.kind == item.kind && m.content@
            == item.content@,
        buffered(*final(src)) == rest,
{
    law_frame_layout_written(writer, item, dst, written);
    let w = buffered(*final(dst));
    let b = buffered(*old(src));
    assert(w.subrange(0, 4) =~= item.length@);
    assert forall|i: int| 0 <= i < 4 implies #[trigger] b[i] == item.length@[i] by {
        assert(w[i] == w.subrange(0, 4)[i]);
    }
    assert(b[0] == item.length@[0] && b[1] == item.length@[1] && b[2] == item.length@[2] && b[3]
        == item.length@[3]);
    assert(number_at(b, 0) == number_at(item.length@, 0));
    law_frame_layout_read(reader, src, read);
    assert(b.take(4) =~= item.length@);
    assert(b[4] == w[4]);
    assert(b.subrange(5, 4 + number_at(b, 0)) =~= w.skip(5));
    assert(b.skip(4 + number_at(b, 0)) =~= rest);
}

/// A refusal tells the length that was too large.
pub proof fn law_refusal_names_length(e: FrameTooLarge, text: String)
    requires
        call_ensures(FrameTooLarge::message, (&e,), text),
    ensures
        exists|n: Seq<char>|
            #[trigger] is_notation(n, e.length as int) && text@ == "Frame of length "@ + n
                + " is too large."@,
{
    let n = ascii_text(decimal(e.length as nat));
    law_notation_is_read_back(e.length as nat);
    assert(is_notation(n, e.length as int) && text@ == "Frame of length "@ + n + " is too large."@);
}

/// A bit field message lists a piece exactly where the bit of the piece is set,
/// in ascending order.
pub proof fn law_message_lists_set_bits(m: PeerMessage, indices: Vec<usize>)
    requires
        m.content@.len() * 8 <= usize::MAX + 1,
        call_ensures(PeerMessage::piece_indices, (&m,), indices),
    ensures
        forall|p: usize| #[trigger]
            indices@.contains(p) <==> p < m.content@.len() * 8 && bit_at(m.content@, p as int),
        forall|i: int, j: int|
            0 <= i < j < indices@.len() ==> #[trigger] indices@[i] < #[trigger] indices@[j],
{
    assert(m@.content == m.content@);
    law_bit_field_lists_set_bits(m.content@);
    assert forall|p: usize| #[trigger] indices@.contains(p) <==> p < m.content@.len() * 8 && bit_at(
        m.content@,
        p as int,
    ) by {
        lemma_bit(m.content@[p as int / 8], (7 - p as int % 8) as u8);
    }
}

/// A bit field has a piece exactly where the bit of the piece is set.
pub proof fn law_bit_field_has_set_bits(bytes: Vec<u8>, field: Bitfield, n: usize, i: usize, has: bool)
    requires
        call_ensures(Bitfield::new, (bytes,), field),
        call_ensures(Bitfield::len, (&field,), n),
        call_ensures(Bitfield::has_piece, (&field, i), has),
        i < bytes@.len() * 8,
    ensures
        n == bytes@.len(),
        has == bit_at(bytes@, i as int),
{
    lemma_bit(bytes@[i as int / 8], (7 - i as int % 8) as u8);
}

/// A peer takes requests exactly where it said that it does; whether it has a
/// piece is known exactly where it sent its bit field.
pub proof fn law_handle_tells_peers_word(
    peer: PeerHandle,
    open: bool,
    i: usize,
    has: Result<bool, NoBitfield>,
)
    requires
        call_ensures(PeerHandle::is_unchocked, (&peer,), open),
        call_ensures(PeerHandle::has_piece, (&peer, i), has),
    ensures
        open <==> peer.status == Some(Status::Unchoked),
        has is Err <==> peer.bitfield is None,
        peer.bitfield matches Some(field) ==> (i < field@.len() * 8 ==> has == Ok::<
            bool,
            NoBitfield,
        >(bit_at(field@, i as int))),
{
    if let Some(field) = peer.bitfield {
        if i < field@.len() * 8 {
            lemma_bit(field@[i as int / 8], (7 - i as int % 8) as u8);
        }
    }
}

/// Each refusal is told in its own words.
pub proof fn law_refusals_of_peers_are_told(no_field: &str, other_torrent: &str)
    requires
        call_ensures(NoBitfield::message, (&NoBitfield,), no_field),
        call_ensures(HashMismatch::message, (&HashMismatch,), other_torrent),
    ensures
        no_field@ == "No bitfield from peer"@,
        other_torrent@ == "info_hash does not match"@,
{
}

} // verus!
