//! The peer wire protocol: the handshake, the messages and their frames.

use crate::decimal::{ascii_text, decimal, push_decimal_text};
use crate::outside::{advance, buffered, put_u8, readable};
use crate::wire::{
    array20, be32, be_bytes, law_be32_of_be_bytes, law_be_bytes_of_be32, read_be32, write_be32,
};
use bytes::BytesMut;
use vstd::prelude::*;

verus! {

/// The first message on a connection, in both directions.
#[derive(Debug)]
pub struct Handshake {
    /// Length of the protocol string, which is 19.
    pub length: u8,
    /// The protocol string, `BitTorrent protocol`.
    pub string: [u8; 19],
    /// Reserved bytes, all zero.
    pub reserved: [u8; 8],
    /// SHA-1 digest of the bencoded info dictionary, not in hexadecimal.
    pub info_hash: [u8; 20],
    /// The identifier of the sender: 20 byte values that it drew at random.
    pub peer_id: [u8; 20],
}

/// The ASCII bytes of `BitTorrent protocol`.
pub open spec fn protocol_string() -> Seq<u8> {
    seq![
        0x42u8, 0x69u8, 0x74u8, 0x54u8, 0x6fu8, 0x72u8, 0x72u8, 0x65u8, 0x6eu8, 0x74u8, 0x20u8,
        0x70u8, 0x72u8, 0x6fu8, 0x74u8, 0x6fu8, 0x63u8, 0x6fu8, 0x6cu8,
    ]
}

/// The 19 bytes of `bytes` from `from` on.
fn array19(bytes: &[u8; 68], from: usize) -> (a: [u8; 19])
    requires
        from + 19 <= 68,
    ensures
        a@ == bytes@.subrange(from as int, from + 19),
{
    let mut a = [0u8; 19];
    let mut i: usize = 0;
    while i < 19
        invariant
            i <= 19,
            from + 19 <= 68,
            forall|j: int| 0 <= j < i ==> a@[j] == bytes@[from + j],
        decreases 19 - i,
    {
        a[i] = bytes[from + i];
        i += 1;
    }
    assert(a@ =~= bytes@.subrange(from as int, from + 19));
    a
}

/// The 8 bytes of `bytes` from `from` on.
fn array8(bytes: &[u8; 68], from: usize) -> (a: [u8; 8])
    requires
        from + 8 <= 68,
    ensures
        a@ == bytes@.subrange(from as int, from + 8),
{
    let mut a = [0u8; 8];
    let mut i: usize = 0;
    while i < 8
        invariant
            i <= 8,
            from + 8 <= 68,
            forall|j: int| 0 <= j < i ==> a@[j] == bytes@[from + j],
        decreases 8 - i,
    {
        a[i] = bytes[from + i];
        i += 1;
    }
    assert(a@ =~= bytes@.subrange(from as int, from + 8));
    a
}

impl Handshake {
    /// The 68 bytes that stand for the handshake on the wire.
    pub open spec fn wire(&self) -> Seq<u8> {
        seq![self.length] + self.string@ + self.reserved@ + self.info_hash@ + self.peer_id@
    }

    /// Whether `bytes` hold the fields of the handshake one after the other.
    pub open spec fn stands_in(&self, bytes: Seq<u8>) -> bool {
        &&& self.length == bytes[0]
        &&& self.string@ == bytes.subrange(1, 20)
        &&& self.reserved@ == bytes.subrange(20, 28)
        &&& self.info_hash@ == bytes.subrange(28, 48)
        &&& self.peer_id@ == bytes.subrange(48, 68)
    }

    /// The handshake of this client for the torrent of `info_hash`.
    pub fn new(info_hash: [u8; 20], peer_id: [u8; 20]) -> (h: Self)
        ensures
            h.length == 19,
            h.string@ == protocol_string(),
            h.reserved@ == Seq::new(8, |i: int| 0u8),
            h.info_hash == info_hash,
            h.peer_id == peer_id,
    {
        let string = [
            0x42u8, 0x69u8, 0x74u8, 0x54u8, 0x6fu8, 0x72u8, 0x72u8, 0x65u8, 0x6eu8, 0x74u8, 0x20u8,
            0x70u8, 0x72u8, 0x6fu8, 0x74u8, 0x6fu8, 0x63u8, 0x6fu8, 0x6cu8,
        ];
        let reserved = [0u8; 8];
        assert(string@ =~= protocol_string());
        assert(reserved@ =~= Seq::new(8, |i: int| 0u8));
        Handshake { length: 19, string, reserved, info_hash, peer_id }
    }

    pub fn to_bytes(&self) -> (bytes: BytesMut)
        ensures
            buffered(bytes) == self.wire(),
    {
        let mut bytes = BytesMut::new();
        put_u8(&mut bytes, self.length);
        bytes.extend_from_slice(self.string.as_slice());
        bytes.extend_from_slice(self.reserved.as_slice());
        bytes.extend_from_slice(self.info_hash.as_slice());
        bytes.extend_from_slice(self.peer_id.as_slice());
        assert(buffered(bytes) =~= self.wire());
        bytes
    }

    pub fn from_bytes(bytes: &[u8; 68]) -> (h: Self)
        ensures
            h.stands_in(bytes@),
    {
        Handshake {
            length: bytes[0],
            string: array19(bytes, 1),
            reserved: array8(bytes, 20),
            info_hash: array20(bytes.as_slice(), 28),
            peer_id: array20(bytes.as_slice(), 48),
        }
    }
}

/// A message between peers: the number of bytes behind the length, the kind,
/// and the rest.
#[derive(Debug, Clone)]
pub struct PeerMessage {
    pub length: [u8; 4],
    pub kind: u8,
    pub content: Vec<u8>,
}

/// What a `PeerMessage` holds.
pub struct Message {
    pub length: Seq<u8>,
    pub kind: u8,
    pub content: Seq<u8>,
}

impl View for PeerMessage {
    type V = Message;

    open spec fn view(&self) -> Message {
        Message { length: self.length@, kind: self.kind, content: self.content@ }
    }
}

impl Message {
    /// The bytes that stand for the message on the wire.
    pub open spec fn wire(self) -> Seq<u8> {
        self.length + seq![self.kind] + self.content
    }

    /// A message whose length field counts the kind and the content.
    pub open spec fn well_formed(self) -> bool {
        &&& self.length.len() == 4
        &&& be32(self.length) == self.content.len() + 1
    }

    /// A message without content.
    pub open spec fn plain(kind: u8) -> Message {
        Message { length: be_bytes(1), kind, content: Seq::empty() }
    }

    /// The request for `size` bytes at `offset` of a piece; each of the three
    /// numbers goes out with its low 32 bits.
    pub open spec fn request(piece: int, offset: int, size: int) -> Message {
        Message {
            length: be_bytes(13),
            kind: 6,
            content: be_bytes(piece) + be_bytes(offset) + be_bytes(size),
        }
    }
}

/// Whether bit `i` of a bit field is set; the first bit of a byte is its
/// highest.
pub open spec fn has_bit(bytes: Seq<u8>, i: int) -> bool {
    (bytes[i / 8] >> ((7 - i % 8) as u8)) & 1 != 0
}

/// The set bits among the first `n` of a bit field, in ascending order.
pub open spec fn set_bits(bytes: Seq<u8>, n: int) -> Seq<usize>
    decreases n,
{
    if n <= 0 {
        Seq::empty()
    } else if has_bit(bytes, n - 1) {
        set_bits(bytes, n - 1).push((n - 1) as usize)
    } else {
        set_bits(bytes, n - 1)
    }
}

/// The set bits of a whole bit field, in ascending order.
pub open spec fn listed_pieces(bytes: Seq<u8>) -> Seq<usize> {
    set_bits(bytes, bytes.len() as int * 8)
}

/// A bit of a byte, found by a mask and by a shift.
proof fn lemma_bit_by_mask(byte: u8, shift: u8)
    requires
        shift < 8,
    ensures
        (byte & (128u8 >> shift) > 0) == ((byte >> ((7 - shift) as u8)) & 1 != 0),
{
    assert(shift < 8 ==> ((byte & (128u8 >> shift) > 0) == ((byte >> ((7 - shift) as u8)) & 1
        != 0))) by (bit_vector);
}

impl PeerMessage {
    pub fn new() -> (m: Self)
        ensures
            m@ == (Message { length: Seq::new(4, |i: int| 0u8), kind: 0, content: Seq::empty() }),
    {
        let length = [0u8; 4];
        assert(length@ =~= Seq::new(4, |i: int| 0u8));
        PeerMessage { length, kind: 0, content: Vec::new() }
    }

    pub fn new_request(piece_i: usize, offset: usize, block_size: usize) -> (m: Self)
        ensures
            m@ == Message::request(piece_i as int, offset as int, block_size as int),
    {
        let mut content: Vec<u8> = Vec::new();
        content.extend_from_slice(write_be32(piece_i).as_slice());
        content.extend_from_slice(write_be32(offset).as_slice());
        content.extend_from_slice(write_be32(block_size).as_slice());
        let length = write_be32(content.len() + 1);
        assert(content@ =~= be_bytes(piece_i as int) + be_bytes(offset as int) + be_bytes(
            block_size as int,
        ));
        PeerMessage { length, kind: 6, content }
    }

    /// The message that tells a peer that this client wants its pieces.
    pub fn interested() -> (m: Self)
        ensures
            m@ == Message::plain(2),
    {
        PeerMessage { length: write_be32(1), kind: 2, content: Vec::new() }
    }

    pub fn to_bytes(&self) -> (bytes: BytesMut)
        requires
            4 * (self@.content.len() + 5) <= isize::MAX,
        ensures
            buffered(bytes) == self@.wire(),
    {
        let mut bytes = BytesMut::new();
        bytes.extend_from_slice(self.length.as_slice());
        put_u8(&mut bytes, self.kind);
        bytes.extend_from_slice(self.content.as_slice());
        assert(buffered(bytes) =~= self@.wire());
        bytes
    }

    /// The number of bytes of content that a length field announces.
    pub fn content_length(length: &[u8; 4]) -> (n: usize)
        requires
            be32(length@) >= 1,
        ensures
            n == be32(length@) - 1,
    {
        (read_be32(length) - 1) as usize
    }

    /// The set bits of a bit field, in ascending order.
    fn iterate_contents(bytes: &[u8]) -> (indices: Vec<usize>)
        requires
            bytes@.len() * 8 <= usize::MAX + 1,
        ensures
            indices@ == listed_pieces(bytes@),
    {
        let mut indices: Vec<usize> = Vec::new();
        let mut i: usize = 0;
        while i < bytes.len()
            invariant
                i <= bytes@.len(),
                bytes@.len() * 8 <= usize::MAX + 1,
                indices@ == set_bits(bytes@, i * 8),
            decreases bytes@.len() - i,
        {
            let val = bytes[i];
            let mut shift: u8 = 0;
            while shift < 8
                invariant
                    shift <= 8,
                    i < bytes@.len(),
                    bytes@.len() * 8 <= usize::MAX + 1,
                    val == bytes@[i as int],
                    indices@ == set_bits(bytes@, i * 8 + shift),
                decreases 8 - shift,
            {
                proof {
                    lemma_bit_by_mask(val, shift);
                    assert((i * 8 + shift) / 8 == i);
                    assert((i * 8 + shift) % 8 == shift);
                }
                if val & (128u8 >> shift) > 0 {
                    indices.push(i * 8 + shift as usize);
                }
                shift += 1;
            }
            i += 1;
        }
        indices
    }

    /// The pieces that a bit field message lists, in ascending order.
    pub fn piece_indices(&self) -> (indices: Vec<usize>)
        requires
            self@.content.len() * 8 <= usize::MAX + 1,
        ensures
            indices@ == listed_pieces(self@.content),
    {
        Self::iterate_contents(self.content.as_slice())
    }

    /// The pieces that a bit field message lists, in ascending order.
    pub fn into_piece_indices(self) -> (indices: Vec<usize>)
        requires
            self@.content.len() * 8 <= usize::MAX + 1,
        ensures
            indices@ == listed_pieces(self@.content),
    {
        Self::iterate_contents(self.content.as_slice())
    }
}

/// The codec of the frames on a peer connection.
pub struct PeerMessageCodec {}

/// The largest length field that a frame may have.
pub const MAX: usize = 32768;

/// A frame whose length field is above the limit.
#[derive(Debug, Clone, Copy, PartialEq, Eq, Structural)]
pub struct FrameTooLarge {
    pub length: usize,
}

impl FrameTooLarge {
    pub fn message(&self) -> (text: String)
        ensures
            text@ == "Frame of length "@ + ascii_text(decimal(self.length as nat))
                + " is too large."@,
    {
        let mut text = String::new();
        text.append("Frame of length ");
        push_decimal_text(&mut text, self.length);
        text.append(" is too large.");
        assert(text@ =~= "Frame of length "@ + ascii_text(decimal(self.length as nat))
            + " is too large."@);
        text
    }
}

/// Whether the length field at the start of `b` is zero and a further byte
/// follows it: the one input that is neither a frame nor the start of one.
pub open spec fn empty_frame(b: Seq<u8>) -> bool {
    b.len() > 4 && be32(b.take(4)) == 0
}

/// The message at the start of `b`; `None` while it has not fully arrived.
pub open spec fn decode_frame(b: Seq<u8>) -> Result<Option<Message>, FrameTooLarge> {
    let length = be32(b.take(4));
    if b.len() <= 4 {
        Ok(None)
    } else if length > MAX {
        Err(FrameTooLarge { length: length as usize })
    } else if b.len() < 4 + length {
        Ok(None)
    } else {
        Ok(
            Some(
                Message { length: b.take(4), kind: b[4], content: b.subrange(5, 4 + length) },
            ),
        )
    }
}

/// What is left of `b` once the message at its start is taken out.
pub open spec fn behind_frame(b: Seq<u8>) -> Seq<u8> {
    match decode_frame(b) {
        Ok(Some(m)) => b.skip(4 + be32(m.length)),
        _ => b,
    }
}

impl PeerMessageCodec {
    /// Takes the message at the start of `src` out of it, where all of it has
    /// arrived.
    pub fn decode(&mut self, src: &mut BytesMut) -> (r: Result<Option<PeerMessage>, FrameTooLarge>)
        requires
            !empty_frame(buffered(*old(src))),
        ensures
            match decode_frame(buffered(*old(src))) {
                Ok(Some(message)) => r matches Ok(Some(m)) && m@ == message,
                Ok(None) => r matches Ok(None),
                Err(e) => r matches Err(x) && x == e,
            },
            buffered(*final(src)) == behind_frame(buffered(*old(src))),
    {
        let ghost b = buffered(*src);
        if src.len() <= 4 {
            return Ok(None);
        }
        let bytes = readable(src);
        let length_bytes = [bytes[0], bytes[1], bytes[2], bytes[3]];
        assert(length_bytes@ =~= b.take(4));
        let length = read_be32(&length_bytes) as usize;
        if length > MAX {
            return Err(FrameTooLarge { length });
        }
        let len = src.len();
        if len < 4 + length {
            src.reserve(4 + length - len);
            return Ok(None);
        }
        let kind = bytes[4];
        let mut content: Vec<u8> = Vec::new();
        let mut i: usize = 5;
        while i < 4 + length
            invariant
                5 <= i <= 4 + length <= bytes@.len(),
                length <= MAX,
                bytes@ == b,
                content@ =~= b.subrange(5, i as int),
            decreases 4 + length - i,
        {
            content.push(bytes[i]);
            i += 1;
        }
        let m = PeerMessage { length: length_bytes, kind, content };
        advance(src, 4 + length);
        Ok(Some(m))
    }

    /// Appends the message to `dst`.
    pub fn encode(&mut self, item: PeerMessage, dst: &mut BytesMut) -> (r: Result<(), FrameTooLarge>)
        requires
            be32(item@.length) <= MAX ==> {
                &&& 4 * (buffered(*old(dst)).len() + 4 + be32(item@.length)) <= isize::MAX
                &&& 4 * (buffered(*old(dst)).len() + 5 + item@.content.len()) <= isize::MAX
            },
        ensures
            match r {
                Ok(()) => be32(item@.length) <= MAX,
                Err(e) => be32(item@.length) > MAX && e.length == be32(item@.length),
            },
            r is Ok ==> buffered(*final(dst)) == buffered(*old(dst)) + item@.wire(),
            r is Err ==> buffered(*final(dst)) == buffered(*old(dst)),
    {
        let ghost before = buffered(*dst);
        let length = read_be32(&item.length) as usize;
        if length > MAX {
            return Err(FrameTooLarge { length });
        }
        dst.reserve(4 + length);
        dst.extend_from_slice(item.length.as_slice());
        put_u8(dst, item.kind);
        dst.extend_from_slice(item.content.as_slice());
        assert(buffered(*dst) =~= before + item@.wire());
        Ok(())
    }
}

/// Whether a peer lets this client request blocks.
#[derive(Debug, Clone, Copy, PartialEq, Eq, Structural)]
pub enum Status {
    Choked,
    Unchoked,
}

/// Which pieces a peer has.
#[derive(Debug)]
pub struct Bitfield {
    bytes: Vec<u8>,
}

impl View for Bitfield {
    type V = Seq<u8>;

    closed spec fn view(&self) -> Seq<u8> {
        self.bytes@
    }
}

impl Bitfield {
    pub fn new(bytes: Vec<u8>) -> (field: Self)
        ensures
            field@ == bytes@,
    {
        Bitfield { bytes }
    }

    /// The number of bytes of the field; it tells of eight pieces each.
    pub fn len(&self) -> (n: usize)
        ensures
            n == self@.len(),
    {
        self.bytes.len()
    }

    pub fn has_piece(&self, i: usize) -> (b: bool)
        requires
            i / 8 < self@.len(),
        ensures
            b == has_bit(self@, i as int),
    {
        let byte = self.bytes[i / 8];
        let right_shift = 7 - (i % 8) as u8;
        (byte >> right_shift) & 1 != 0
    }
}

/// What is known of a connected peer.
#[derive(Debug)]
pub struct PeerHandle {
    /// The last word of the peer on choking, if any.
    pub status: Option<Status>,
    /// The pieces of the peer, once it told.
    pub bitfield: Option<Bitfield>,
}

/// A peer that has not told yet which pieces it has.
#[derive(Debug, Clone, Copy, PartialEq, Eq, Structural)]
pub struct NoBitfield;

impl NoBitfield {
    pub fn message(&self) -> (text: &'static str)
        ensures
            text@ == "No bitfield from peer"@,
    {
        "No bitfield from peer"
    }
}

impl PeerHandle {
    pub fn is_unchocked(&self) -> (b: bool)
        ensures
            b == (self.status == Some(Status::Unchoked)),
    {
        match self.status {
            Some(status) => status == Status::Unchoked,
            None => false,
        }
    }

    pub fn has_piece(&self, i: usize) -> (r: Result<bool, NoBitfield>)
        requires
            self.bitfield matches Some(field) ==> i / 8 < field@.len(),
        ensures
            r == match self.bitfield {
                Some(field) => Ok::<bool, NoBitfield>(has_bit(field@, i as int)),
                None => Err(NoBitfield),
            },
    {
        match &self.bitfield {
            Some(field) => Ok(field.has_piece(i)),
            None => Err(NoBitfield),
        }
    }
}

/// A handshake is read back from the bytes that were written for it.
pub proof fn law_handshake_is_read_back(sent: Handshake, read: Handshake)
    requires
        read.stands_in(sent.wire()),
    ensures
        read.length == sent.length,
        read.string@ == sent.string@,
        read.reserved@ == sent.reserved@,
        read.info_hash@ == sent.info_hash@,
        read.peer_id@ == sent.peer_id@,
{
    let wire = sent.wire();
    assert(wire.subrange(1, 20) =~= sent.string@);
    assert(wire.subrange(20, 28) =~= sent.reserved@);
    assert(wire.subrange(28, 48) =~= sent.info_hash@);
    assert(wire.subrange(48, 68) =~= sent.peer_id@);
}

/// A handshake that was read is written as the same bytes.
pub proof fn law_handshake_is_written_back(bytes: Seq<u8>, read: Handshake)
    requires
        bytes.len() == 68,
        read.stands_in(bytes),
    ensures
        read.wire() == bytes,
{
    assert(read.wire() =~= bytes);
}

/// A message is read back from the frame that was written for it, and what
/// stands behind the frame is left.
pub proof fn law_decode_inverts_encode(m: Message, rest: Seq<u8>)
    requires
        m.well_formed(),
        be32(m.length) <= MAX,
    ensures
        !empty_frame(m.wire() + rest),
        decode_frame(m.wire() + rest) == Ok::<Option<Message>, FrameTooLarge>(Some(m)),
        behind_frame(m.wire() + rest) == rest,
{
    let b = m.wire() + rest;
    assert(b.take(4) =~= m.length);
    assert(b.subrange(5, 4 + be32(m.length)) =~= m.content);
    assert(b.skip(4 + be32(m.length)) =~= rest);
}

/// A message that was read is well formed, and with what was left behind it
/// gives the bytes that it was read from.
pub proof fn law_encode_inverts_decode(b: Seq<u8>, m: Message)
    requires
        !empty_frame(b),
        decode_frame(b) == Ok::<Option<Message>, FrameTooLarge>(Some(m)),
    ensures
        m.well_formed(),
        be32(m.length) <= MAX,
        m.wire() + behind_frame(b) == b,
{
    law_be_bytes_of_be32(b.take(4));
    assert(m.wire() + behind_frame(b) =~= b);
}

/// While a message has not fully arrived, none is read and nothing is taken.
pub proof fn law_partial_frame_is_kept(m: Message, n: int)
    requires
        m.well_formed(),
        be32(m.length) <= MAX,
        0 <= n < m.wire().len(),
    ensures
        !empty_frame(m.wire().take(n)),
        decode_frame(m.wire().take(n)) == Ok::<Option<Message>, FrameTooLarge>(None),
        behind_frame(m.wire().take(n)) == m.wire().take(n),
{
    if n > 4 {
        assert(m.wire().take(n).take(4) =~= m.length);
    }
}

/// The messages that this client makes are well formed, and fit into a frame.
pub proof fn law_own_messages_are_well_formed(piece: int, offset: int, size: int, kind: u8)
    ensures
        Message::request(piece, offset, size).well_formed(),
        be32(Message::request(piece, offset, size).length) <= MAX,
        Message::plain(kind).well_formed(),
        be32(Message::plain(kind).length) <= MAX,
{
    law_be32_of_be_bytes(13);
    law_be32_of_be_bytes(1);
}

/// The numbers of a request are read back from its content.
pub proof fn law_request_is_read_back(piece: int, offset: int, size: int)
    requires
        0 <= piece <= u32::MAX,
        0 <= offset <= u32::MAX,
        0 <= size <= u32::MAX,
    ensures
        be32(Message::request(piece, offset, size).content.subrange(0, 4)) == piece,
        be32(Message::request(piece, offset, size).content.subrange(4, 8)) == offset,
        be32(Message::request(piece, offset, size).content.subrange(8, 12)) == size,
{
    let content = Message::request(piece, offset, size).content;
    assert(content.subrange(0, 4) =~= be_bytes(piece));
    assert(content.subrange(4, 8) =~= be_bytes(offset));
    assert(content.subrange(8, 12) =~= be_bytes(size));
    law_be32_of_be_bytes(piece);
    law_be32_of_be_bytes(offset);
    law_be32_of_be_bytes(size);
}

proof fn lemma_set_bits(bytes: Seq<u8>, n: int)
    requires
        0 <= n <= bytes.len() * 8 <= usize::MAX + 1,
    ensures
        forall|i: int|
            0 <= i < set_bits(bytes, n).len() ==> {
                &&& #[trigger] set_bits(bytes, n)[i] < n
                &&& has_bit(bytes, set_bits(bytes, n)[i] as int)
            },
        forall|i: int, j: int|
            0 <= i < j < set_bits(bytes, n).len() ==> #[trigger] set_bits(bytes, n)[i]
                < #[trigger] set_bits(bytes, n)[j],
        forall|p: usize|
            p < n && has_bit(bytes, p as int) ==> #[trigger] set_bits(bytes, n).contains(p),
    decreases n,
{
    if n > 0 {
        lemma_set_bits(bytes, n - 1);
        let fewer = set_bits(bytes, n - 1);
        let last = (n - 1) as usize;
        assert forall|p: usize|
            p < n && has_bit(bytes, p as int) implies #[trigger] set_bits(bytes, n).contains(p) by {
            if p == last {
                assert(set_bits(bytes, n)[fewer.len() as int] == p);
            } else {
                assert(fewer.contains(p));
                let i = choose|i: int| 0 <= i < fewer.len() && #[trigger] fewer[i] == p;
                assert(set_bits(bytes, n)[i] == p);
            }
        }
    }
}

/// A bit field lists a piece exactly where its bit is set, and lists the
/// pieces in ascending order.
pub proof fn law_bit_field_lists_set_bits(bytes: Seq<u8>)
    requires
        bytes.len() * 8 <= usize::MAX + 1,
    ensures
        forall|p: usize| #[trigger]
            listed_pieces(bytes).contains(p) <==> p < bytes.len() * 8 && has_bit(bytes, p as int),
        forall|i: int, j: int|
            0 <= i < j < listed_pieces(bytes).len() ==> #[trigger] listed_pieces(bytes)[i]
                < #[trigger] listed_pieces(bytes)[j],
{
    lemma_set_bits(bytes, bytes.len() as int * 8);
}

/// The two ways to list the pieces of a bit field give the same pieces in the
/// same order.
pub proof fn law_both_listings_agree(m: PeerMessage, borrowed: Vec<usize>, consumed: Vec<usize>)
    requires
        call_ensures(PeerMessage::piece_indices, (&m,), borrowed),
        call_ensures(PeerMessage::into_piece_indices, (m,), consumed),
    ensures
        borrowed@ == consumed@,
{
}

/// A bit field has a piece exactly where the message that brought it lists the
/// piece.
pub proof fn law_bit_field_has_listed_pieces(
    m: PeerMessage,
    indices: Vec<usize>,
    field: Bitfield,
    i: usize,
    has: bool,
)
    requires
        m@.content.len() * 8 <= usize::MAX + 1,
        i < m@.content.len() * 8,
        call_ensures(PeerMessage::piece_indices, (&m,), indices),
        call_ensures(Bitfield::new, (m.content,), field),
        call_ensures(Bitfield::has_piece, (&field, i), has),
    ensures
        has == indices@.contains(i),
        has == has_bit(m@.content, i as int),
{
    law_bit_field_lists_set_bits(m@.content);
}

} // verus!
