use bittorrent::peer::{
    Bitfield, FrameTooLarge, Handshake, NoBitfield, PeerHandle, PeerMessage, PeerMessageCodec,
    Status, MAX,
};
use bittorrent::peer_agent::{AgentAction, AgentEvent, HashMismatch, PeerAgent};
use bittorrent::wire::{array20, read_be32, same20, write_be32};
use bytes::BytesMut;

fn message(kind: u8, content: Vec<u8>) -> PeerMessage {
    PeerMessage { length: write_be32(content.len() + 1), kind, content }
}

fn buffer(bytes: &[u8]) -> BytesMut {
    let mut b = BytesMut::new();
    b.extend_from_slice(bytes);
    b
}

#[test]
fn reads_and_writes_numbers() {
    assert_eq!(write_be32(0x01020304), [1, 2, 3, 4]);
    assert_eq!(read_be32(&[1, 2, 3, 4]), 0x01020304);
    assert_eq!(write_be32(0x1_0000_0005), [0, 0, 0, 5]);
    assert_eq!(read_be32(&write_be32(0xffff_fffe)), 0xffff_fffe);
    assert_eq!(write_be32(read_be32(&[9, 8, 7, 6]) as usize), [9, 8, 7, 6]);
}

#[test]
fn reads_and_compares_digests() {
    let bytes: Vec<u8> = (0u8..30).collect();
    let a = array20(&bytes, 10);
    assert_eq!(a[0], 10);
    assert_eq!(a[19], 29);
    assert!(same20(&a, &a));
    let mut b = a;
    b[19] = 0;
    assert!(!same20(&a, &b));
}

#[test]
fn a_handshake_is_read_back() {
    let h = Handshake::new([0xab; 20], *b"cc112233445566778899");
    let bytes = h.to_bytes();
    assert_eq!(bytes.len(), 68);
    assert_eq!(bytes[0], 19);
    assert_eq!(&bytes[1..20], b"BitTorrent protocol");
    assert_eq!(&bytes[20..28], &[0; 8]);
    assert_eq!(&bytes[28..48], &[0xab; 20]);
    assert_eq!(&bytes[48..68], b"cc112233445566778899");
    let wire: [u8; 68] = bytes.as_ref().try_into().unwrap();
    let read = Handshake::from_bytes(&wire);
    assert_eq!(read.length, h.length);
    assert_eq!(read.string, h.string);
    assert_eq!(read.reserved, h.reserved);
    assert_eq!(read.info_hash, h.info_hash);
    assert_eq!(read.peer_id, h.peer_id);
}

#[test]
fn bytes_of_a_handshake_are_written_back() {
    let mut wire = [0u8; 68];
    for i in 0..68 {
        wire[i] = (i * 3) as u8;
    }
    assert_eq!(Handshake::from_bytes(&wire).to_bytes().as_ref(), &wire[..]);
}

#[test]
fn makes_requests() {
    let m = PeerMessage::new_request(1, 16384, 7232);
    assert_eq!(m.length, [0, 0, 0, 13]);
    assert_eq!(m.kind, 6);
    assert_eq!(m.content, vec![0, 0, 0, 1, 0, 0, 0x40, 0, 0, 0, 0x1c, 0x40]);
    assert_eq!(
        m.to_bytes().as_ref(),
        &[0, 0, 0, 13, 6, 0, 0, 0, 1, 0, 0, 0x40, 0, 0, 0, 0x1c, 0x40]
    );
}

#[test]
fn makes_plain_messages() {
    let m = PeerMessage::interested();
    assert_eq!(m.to_bytes().as_ref(), &[0, 0, 0, 1, 2]);
    let empty = PeerMessage::new();
    assert_eq!(empty.length, [0; 4]);
    assert_eq!(empty.kind, 0);
    assert!(empty.content.is_empty());
    assert_eq!(PeerMessage::content_length(&[0, 0, 1, 1]), 256);
}

#[test]
fn lists_the_pieces_of_a_bit_field() {
    let m = message(5, vec![0b1010_0000, 0b0000_0001, 0]);
    assert_eq!(m.piece_indices(), vec![0, 2, 15]);
    assert_eq!(m.into_piece_indices(), vec![0, 2, 15]);
    assert!(message(5, vec![]).piece_indices().is_empty());
}

#[test]
fn a_bit_field_has_the_pieces_that_it_lists() {
    let content = vec![0b1010_0110, 0b0100_0001];
    let listed = message(5, content.clone()).piece_indices();
    let field = Bitfield::new(content);
    assert_eq!(field.len(), 2);
    for i in 0..16 {
        assert_eq!(field.has_piece(i), listed.contains(&i));
    }
}

#[test]
fn a_frame_is_read_back_and_the_rest_is_left() {
    let mut codec = PeerMessageCodec {};
    let mut b = buffer(b"");
    assert_eq!(codec.encode(message(7, vec![1, 2, 3]), &mut b), Ok(()));
    assert_eq!(codec.encode(PeerMessage::interested(), &mut b), Ok(()));
    assert_eq!(b.as_ref(), &[0, 0, 0, 4, 7, 1, 2, 3, 0, 0, 0, 1, 2]);
    let first = codec.decode(&mut b).unwrap().unwrap();
    assert_eq!(first.length, [0, 0, 0, 4]);
    assert_eq!(first.kind, 7);
    assert_eq!(first.content, vec![1, 2, 3]);
    assert_eq!(b.as_ref(), &[0, 0, 0, 1, 2]);
    let second = codec.decode(&mut b).unwrap().unwrap();
    assert_eq!(second.kind, 2);
    assert!(second.content.is_empty());
    assert!(b.is_empty());
    assert!(codec.decode(&mut b).unwrap().is_none());
}

#[test]
fn a_frame_that_was_read_is_written_back() {
    let wire = [0, 0, 0, 3, 9, 8, 7];
    let mut codec = PeerMessageCodec {};
    let mut b = buffer(&wire);
    let m = codec.decode(&mut b).unwrap().unwrap();
    let mut out = buffer(b"");
    codec.encode(m, &mut out).unwrap();
    assert_eq!(out.as_ref(), &wire);
}

#[test]
fn a_partial_frame_is_kept() {
    let wire = [0, 0, 0, 3, 9, 8, 7];
    let mut codec = PeerMessageCodec {};
    for n in 0..wire.len() {
        let mut b = buffer(&wire[..n]);
        assert!(codec.decode(&mut b).unwrap().is_none());
        assert_eq!(b.as_ref(), &wire[..n]);
    }
}

#[test]
fn frames_above_the_limit_are_refused() {
    assert_eq!(MAX, 32768);
    let mut codec = PeerMessageCodec {};
    let mut b = buffer(&[0, 0, 0x80, 1, 7]);
    let refused = codec.decode(&mut b).unwrap_err();
    assert_eq!(refused, FrameTooLarge { length: 32769 });
    assert_eq!(refused.message(), "Frame of length 32769 is too large.");
    assert_eq!(b.len(), 5);
    let mut out = buffer(b"x");
    let m = PeerMessage { length: [0, 0, 0x80, 1], kind: 0, content: vec![] };
    assert_eq!(codec.encode(m, &mut out), Err(FrameTooLarge { length: 32769 }));
    assert_eq!(out.as_ref(), b"x");
    let mut limit = buffer(&[0, 0, 0x80, 0, 7]);
    assert!(codec.decode(&mut limit).unwrap().is_none());
}

#[test]
fn a_handle_tells_what_the_peer_said() {
    let unknown = PeerHandle { status: None, bitfield: None };
    assert!(!unknown.is_unchocked());
    assert_eq!(unknown.has_piece(0), Err(NoBitfield));
    assert_eq!(NoBitfield.message(), "No bitfield from peer");
    let known = PeerHandle {
        status: Some(Status::Unchoked),
        bitfield: Some(Bitfield::new(vec![0b0100_0000])),
    };
    assert!(known.is_unchocked());
    assert_eq!(known.has_piece(0), Ok(false));
    assert_eq!(known.has_piece(1), Ok(true));
    let choked = PeerHandle { status: Some(Status::Choked), bitfield: None };
    assert!(!choked.is_unchocked());
}

fn answer(info_hash: [u8; 20]) -> [u8; 68] {
    Handshake::new(info_hash, [1; 20]).to_bytes().as_ref().try_into().unwrap()
}

#[test]
fn an_agent_needs_the_right_torrent() {
    assert!(PeerAgent::new(&answer([5; 20]), &[5; 20]).is_ok());
    let refused = PeerAgent::new(&answer([5; 20]), &[6; 20]).unwrap_err();
    assert_eq!(refused, HashMismatch);
    assert_eq!(refused.message(), "info_hash does not match");
}

#[test]
fn the_last_word_of_the_peer_counts() {
    let mut agent = PeerAgent::new(&answer([5; 20]), &[5; 20]).unwrap();
    assert_eq!(agent.status(), None);
    assert_eq!(agent.bitfield(), None);
    assert!(matches!(
        agent.handle(AgentEvent::Received(message(1, vec![]))),
        AgentAction::PublishStatus(Status::Unchoked)
    ));
    assert_eq!(agent.status(), Some(Status::Unchoked));
    assert!(matches!(
        agent.handle(AgentEvent::Received(message(0, vec![]))),
        AgentAction::PublishStatus(Status::Choked)
    ));
    assert!(matches!(agent.handle(AgentEvent::BadFrame), AgentAction::IgnoreFrame));
    assert_eq!(agent.status(), Some(Status::Choked));
    for field in [vec![0x80], vec![0xc0, 1]] {
        match agent.handle(AgentEvent::Received(message(5, field.clone()))) {
            AgentAction::PublishBitfield(bytes) => assert_eq!(bytes, field),
            _ => panic!("no bit field"),
        }
    }
    assert_eq!(agent.bitfield(), Some(&[0xc0, 1][..]));
}

#[test]
fn an_agent_delivers_blocks() {
    let mut agent = PeerAgent::new(&answer([5; 20]), &[5; 20]).unwrap();
    let m = message(7, vec![0, 0, 0, 2, 0, 0, 0x40, 0, 9, 9, 8]);
    match agent.handle(AgentEvent::Received(m)) {
        AgentAction::Deliver(piece, offset, data) => {
            assert_eq!((piece, offset), (2, 16384));
            assert_eq!(data, vec![9, 9, 8]);
        }
        _ => panic!("no block"),
    }
}

#[test]
fn an_agent_sends_ignores_and_stops() {
    let mut agent = PeerAgent::new(&answer([5; 20]), &[5; 20]).unwrap();
    match agent.handle(AgentEvent::Command(PeerMessage::new_request(1, 2, 3))) {
        AgentAction::Send(m) => assert_eq!(m.content, vec![0, 0, 0, 1, 0, 0, 0, 2, 0, 0, 0, 3]),
        _ => panic!("nothing sent"),
    }
    assert!(matches!(
        agent.handle(AgentEvent::Received(message(4, vec![1]))),
        AgentAction::IgnoreKind(4)
    ));
    assert!(agent.is_running());
    assert!(matches!(agent.handle(AgentEvent::PeerClosed), AgentAction::Stop));
    assert!(!agent.is_running());
    let mut other = PeerAgent::new(&answer([5; 20]), &[5; 20]).unwrap();
    assert!(matches!(other.handle(AgentEvent::CommandsClosed), AgentAction::Stop));
    assert!(!other.is_running());
}
