use bittorrent::consts::BLOCK_SIZE;
use bittorrent::downloader::{peers_to_connect, Downloader, Greeting, NoPeers};
use bittorrent::peer::{Bitfield, PeerHandle, PeerMessage, Status};
use bittorrent::piece::{ChunkOutOfBounds, Piece};
use bittorrent::retrieval::{BlockError, Retrieval};
use bittorrent::torrent::{FileDetails, FileList, Info, Torrent};
use bittorrent::tracker::InvalidAnnounce;
use sha1::{Digest, Sha1};

const TOTAL: usize = 90_000;
const PIECE: usize = 40_000;
const ID: [u8; 20] = *b"cc112233445566778899";

fn contents() -> Vec<u8> {
    (0..TOTAL).map(|i| (i * 31 % 251) as u8).collect()
}

fn piece_of(i: usize) -> Vec<u8> {
    contents()[i * PIECE..TOTAL.min((i + 1) * PIECE)].to_vec()
}

fn torrent() -> Torrent {
    let mut pieces = Vec::new();
    for i in 0..3 {
        pieces.extend_from_slice(&Sha1::digest(piece_of(i)));
    }
    Torrent {
        announce: "http://tracker.example/announce".to_string(),
        info: Info {
            name: "data.bin".to_string(),
            piece_length: PIECE,
            pieces,
            files: FileList::SingleFile { length: TOTAL },
        },
    }
}

fn blocks_of(d: &Downloader, i: usize) -> Vec<(usize, usize, Vec<u8>)> {
    let bytes = piece_of(i);
    d.request_piece(i, 1)
        .unwrap()
        .iter()
        .map(|(_, m)| {
            let at = u32::from_be_bytes(m.content[4..8].try_into().unwrap()) as usize;
            let len = u32::from_be_bytes(m.content[8..12].try_into().unwrap()) as usize;
            (i, at, bytes[at..at + len].to_vec())
        })
        .collect()
}

#[test]
fn a_new_download_has_nothing() {
    let d = Downloader::new(torrent(), ID);
    assert_eq!(d.pieces_state(), &[false; 3]);
    assert_eq!(d.torrent().announce, "http://tracker.example/announce");
    assert_eq!(d.id(), ID);
    assert_eq!(Downloader::new(torrent(), [0xff; 20]).id(), [0xff; 20]);
}

#[test]
fn knows_the_sizes_and_digests_of_pieces() {
    let d = Downloader::new(torrent(), ID);
    assert_eq!(d.total_length(), 90_000);
    assert_eq!(d.piece_length(0), 40_000);
    assert_eq!(d.piece_length(1), 40_000);
    assert_eq!(d.piece_length(2), 10_000);
    for i in 0..3 {
        let digest: [u8; 20] = Sha1::digest(piece_of(i)).into();
        assert_eq!(d.expected_hash(i), digest);
    }
    let mut t = torrent();
    t.info.files = FileList::MultiFile {
        files: vec![
            FileDetails { length: 41_000, path: vec!["a".to_string()] },
            FileDetails { length: 500, path: vec!["b".to_string()] },
        ],
    };
    let several = Downloader::new(t, ID);
    assert_eq!(several.total_length(), 41_500);
    assert_eq!(several.piece_length(1), 1_500);
}

#[test]
fn requests_the_blocks_of_a_piece_in_turn() {
    let d = Downloader::new(torrent(), ID);
    let plan = d.request_piece(1, 2).unwrap();
    let shown: Vec<(usize, Vec<u8>)> =
        plan.into_iter().map(|(peer, m)| (peer, m.to_bytes().to_vec())).collect();
    let expected: Vec<(usize, Vec<u8>)> = [(0, 0, 16384), (1, 16384, 16384), (0, 32768, 7232)]
        .iter()
        .map(|&(peer, at, len)| (peer, PeerMessage::new_request(1, at, len).to_bytes().to_vec()))
        .collect();
    assert_eq!(shown, expected);
    assert_eq!(BLOCK_SIZE, 16384);
}

#[test]
fn a_whole_number_of_blocks_has_no_short_one() {
    let mut t = torrent();
    t.info.piece_length = 32768;
    let d = Downloader::new(t, ID);
    let plan = d.request_piece(0, 3).unwrap();
    assert_eq!(plan.len(), 2);
    assert_eq!(plan[1].0, 1);
    assert_eq!(plan[1].1.content[8..12], [0, 0, 0x40, 0]);
}

#[test]
fn requests_need_peers() {
    let d = Downloader::new(torrent(), ID);
    assert_eq!(d.request_piece(0, 0).unwrap_err(), NoPeers);
    assert_eq!(d.download_range(&[0, 1], 0).unwrap_err(), NoPeers);
    assert_eq!(NoPeers.message(), "No peers available");
    let (plan, retrieval) = d.download_range(&[], 0).unwrap();
    assert!(plan.is_empty());
    assert!(retrieval.is_done());
}

#[test]
fn the_requests_of_a_range_follow_each_other() {
    let d = Downloader::new(torrent(), ID);
    let (plan, retrieval) = d.download_range(&[2, 0], 2).unwrap();
    let mut expected = d.request_piece(2, 2).unwrap();
    expected.extend(d.request_piece(0, 2).unwrap());
    assert_eq!(plan.len(), 4);
    for (a, b) in plan.iter().zip(expected.iter()) {
        assert_eq!(a.0, b.0);
        assert_eq!(a.1.content, b.1.content);
    }
    assert!(!retrieval.is_done());
    assert_eq!(retrieval.progress(2), Some((0, 10_000)));
    assert_eq!(retrieval.progress(0), Some((0, 40_000)));
    assert_eq!(retrieval.progress(1), None);
}

#[test]
fn a_download_gives_back_what_was_shared() {
    let d = Downloader::new(torrent(), ID);
    let (_, mut retrieval) = d.download_range(&[0, 1, 2], 2).unwrap();
    let mut blocks: Vec<(usize, usize, Vec<u8>)> = Vec::new();
    for i in 0..3 {
        blocks.extend(blocks_of(&d, i));
    }
    assert_eq!(blocks.len(), 7);
    // An order that mixes the pieces.
    let order = [4, 0, 6, 2, 5, 3, 1];
    for (n, &k) in order.iter().enumerate() {
        let (piece, offset, block) = &blocks[k];
        assert!(d.can_receive(&retrieval, *piece, *offset, block));
        let done = d.receive_block(&mut retrieval, *piece, *offset, block);
        assert_eq!(done, Ok(n == order.len() - 1));
        assert_eq!(retrieval.is_done(), n == order.len() - 1);
    }
    let pieces = retrieval.into_pieces();
    assert_eq!(pieces.len(), 3);
    for i in 0..3 {
        assert_eq!(pieces[&i], piece_of(i));
    }
}

#[test]
fn blocks_that_were_not_requested_are_refused() {
    let d = Downloader::new(torrent(), ID);
    let mut retrieval = d.retrieve_pieces(&[2]);
    assert_eq!(d.receive_block(&mut retrieval, 1, 0, &[1, 2]), Err(BlockError::Unrequested));
    assert_eq!(
        BlockError::Unrequested.message(),
        "Receive a block that we did not request"
    );
    assert_eq!(retrieval.progress(2), Some((0, 10_000)));
    let (_, offset, block) = &blocks_of(&d, 2)[0];
    assert_eq!(d.receive_block(&mut retrieval, 2, *offset, block), Ok(true));
    assert_eq!(d.receive_block(&mut retrieval, 2, *offset, block), Err(BlockError::Unrequested));
    assert_eq!(retrieval.into_pieces()[&2], piece_of(2));
}

#[test]
fn blocks_beyond_the_piece_are_refused() {
    let d = Downloader::new(torrent(), ID);
    let mut retrieval = d.retrieve_pieces(&[2]);
    assert_eq!(d.receive_block(&mut retrieval, 2, 9_999, &[1, 2]), Err(BlockError::OutOfBounds));
    assert_eq!(retrieval.progress(2), Some((0, 10_000)));
    assert_eq!(BlockError::OutOfBounds.message(), "Save block in memory");
    assert!(!d.can_receive(&retrieval, 2, usize::MAX, &[1]));
    assert!(d.can_receive(&retrieval, 0, usize::MAX, &[1]));
}

#[test]
fn corrupt_pieces_are_not_kept() {
    let d = Downloader::new(torrent(), ID);
    let mut retrieval = d.retrieve_pieces(&[2, 1]);
    let mut block = piece_of(2);
    block[17] ^= 1;
    assert_eq!(d.receive_block(&mut retrieval, 2, 0, &block), Err(BlockError::Corrupt));
    assert_eq!(BlockError::Corrupt.message(), "Piece does not have the expected hash");
    assert_eq!(retrieval.progress(2), None);
    assert_eq!(retrieval.progress(1), Some((0, 40_000)));
    assert!(retrieval.into_pieces().is_empty());
}

#[test]
fn other_pieces_are_unchanged_by_a_block() {
    let d = Downloader::new(torrent(), ID);
    let mut retrieval = d.retrieve_pieces(&[0, 1]);
    assert_eq!(d.receive_block(&mut retrieval, 0, 100, &[7; 50]), Ok(false));
    assert_eq!(retrieval.progress(0), Some((50, 40_000)));
    assert_eq!(retrieval.progress(1), Some((0, 40_000)));
}

#[test]
fn a_piece_without_a_digest_cannot_be_completed() {
    let mut t = torrent();
    t.info.pieces.truncate(40);
    let d = Downloader::new(t, ID);
    let retrieval = d.retrieve_pieces(&[2]);
    assert!(!d.can_receive(&retrieval, 2, 0, &piece_of(2)));
    assert!(d.can_receive(&retrieval, 2, 0, &piece_of(2)[1..]));
}

#[test]
fn a_retrieval_stores_and_settles() {
    let mut r = Retrieval::new();
    assert!(r.is_done());
    r.expect(4, 3);
    assert!(!r.is_done());
    assert_eq!(r.store(4, 1, &[5, 6]), Ok(None));
    let bytes = r.store(4, 0, &[4]).unwrap().unwrap();
    assert_eq!(bytes, vec![4, 5, 6]);
    assert!(r.is_done());
    assert_eq!(r.settle(4, vec![1], &[1; 20], &[2; 20]), Err(BlockError::Corrupt));
    assert_eq!(r.settle(4, bytes, &[1; 20], &[1; 20]), Ok(()));
    assert_eq!(r.into_pieces()[&4], vec![4, 5, 6]);
}

#[test]
fn a_piece_reads_back_what_was_written() {
    let mut p = Piece::new(5);
    assert_eq!(p.expected_length(), 5);
    assert!(!p.done());
    assert_eq!(p.write(1, &[7, 8]), Ok(()));
    assert_eq!(p.writes(), 2);
    assert_eq!(p.write(4, &[1, 2]), Err(ChunkOutOfBounds));
    assert_eq!(ChunkOutOfBounds.message(), "Cannot fit chunk into piece");
    assert_eq!(p.writes(), 2);
    assert_eq!(p.write(3, &[9, 9]), Ok(()));
    assert_eq!(p.write(0, &[6]), Ok(()));
    assert!(p.done());
    assert_eq!(p.bytes(), vec![6, 7, 8, 9, 9]);
    assert!(Piece::new(0).done());
}

#[test]
fn disjoint_writes_commute() {
    let mut p = Piece::new(4);
    let mut q = Piece::new(4);
    p.write(0, &[1, 2]).unwrap();
    p.write(2, &[3]).unwrap();
    q.write(2, &[3]).unwrap();
    q.write(0, &[1, 2]).unwrap();
    assert_eq!(p.bytes(), q.bytes());
}

#[test]
fn pieces_and_blocks_tile_the_file() {
    let d = Downloader::new(torrent(), ID);
    let mut at = 0;
    for i in 0..3 {
        let mut in_piece = 0;
        for (_, offset, block) in blocks_of(&d, i) {
            assert_eq!(offset, in_piece);
            assert!(!block.is_empty() && block.len() <= BLOCK_SIZE);
            in_piece += block.len();
        }
        assert_eq!(in_piece, d.piece_length(i));
        assert_eq!(at, i * PIECE);
        at += in_piece;
    }
    assert_eq!(at, TOTAL);
}

#[test]
fn batches_cover_the_pieces() {
    assert_eq!(Downloader::new(torrent(), ID).batches(), vec![(0, 2), (2, 3)]);
    let mut t = torrent();
    t.info.pieces.extend(vec![0; 20]);
    assert_eq!(Downloader::new(t, ID).batches(), vec![(0, 2), (2, 4)]);
    let mut none = torrent();
    none.info.pieces.clear();
    assert!(Downloader::new(none, ID).batches().is_empty());
}

#[test]
fn notes_and_places_written_pieces() {
    let mut d = Downloader::new(torrent(), ID);
    d.mark_written(1);
    assert_eq!(d.pieces_state(), &[false, true, false]);
    assert_eq!(d.id(), ID);
    let piece = piece_of(2);
    assert_eq!(d.write_piece(2, &piece), vec![("data.bin", 80_000, &piece[..])]);
}

#[test]
fn asks_its_tracker() {
    let d = Downloader::new(torrent(), ID);
    let url = d.tracker_request().unwrap();
    let hash = urlencoding::encode_binary(&d.torrent().info_sha1()).into_owned();
    assert_eq!(
        url,
        format!(
            "http://tracker.example/announce?port=6881&uploaded=0&downloaded=0&compact=1\
             &peer_id=cc112233445566778899&left=90000&info_hash={}",
            hash
        )
    );
    let mut t = torrent();
    t.announce = "tracker".to_string();
    assert_eq!(Downloader::new(t, ID).tracker_request(), Err(InvalidAnnounce));
}

#[test]
fn connects_to_as_many_peers_as_asked_for() {
    assert_eq!(peers_to_connect(5, 2), 2);
    assert_eq!(peers_to_connect(5, 5), 5);
    assert_eq!(peers_to_connect(5, 9), 5);
    assert_eq!(peers_to_connect(5, 0), 5);
}

#[test]
fn greets_a_peer_step_by_step() {
    let silent = PeerHandle { status: None, bitfield: None };
    let told = PeerHandle { status: None, bitfield: Some(Bitfield::new(vec![0x80])) };
    let open = PeerHandle { status: Some(Status::Unchoked), bitfield: None };
    let start = Greeting::AwaitBitfield;
    assert_eq!(start.next(&silent, false), Greeting::AwaitBitfield);
    assert_eq!(start.next(&silent, true), Greeting::SendInterested);
    let tell = start.next(&told, false);
    assert_eq!(tell, Greeting::SendInterested);
    let wait = tell.next(&told, false);
    assert_eq!(wait, Greeting::AwaitStatus);
    assert_eq!(wait.next(&told, false), Greeting::AwaitStatus);
    assert_eq!(wait.next(&silent, true), Greeting::Connected);
    assert_eq!(wait.next(&open, false), Greeting::Connected);
    assert_eq!(Greeting::Connected.next(&open, true), Greeting::Connected);
}

#[test]
fn tells_which_pieces_it_can_locate_and_place() {
    let d = Downloader::new(torrent(), ID);
    assert_eq!(d.checked_total(), Some(90_000));
    assert!(d.can_locate(2));
    assert!(!d.can_locate(3));
    assert!(!d.can_locate(usize::MAX));
    assert!(d.can_place(2, 10_000));
    assert!(!d.can_place(2, 10_001));
    assert!(!d.can_place(usize::MAX, 0));
    let mut t = torrent();
    t.info.files = FileList::MultiFile {
        files: vec![
            FileDetails { length: usize::MAX, path: vec![] },
            FileDetails { length: 1, path: vec![] },
        ],
    };
    let huge = Downloader::new(t, ID);
    assert_eq!(huge.checked_total(), None);
    assert!(!huge.can_locate(0));
    assert!(!huge.can_place(0, 0));
}

#[test]
fn finished_pieces_outlive_a_fault() {
    let d = Downloader::new(torrent(), ID);
    let mut retrieval = d.retrieve_pieces(&[0, 2]);
    assert_eq!(d.receive_block(&mut retrieval, 2, 0, &piece_of(2)), Ok(false));
    assert_eq!(d.receive_block(&mut retrieval, 1, 0, &[1]), Err(BlockError::Unrequested));
    assert_eq!(
        d.receive_block(&mut retrieval, 0, 0, &vec![0; 40_000]),
        Err(BlockError::Corrupt)
    );
    assert!(retrieval.is_done());
    let pieces = retrieval.into_pieces();
    assert_eq!(pieces.len(), 1);
    assert_eq!(pieces[&2], piece_of(2));
}

#[test]
fn an_empty_piece_is_never_delivered() {
    let mut t = torrent();
    t.info.files = FileList::SingleFile { length: 80_000 };
    let d = Downloader::new(t, ID);
    let (plan, retrieval) = d.download_range(&[2], 1).unwrap();
    assert!(plan.is_empty());
    assert!(!retrieval.is_done());
}

#[test]
fn an_identifier_that_is_no_text_is_escaped() {
    let mut id = [0x41; 20];
    id[0] = 0xff;
    id[19] = b' ';
    let url = Downloader::new(torrent(), id).tracker_request().unwrap();
    assert!(url.contains("&peer_id=%FFAAAAAAAAAAAAAAAAAA%20&left=90000&"));
}

#[test]
fn any_cut_in_any_order_recovers_the_pieces() {
    let d = Downloader::new(torrent(), ID);
    let mut cut: Vec<(usize, usize, Vec<u8>)> = Vec::new();
    for (piece, ends) in [(2, vec![1, 10_000]), (1, vec![39_999, 40_000]), (0, vec![7, 20_000, 40_000])] {
        let bytes = piece_of(piece);
        let mut start = 0;
        for end in ends {
            cut.push((piece, start, bytes[start..end].to_vec()));
            start = end;
        }
    }
    for order in [[0, 1, 2, 3, 4, 5, 6], [6, 3, 0, 5, 2, 4, 1]] {
        let mut retrieval = d.retrieve_pieces(&[0, 1, 2]);
        // A block behind the last one stays where it is.
        let mut queue: Vec<usize> = order.to_vec();
        queue.push(0);
        let mut taken = 0;
        let mut done = retrieval.is_done();
        while !done {
            let (piece, offset, block) = &cut[queue[taken]];
            done = d.receive_block(&mut retrieval, *piece, *offset, block).unwrap();
            taken += 1;
        }
        assert_eq!(taken, 7);
        let pieces = retrieval.into_pieces();
        assert_eq!(pieces.len(), 3);
        for i in 0..3 {
            assert_eq!(pieces[&i], piece_of(i));
        }
    }
}

#[test]
fn no_piece_takes_no_block() {
    let d = Downloader::new(torrent(), ID);
    let retrieval = d.retrieve_pieces(&[]);
    assert!(retrieval.is_done());
    assert!(retrieval.into_pieces().is_empty());
}

#[test]
fn pieces_are_pending_or_finished_and_never_both() {
    let d = Downloader::new(torrent(), ID);
    let mut retrieval = d.retrieve_pieces(&[0, 2]);
    assert_eq!(d.receive_block(&mut retrieval, 0, 5, &piece_of(0)[5..9]), Ok(false));
    assert_eq!(d.receive_block(&mut retrieval, 2, 0, &piece_of(2)), Ok(false));
    assert_eq!(retrieval.progress(0), Some((4, 40_000)));
    assert_eq!(retrieval.progress(1), None);
    assert_eq!(retrieval.progress(2), None);
    let pieces = retrieval.into_pieces();
    assert_eq!(pieces.len(), 1);
    assert_eq!(pieces[&2].len(), d.piece_length(2));
}
