use bittorrent::commands::{answering_peer, handshake_to_send, peers_url};
use bittorrent::torrent::{FileDetails, FileList, Info, Torrent};
use bittorrent::tracker::{tracker_query, tracker_url, InvalidAnnounce, PeerAddr, TrackerResponse};
use bittorrent::utils::split_piece_for_files;
use serde_bencode::value::Value;
use sha1::{Digest, Sha1};
use std::collections::HashMap;
use std::path::PathBuf;

fn sample() -> Torrent {
    Torrent {
        announce: "http://tracker.example/announce".to_string(),
        info: Info {
            name: "sample.txt".to_string(),
            piece_length: 32768,
            pieces: (0u8..40).collect(),
            files: FileList::SingleFile { length: 40000 },
        },
    }
}

fn several_files() -> Torrent {
    Torrent {
        announce: "http://tracker.example/announce".to_string(),
        info: Info {
            name: "dir".to_string(),
            piece_length: 16384,
            pieces: vec![7; 20],
            files: FileList::MultiFile {
                files: vec![
                    FileDetails { length: 3, path: vec!["a".to_string(), "b.txt".to_string()] },
                    FileDetails { length: 0, path: vec!["é".to_string()] },
                ],
            },
        },
    }
}

fn key(s: &str) -> Vec<u8> {
    s.as_bytes().to_vec()
}

#[test]
fn encodes_the_info_of_a_single_file() {
    let mut expected = b"d6:lengthi40000e4:name10:sample.txt12:piece lengthi32768e6:pieces40:".to_vec();
    expected.extend(0u8..40);
    expected.push(b'e');
    assert_eq!(sample().info(), expected);
}

#[test]
fn encodes_the_info_as_serde_bencode_does() {
    let mut dict = HashMap::new();
    dict.insert(key("piece length"), Value::Int(32768));
    dict.insert(key("pieces"), Value::Bytes((0u8..40).collect()));
    dict.insert(key("name"), Value::Bytes(key("sample.txt")));
    dict.insert(key("length"), Value::Int(40000));
    assert_eq!(sample().info(), serde_bencode::to_bytes(&Value::Dict(dict)).unwrap());

    let mut first = HashMap::new();
    first.insert(key("path"), Value::List(vec![Value::Bytes(key("a")), Value::Bytes(key("b.txt"))]));
    first.insert(key("length"), Value::Int(3));
    let mut second = HashMap::new();
    second.insert(key("path"), Value::List(vec![Value::Bytes(key("é"))]));
    second.insert(key("length"), Value::Int(0));
    let mut dict = HashMap::new();
    dict.insert(key("files"), Value::List(vec![Value::Dict(first), Value::Dict(second)]));
    dict.insert(key("name"), Value::Bytes(key("dir")));
    dict.insert(key("piece length"), Value::Int(16384));
    dict.insert(key("pieces"), Value::Bytes(vec![7; 20]));
    assert_eq!(several_files().info(), serde_bencode::to_bytes(&Value::Dict(dict)).unwrap());
}

#[test]
fn hashes_the_info() {
    let t = sample();
    assert_eq!(t.info_sha1_hex(), "cac5cf29dcdc1de520d9fff821a60e6c6a55cf07");
    let digest: [u8; 20] = Sha1::digest(t.info()).into();
    assert_eq!(t.info_sha1(), digest);
    assert_ne!(several_files().info_sha1(), digest);
}

#[test]
fn describes_a_torrent() {
    let t = sample();
    let lines = t.describe();
    assert_eq!(t.describe_with_hash(&[0xab; 20])[2], format!("Info Hash: {}", "ab".repeat(20)));
    assert_eq!(
        lines,
        vec![
            "Track URL: http://tracker.example/announce",
            "Length: 40000",
            "Info Hash: cac5cf29dcdc1de520d9fff821a60e6c6a55cf07",
            "Piece Length: 32768",
            "Piece Hashes:",
            "000102030405060708090a0b0c0d0e0f10111213",
            "1415161718191a1b1c1d1e1f2021222324252627",
        ]
    );
    assert_eq!(t.info.files.to_text(), "40000");
}

#[test]
fn lists_only_whole_piece_digests() {
    let mut t = sample();
    t.info.pieces.truncate(39);
    assert_eq!(t.info.piece_hashes(), vec!["000102030405060708090a0b0c0d0e0f10111213"]);
    t.info.pieces.clear();
    assert!(t.info.piece_hashes().is_empty());
}

#[test]
fn asks_the_tracker_for_peers() {
    let t = sample();
    assert_eq!(
        tracker_query(b"cc112233445566778899", 40000, &t.info_sha1()),
        "port=6881&uploaded=0&downloaded=0&compact=1&peer_id=cc112233445566778899&left=40000\
         &info_hash=%CA%C5%CF%29%DC%DC%1D%E5%20%D9%FF%F8%21%A6%0EljU%CF%07"
    );
    assert_eq!(
        peers_url(&t, b"12345678900987654321").unwrap(),
        "http://tracker.example/announce?port=6881&uploaded=0&downloaded=0&compact=1\
         &peer_id=12345678900987654321&left=32768\
         &info_hash=%CA%C5%CF%29%DC%DC%1D%E5%20%D9%FF%F8%21%A6%0EljU%CF%07"
    );
}

#[test]
fn a_query_replaces_the_one_of_the_address() {
    assert_eq!(
        tracker_url("http://tracker.example/a?old=1#part", "new=2").unwrap(),
        "http://tracker.example/a?new=2#part"
    );
    assert_eq!(tracker_url("no url", "q=1"), Err(InvalidAnnounce));
    assert_eq!(tracker_url("", ""), Err(InvalidAnnounce));
}

#[test]
fn reads_the_peers_of_an_answer() {
    let res = TrackerResponse {
        peers: vec![178, 62, 82, 89, 0xc8, 0xf1, 10, 0, 0, 1, 0, 80, 1, 2, 3],
        interval: 60,
    };
    let peers = res.addresses();
    assert_eq!(
        peers,
        vec![
            PeerAddr { ip: [178, 62, 82, 89], port: 51441 },
            PeerAddr { ip: [10, 0, 0, 1], port: 80 },
        ]
    );
    assert_eq!(peers[0].to_text(), "178.62.82.89:51441");
    assert!(TrackerResponse { peers: vec![1, 2, 3, 4, 5], interval: 0 }.addresses().is_empty());
}

#[test]
fn makes_the_handshake_of_the_commands() {
    let t = sample();
    let id = [0x9c; 20];
    let h = handshake_to_send(&t, id);
    assert_eq!(h.length, 19);
    assert_eq!(&h.string, b"BitTorrent protocol");
    assert_eq!(h.reserved, [0; 8]);
    assert_eq!(h.peer_id, id);
    assert_eq!(handshake_to_send(&t, [1; 20]).peer_id, [1; 20]);
    assert_eq!(h.info_hash, t.info_sha1());
}

#[test]
fn names_the_peer_that_answered() {
    let mut response = [0u8; 68];
    for i in 0..20 {
        response[48 + i] = 0xe0 + i as u8;
    }
    assert_eq!(answering_peer(&response), "e0e1e2e3e4e5e6e7e8e9eaebecedeeeff0f1f2f3");
}

#[test]
fn cuts_a_piece_up_among_files() {
    let one = split_piece_for_files(vec![(PathBuf::from("a"), 5, 3)], vec![1, 2, 3, 4]);
    assert_eq!(one, vec![(PathBuf::from("a"), 5, vec![1, 2, 3])]);
    let two = split_piece_for_files(
        vec![(PathBuf::from("a"), 0, 2), (PathBuf::from("b"), 0, 3)],
        vec![1, 2, 3, 4, 5],
    );
    assert_eq!(
        two,
        vec![(PathBuf::from("a"), 0, vec![1, 2]), (PathBuf::from("b"), 0, vec![3, 4, 5])]
    );
    assert!(split_piece_for_files(vec![], vec![1]).is_empty());
}

#[test]
fn parts_of_a_piece_give_it_back() {
    let files = vec![
        (PathBuf::from("long"), 9, 4),
        (PathBuf::from("empty"), 0, 0),
        (PathBuf::from("short"), 1, 1),
    ];
    let parts = split_piece_for_files(files, vec![9, 8, 7, 6, 5]);
    let joined: Vec<u8> = parts.iter().flat_map(|(_, _, part)| part.clone()).collect();
    assert_eq!(joined, vec![9, 8, 7, 6, 5]);
    assert_eq!(parts[2], (PathBuf::from("short"), 1, vec![5]));
}
