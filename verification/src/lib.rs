//! A BitTorrent download client: the bencoded formats, the peer wire protocol,
//! the assembly of pieces and the scheduling of a download.

pub mod agent_laws;
pub mod bencode;
pub mod bencode_laws;
pub mod commands;
pub mod consts;
pub mod decimal;
pub mod download_laws;
pub mod downloader;
pub mod notation;
pub mod outside;
pub mod peer;
pub mod peer_agent;
pub mod piece;
pub mod recovery;
pub mod retrieval;
pub mod torrent;
pub mod torrent_laws;
pub mod tracker;
pub mod tracker_laws;
pub mod utils;
pub mod wire;
pub mod wire_laws;
