# bittorrent

A BitTorrent download client whose logic is proved with Verus.

- `src/` is the library.
  - `bencode`, `decimal`: bencoded values and the notation of numbers.
  - `torrent`, `tracker`, `commands`: the torrent file, its hash, and the
    requests to its tracker.
  - `peer`, `peer_agent`, `wire`: the peer wire protocol and the agent of one
    connection.
  - `piece`, `retrieval`, `downloader`: the assembly of pieces and the plan of a
    download.
  - `recovery`: that a download gives back what was shared.
  - `outside`: what is taken from other crates without proof.
- `app/` is the command line client around it: files, sockets and channels.
- `tests/` runs the library.
