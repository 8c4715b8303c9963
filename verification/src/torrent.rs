//! The torrent file: its contents, the bencoding of its info dictionary and
//! the hash of that.

use crate::bencode::{integer, string};
use crate::consts::PIECE_SHA1_LENGTH;
use crate::decimal::{ascii_text, decimal, decimal_text, push_decimal, push_decimal_text};
use crate::outside::{hex_encode, hex_text, sha1, sha1_digest};
use vstd::prelude::*;
use vstd::utf8::encode_utf8;

verus! {

/// A torrent file.
#[derive(Debug)]
pub struct Torrent {
    /// The URL of the tracker.
    pub announce: String,
    pub info: Info,
}

/// What a torrent offers.
#[derive(Debug)]
pub struct Info {
    /// In the single file case, the name of a file; in the multiple file case,
    /// the name of a directory. It is purely advisory.
    pub name: String,
    /// The number of bytes in each piece that the file is split into.
    pub piece_length: usize,
    /// The SHA-1 digests of the pieces, 20 bytes each.
    pub pieces: Vec<u8>,
    /// One file, or several in a directory structure.
    pub files: FileList,
}

/// The files of a torrent.
#[derive(Debug)]
pub enum FileList {
    SingleFile { length: usize },
    MultiFile { files: Vec<FileDetails> },
}

/// One of several files.
#[derive(Debug)]
pub struct FileDetails {
    pub length: usize,
    pub path: Vec<String>,
}

/// An entry of a dictionary: the key, and the bencoding of the value.
pub open spec fn entry(key: &str, value: Seq<u8>) -> Seq<u8> {
    string(encode_utf8(key@)) + value
}

/// The bencodings of the first `n` names of a path.
pub open spec fn path_bytes(path: Seq<String>, n: int) -> Seq<u8>
    decreases n,
{
    if n <= 0 {
        Seq::empty()
    } else {
        path_bytes(path, n - 1) + string(encode_utf8(path[n - 1]@))
    }
}

impl FileDetails {
    /// The bencoding of the file's dictionary.
    pub open spec fn encoded(self) -> Seq<u8> {
        seq![0x64u8] + entry("length", integer(self.length as int)) + entry(
            "path",
            seq![0x6cu8] + path_bytes(self.path@, self.path@.len() as int) + seq![0x65u8],
        ) + seq![0x65u8]
    }
}

/// The bencodings of the first `n` files.
pub open spec fn file_bytes(files: Seq<FileDetails>, n: int) -> Seq<u8>
    decreases n,
{
    if n <= 0 {
        Seq::empty()
    } else {
        file_bytes(files, n - 1) + files[n - 1].encoded()
    }
}

/// The lengths of the first `n` files together.
pub open spec fn lengths_before(files: Seq<FileDetails>, n: int) -> int
    decreases n,
{
    if n <= 0 {
        0
    } else {
        lengths_before(files, n - 1) + files[n - 1].length
    }
}

impl FileList {
    /// The length of all files together.
    pub open spec fn total(self) -> int {
        match self {
            FileList::SingleFile { length } => length as int,
            FileList::MultiFile { files } => lengths_before(files@, files@.len() as int),
        }
    }

    /// The entry of the info dictionary that tells of the files.
    pub open spec fn encoded(self) -> Seq<u8> {
        match self {
            FileList::SingleFile { length } => entry("length", integer(length as int)),
            FileList::MultiFile { files } => entry(
                "files",
                seq![0x6cu8] + file_bytes(files@, files@.len() as int) + seq![0x65u8],
            ),
        }
    }
}

impl Info {
    /// The bencoding of the info dictionary, its keys in ascending order.
    pub open spec fn encoded(self) -> Seq<u8> {
        seq![0x64u8] + self.files.encoded() + entry("name", string(encode_utf8(self.name@)))
            + entry("piece length", integer(self.piece_length as int)) + entry(
            "pieces",
            string(self.pieces@),
        ) + seq![0x65u8]
    }

    /// The length of piece `i`: the last piece holds what is left.
    pub open spec fn piece_size(self, i: int) -> int {
        let left = self.files.total() - i * self.piece_length;
        if left < self.piece_length {
            left
        } else {
            self.piece_length as int
        }
    }

    /// Piece `i` starts inside the files, whose length the machine can count.
    pub open spec fn has_start(self, i: int) -> bool {
        &&& self.files.total() <= usize::MAX
        &&& i * self.piece_length <= self.files.total()
    }

    /// Whether byte `x` of the files lies in piece `i`.
    pub open spec fn in_piece(self, i: int, x: int) -> bool {
        i * self.piece_length <= x < i * self.piece_length + self.piece_size(i)
    }

    /// The number of pieces whose digests the torrent gives.
    pub open spec fn piece_count(self) -> int {
        self.pieces@.len() as int / 20
    }

    /// The digest of piece `i`.
    pub open spec fn piece_digest(self, i: int) -> Seq<u8> {
        self.pieces@.subrange(i * 20, i * 20 + 20)
    }
}

/// Appends the bencoding of an integer.
fn push_integer(out: &mut Vec<u8>, n: usize)
    ensures
        final(out)@ == old(out)@ + integer(n as int),
{
    let ghost before = out@;
    out.push(0x69);
    push_decimal(out, n);
    out.push(0x65);
    assert(out@ =~= before + integer(n as int));
}

/// Appends the bencoding of a string.
fn push_string(out: &mut Vec<u8>, bytes: &[u8])
    ensures
        final(out)@ == old(out)@ + string(bytes@),
{
    let ghost before = out@;
    push_decimal(out, bytes.len());
    out.push(0x3a);
    out.extend_from_slice(bytes);
    assert(out@ =~= before + string(bytes@));
}

/// Appends the bencoding of a file's dictionary.
fn push_file(out: &mut Vec<u8>, file: &FileDetails)
    ensures
        final(out)@ == old(out)@ + file.encoded(),
{
    let ghost before = out@;
    out.push(0x64);
    push_string(out, "length".as_bytes());
    push_integer(out, file.length);
    push_string(out, "path".as_bytes());
    out.push(0x6c);
    let ghost head = out@;
    let mut i: usize = 0;
    while i < file.path.len()
        invariant
            i <= file.path@.len(),
            out@ =~= head + path_bytes(file.path@, i as int),
        decreases file.path@.len() - i,
    {
        push_string(out, file.path[i].as_str().as_bytes());
        i += 1;
    }
    out.push(0x65);
    out.push(0x65);
    assert(out@ =~= before + file.encoded());
}

impl FileList {
    /// The length of the single file as text.
    pub fn to_text(&self) -> (text: String)
        requires
            self is SingleFile,
        ensures
            text@ == ascii_text(decimal(self->length as nat)),
    {
        match self {
            FileList::SingleFile { length } => decimal_text(*length),
            FileList::MultiFile { .. } => String::new(),
        }
    }
}

impl Info {
    /// The digests of the pieces in hexadecimal.
    pub fn piece_hashes(&self) -> (hashes: Vec<String>)
        ensures
            hashes@.len() == self.piece_count(),
            forall|i: int|
                0 <= i < hashes@.len() ==> (#[trigger] hashes@[i])@ == hex_text(
                    self.piece_digest(i),
                ),
    {
        let n = self.pieces.len() / PIECE_SHA1_LENGTH;
        let mut hashes: Vec<String> = Vec::new();
        let mut i: usize = 0;
        while i < n
            invariant
                i <= n,
                n == self.piece_count(),
                hashes@.len() == i,
                self.pieces@.len() <= usize::MAX,
                forall|j: int|
                    0 <= j < i ==> (#[trigger] hashes@[j])@ == hex_text(self.piece_digest(j)),
            decreases n - i,
        {
            let digest = vstd::slice::slice_subrange(self.pieces.as_slice(), i * 20, i * 20 + 20);
            hashes.push(hex_encode(digest));
            i += 1;
        }
        hashes
    }
}

impl Torrent {
    /// The bencoding of the info dictionary.
    pub fn info(&self) -> (bytes: Vec<u8>)
        ensures
            bytes@ == self.info.encoded(),
    {
        let mut out: Vec<u8> = Vec::new();
        out.push(0x64);
        match &self.info.files {
            FileList::SingleFile { length } => {
                push_string(&mut out, "length".as_bytes());
                push_integer(&mut out, *length);
            },
            FileList::MultiFile { files } => {
                push_string(&mut out, "files".as_bytes());
                out.push(0x6c);
                let ghost head = out@;
                let mut i: usize = 0;
                while i < files.len()
                    invariant
                        i <= files@.len(),
                        out@ =~= head + file_bytes(files@, i as int),
                    decreases files@.len() - i,
                {
                    push_file(&mut out, &files[i]);
                    i += 1;
                }
                out.push(0x65);
            },
        }
        assert(out@ =~= seq![0x64u8] + self.info.files.encoded());
        push_string(&mut out, "name".as_bytes());
        push_string(&mut out, self.info.name.as_str().as_bytes());
        push_string(&mut out, "piece length".as_bytes());
        push_integer(&mut out, self.info.piece_length);
        push_string(&mut out, "pieces".as_bytes());
        push_string(&mut out, self.info.pieces.as_slice());
        out.push(0x65);
        assert(out@ =~= self.info.encoded());
        out
    }

    /// The hash that names the torrent.
    pub fn info_sha1(&self) -> (hash: [u8; 20])
        requires
            self.info.encoded().len() * 8 <= u64::MAX,
        ensures
            hash@ == sha1_digest(self.info.encoded()),
    {
        let info = self.info();
        sha1(info.as_slice())
    }

    /// The hash that names the torrent, in hexadecimal.
    pub fn info_sha1_hex(&self) -> (text: String)
        requires
            self.info.encoded().len() * 8 <= u64::MAX,
        ensures
            text@ == hex_text(sha1_digest(self.info.encoded())),
    {
        let hash = self.info_sha1();
        hex_encode(hash.as_slice())
    }

    /// The lines that describe the torrent, given the hash that names it.
    pub fn describe_with_hash(&self, info_hash: &[u8; 20]) -> (lines: Vec<String>)
        requires
            self.info.files is SingleFile,
        ensures
            lines@.len() == 5 + self.info.piece_count(),
            lines@[0]@ == "Track URL: "@ + self.announce@,
            lines@[1]@ == "Length: "@ + ascii_text(decimal(self.info.files->length as nat)),
            lines@[2]@ == "Info Hash: "@ + hex_text(info_hash@),
            lines@[3]@ == "Piece Length: "@ + ascii_text(decimal(self.info.piece_length as nat)),
            lines@[4]@ == "Piece Hashes:"@,
            forall|k: int|
                5 <= k < lines@.len() ==> (#[trigger] lines@[k])@ == hex_text(
                    self.info.piece_digest(k - 5),
                ),
    {
        let mut url = String::from_str("Track URL: ");
        url.append(self.announce.as_str());
        let mut length = String::from_str("Length: ");
        length.append(self.info.files.to_text().as_str());
        let mut hash = String::from_str("Info Hash: ");
        hash.append(hex_encode(info_hash.as_slice()).as_str());
        let mut piece_length = String::from_str("Piece Length: ");
        push_decimal_text(&mut piece_length, self.info.piece_length);
        let mut lines: Vec<String> = Vec::new();
        lines.push(url);
        lines.push(length);
        lines.push(hash);
        lines.push(piece_length);
        lines.push(String::from_str("Piece Hashes:"));
        let mut hashes = self.info.piece_hashes();
        lines.append(&mut hashes);
        lines
    }

    /// The lines that describe the torrent, the hash that names it among them.
    pub fn describe(&self) -> (lines: Vec<String>)
        requires
            self.info.files is SingleFile,
            self.info.encoded().len() * 8 <= u64::MAX,
        ensures
            lines@.len() == 5 + self.info.piece_count(),
            lines@[0]@ == "Track URL: "@ + self.announce@,
            lines@[1]@ == "Length: "@ + ascii_text(decimal(self.info.files->length as nat)),
            lines@[2]@ == "Info Hash: "@ + hex_text(sha1_digest(self.info.encoded())),
            lines@[3]@ == "Piece Length: "@ + ascii_text(decimal(self.info.piece_length as nat)),
            lines@[4]@ == "Piece Hashes:"@,
            forall|k: int|
                5 <= k < lines@.len() ==> (#[trigger] lines@[k])@ == hex_text(
                    self.info.piece_digest(k - 5),
                ),
    {
        let hash = self.info_sha1();
        self.describe_with_hash(&hash)
    }
}

} // verus!
