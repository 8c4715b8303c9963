//! What the info dictionary of a torrent says to a reader of bencoded
//! dictionaries, and what is told of a torrent.

use crate::bencode::{integer, string};
use crate::decimal::{ascii_text, decimal};
use crate::notation::{
    is_hex_of, is_notation, law_hex_is_read_back, law_notation_is_read_back, number_read,
};
use crate::outside::{hex_text, sha1_digest};
use crate::torrent::{file_bytes, path_bytes, FileDetails, FileList, Info, Torrent};
use vstd::prelude::*;
use vstd::utf8::{encode_utf8, encode_utf8_decode_utf8};

verus! {

/// What a reader of bencoded bytes finds.
pub enum Node {
    Number(int),
    Bytes(Seq<u8>),
    List(Seq<Node>),
    /// Keys and values, in the order in which they stand.
    Dict(Seq<(Seq<u8>, Node)>),
}

/// The number of digits that `b` starts with.
pub open spec fn digits_ahead(b: Seq<u8>) -> int
    decreases b.len(),
{
    if b.len() == 0 || !(0x30 <= b[0] <= 0x39) {
        0
    } else {
        1 + digits_ahead(b.skip(1))
    }
}

/// The number that ASCII digits stand for.
pub open spec fn digits_read(b: Seq<u8>) -> int {
    number_read(b.map_values(|x: u8| x as char))
}

/// Reads the value at the start of `b`, and tells how many bytes it takes up:
/// `i`, digits and `e` for a number; the length, a colon and the bytes for a
/// string; `l`, values and `e` for a list; `d`, keys with their values and `e`
/// for a dictionary.
pub open spec fn read(b: Seq<u8>) -> Option<(Node, int)>
    decreases b.len(), 0int,
{
    if b.len() == 0 {
        None
    } else if b[0] == 0x69 {
        let n = digits_ahead(b.skip(1));
        if 0 < n && n + 1 < b.len() && b[n + 1] == 0x65 {
            Some((Node::Number(digits_read(b.subrange(1, n + 1))), n + 2))
        } else {
            None
        }
    } else if b[0] == 0x6c {
        match read_list(b.skip(1)) {
            Some((items, n)) => Some((Node::List(items), n + 1)),
            None => None,
        }
    } else if b[0] == 0x64 {
        match read_dict(b.skip(1)) {
            Some((entries, n)) => Some((Node::Dict(entries), n + 1)),
            None => None,
        }
    } else {
        let n = digits_ahead(b);
        let len = digits_read(b.take(n));
        if 0 < n < b.len() && b[n] == 0x3a && 0 <= len <= b.len() - n - 1 {
            Some((Node::Bytes(b.subrange(n + 1, n + 1 + len)), n + 1 + len))
        } else {
            None
        }
    }
}

/// Reads values up to an `e`.
pub open spec fn read_list(b: Seq<u8>) -> Option<(Seq<Node>, int)>
    decreases b.len(), 1int,
{
    if b.len() == 0 {
        None
    } else if b[0] == 0x65 {
        Some((Seq::empty(), 1))
    } else {
        match read(b) {
            Some((first, n)) => if 0 < n <= b.len() {
                match read_list(b.skip(n)) {
                    Some((others, m)) => Some((seq![first] + others, n + m)),
                    None => None,
                }
            } else {
                None
            },
            None => None,
        }
    }
}

/// Reads keys with their values up to an `e`.
pub open spec fn read_dict(b: Seq<u8>) -> Option<(Seq<(Seq<u8>, Node)>, int)>
    decreases b.len(), 1int,
{
    if b.len() == 0 {
        None
    } else if b[0] == 0x65 {
        Some((Seq::empty(), 1))
    } else {
        match read(b) {
            Some((Node::Bytes(key), n)) => if 0 < n <= b.len() {
                match read(b.skip(n)) {
                    Some((value, m)) => if 0 < m <= b.len() - n {
                        match read_dict(b.skip(n + m)) {
                            Some((others, k)) => Some((seq![(key, value)] + others, n + m + k)),
                            None => None,
                        }
                    } else {
                        None
                    },
                    None => None,
                }
            } else {
                None
            },
            _ => None,
        }
    }
}

/// What is to be found of a file.
pub open spec fn file_node(file: FileDetails) -> Node {
    Node::Dict(
        seq![
            (encode_utf8("length"@), Node::Number(file.length as int)),
            (
                encode_utf8("path"@),
                Node::List(
                    Seq::new(file.path@.len(), |i: int| Node::Bytes(encode_utf8(file.path@[i]@))),
                ),
            ),
        ],
    )
}

/// What is to be found of the files.
pub open spec fn files_entry(files: FileList) -> (Seq<u8>, Node) {
    match files {
        FileList::SingleFile { length } => (
            encode_utf8("length"@),
            Node::Number(length as int),
        ),
        FileList::MultiFile { files } => (
            encode_utf8("files"@),
            Node::List(Seq::new(files@.len(), |i: int| file_node(files@[i]))),
        ),
    }
}

/// What is to be found of an info dictionary: all of it, the keys in ascending
/// order.
pub open spec fn info_node(info: Info) -> Node {
    Node::Dict(
        seq![
            files_entry(info.files),
            (encode_utf8("name"@), Node::Bytes(encode_utf8(info.name@))),
            (encode_utf8("piece length"@), Node::Number(info.piece_length as int)),
            (encode_utf8("pieces"@), Node::Bytes(info.pieces@)),
        ],
    )
}

/// Whether `v` is read from `b` and nothing of `b` is left.
spec fn reads(b: Seq<u8>, v: Node) -> bool {
    forall|rest: Seq<u8>| #[trigger] read(b + rest) == Some((v, b.len() as int))
}

proof fn lemma_digits_ahead(digits: Seq<u8>, rest: Seq<u8>)
    requires
        forall|i: int| 0 <= i < digits.len() ==> 0x30 <= #[trigger] digits[i] <= 0x39,
        rest.len() == 0 || !(0x30 <= rest[0] <= 0x39),
    ensures
        digits_ahead(digits + rest) == digits.len(),
    decreases digits.len(),
{
    let b = digits + rest;
    if digits.len() == 0 {
        assert(b =~= rest);
    } else {
        assert(b[0] == digits[0]);
        assert(b.skip(1) =~= digits.skip(1) + rest);
        assert forall|i: int| 0 <= i < digits.skip(1).len() implies 0x30
            <= #[trigger] digits.skip(1)[i] <= 0x39 by {
            assert(digits.skip(1)[i] == digits[i + 1]);
        }
        lemma_digits_ahead(digits.skip(1), rest);
    }
}

proof fn lemma_decimal_read(n: nat)
    ensures
        decimal(n).len() > 0,
        forall|i: int| 0 <= i < decimal(n).len() ==> 0x30 <= #[trigger] decimal(n)[i] <= 0x39,
        digits_read(decimal(n)) == n,
{
    law_notation_is_read_back(n);
    let text = ascii_text(decimal(n));
    assert(decimal(n).map_values(|x: u8| x as char) =~= text);
    assert forall|i: int| 0 <= i < decimal(n).len() implies 0x30 <= #[trigger] decimal(n)[i]
        <= 0x39 by {
        assert('0' <= text[i] <= '9');
        assert(text[i] as int == decimal(n)[i] as int);
    }
}

proof fn lemma_number_reads(n: nat)
    ensures
        reads(integer(n as int), Node::Number(n as int)),
        integer(n as int).len() > 0,
        integer(n as int)[0] != 0x65,
{
    lemma_decimal_read(n);
    let digits = decimal(n);
    assert forall|rest: Seq<u8>| #[trigger] read(integer(n as int) + rest) == Some(
        (Node::Number(n as int), integer(n as int).len() as int),
    ) by {
        let b = integer(n as int) + rest;
        lemma_digits_ahead(digits, seq![0x65u8] + rest);
        assert(b.skip(1) =~= digits + (seq![0x65u8] + rest));
        assert(b.subrange(1, digits.len() as int + 1) =~= digits);
        assert(b[digits.len() as int + 1] == 0x65);
    }
}

proof fn lemma_string_reads(bytes: Seq<u8>)
    ensures
        reads(string(bytes), Node::Bytes(bytes)),
        string(bytes).len() > 0,
        string(bytes)[0] != 0x65,
{
    lemma_decimal_read(bytes.len());
    let digits = decimal(bytes.len());
    assert(string(bytes)[0] == digits[0]);
    assert forall|rest: Seq<u8>| #[trigger] read(string(bytes) + rest) == Some(
        (Node::Bytes(bytes), string(bytes).len() as int),
    ) by {
        let b = string(bytes) + rest;
        let n = digits.len() as int;
        lemma_digits_ahead(digits, seq![0x3au8] + bytes + rest);
        assert(b =~= digits + (seq![0x3au8] + bytes + rest));
        assert(b[0] == digits[0]);
        assert(b.take(n) =~= digits);
        assert(b[n] == 0x3a);
        assert(b.subrange(n + 1, n + 1 + bytes.len()) =~= bytes);
    }
}

/// A value in front of the rest of a list.
proof fn lemma_list_step(b: Seq<u8>, v: Node, behind: Seq<u8>, others: Seq<Node>, n: int)
    requires
        reads(b, v),
        b.len() > 0,
        b[0] != 0x65,
        read_list(behind) == Some((others, n)),
    ensures
        read_list(b + behind) == Some((seq![v] + others, b.len() + n)),
{
    let all = b + behind;
    assert(read(all) == Some((v, b.len() as int)));
    assert(all.skip(b.len() as int) =~= behind);
    assert(all[0] == b[0]);
}

/// A key and its value in front of the rest of a dictionary.
proof fn lemma_dict_step(
    key: Seq<u8>,
    b: Seq<u8>,
    v: Node,
    behind: Seq<u8>,
    others: Seq<(Seq<u8>, Node)>,
    n: int,
)
    requires
        reads(b, v),
        b.len() > 0,
        read_dict(behind) == Some((others, n)),
    ensures
        read_dict(string(key) + b + behind) == Some(
            (seq![(key, v)] + others, string(key).len() + b.len() + n),
        ),
{
    lemma_string_reads(key);
    let all = string(key) + b + behind;
    let k = string(key).len() as int;
    assert(all =~= string(key) + (b + behind));
    assert(read(string(key) + (b + behind)) == Some((Node::Bytes(key), k)));
    assert(all.skip(k) =~= b + behind);
    assert(read(b + behind) == Some((v, b.len() as int)));
    assert(all.skip(k + b.len()) =~= behind);
    assert(all[0] == string(key)[0]);
}

/// The names of a path from the `i`th on.
spec fn path_from(path: Seq<String>, i: int) -> Seq<u8>
    decreases path.len() - i,
{
    if i >= path.len() {
        Seq::empty()
    } else {
        string(encode_utf8(path[i]@)) + path_from(path, i + 1)
    }
}

proof fn lemma_path_from(path: Seq<String>, i: int)
    requires
        0 <= i <= path.len(),
    ensures
        path_bytes(path, path.len() as int) == path_bytes(path, i) + path_from(path, i),
    decreases path.len() - i,
{
    if i == path.len() {
        assert(path_bytes(path, i) + path_from(path, i) =~= path_bytes(path, i));
    } else {
        lemma_path_from(path, i + 1);
        assert(path_bytes(path, i + 1) == path_bytes(path, i) + string(encode_utf8(path[i]@)));
        assert(path_bytes(path, i + 1) + path_from(path, i + 1) =~= path_bytes(path, i) + path_from(
            path,
            i,
        ));
    }
}

proof fn lemma_path_reads(path: Seq<String>, i: int, rest: Seq<u8>)
    requires
        0 <= i <= path.len(),
    ensures
        read_list(path_from(path, i) + seq![0x65u8] + rest) == Some(
            (
                Seq::new(
                    (path.len() - i) as nat,
                    |j: int| Node::Bytes(encode_utf8(path[i + j]@)),
                ),
                path_from(path, i).len() as int + 1,
            ),
        ),
    decreases path.len() - i,
{
    let all = path_from(path, i) + seq![0x65u8] + rest;
    let names = Seq::new(
        (path.len() - i) as nat,
        |j: int| Node::Bytes(encode_utf8(path[i + j]@)),
    );
    if i == path.len() {
        assert(all[0] == 0x65);
        assert(names =~= Seq::<Node>::empty());
    } else {
        lemma_path_reads(path, i + 1, rest);
        let behind = path_from(path, i + 1) + seq![0x65u8] + rest;
        let others = Seq::new(
            (path.len() - (i + 1)) as nat,
            |j: int| Node::Bytes(encode_utf8(path[i + 1 + j]@)),
        );
        let first = encode_utf8(path[i]@);
        lemma_string_reads(first);
        lemma_list_step(
            string(first),
            Node::Bytes(first),
            behind,
            others,
            path_from(path, i + 1).len() as int + 1,
        );
        assert(all =~= string(first) + behind);
        assert(names =~= seq![Node::Bytes(first)] + others);
    }
}

proof fn lemma_path_list_reads(path: Seq<String>)
    ensures
        reads(
            seq![0x6cu8] + path_bytes(path, path.len() as int) + seq![0x65u8],
            Node::List(Seq::new(path.len(), |i: int| Node::Bytes(encode_utf8(path[i]@)))),
        ),
{
    let b = seq![0x6cu8] + path_bytes(path, path.len() as int) + seq![0x65u8];
    let names = Seq::new(path.len(), |i: int| Node::Bytes(encode_utf8(path[i]@)));
    lemma_path_from(path, 0);
    assert(path_bytes(path, 0) + path_from(path, 0) =~= path_from(path, 0));
    assert forall|rest: Seq<u8>| #[trigger] read(b + rest) == Some(
        (Node::List(names), b.len() as int),
    ) by {
        lemma_path_reads(path, 0, rest);
        assert((b + rest).skip(1) =~= path_from(path, 0) + seq![0x65u8] + rest);
        assert(Seq::new(
            (path.len() - 0) as nat,
            |j: int| Node::Bytes(encode_utf8(path[0 + j]@)),
        ) =~= names);
    }
}

proof fn lemma_end_of_dict(rest: Seq<u8>)
    ensures
        read_dict(seq![0x65u8] + rest) == Some((Seq::<(Seq<u8>, Node)>::empty(), 1int)),
{
    assert((seq![0x65u8] + rest)[0] == 0x65);
}

proof fn lemma_file_reads(file: FileDetails)
    ensures
        reads(file.encoded(), file_node(file)),
        file.encoded().len() > 0,
        file.encoded()[0] != 0x65,
{
    let b = file.encoded();
    let length = integer(file.length as int);
    let path = seq![0x6cu8] + path_bytes(file.path@, file.path@.len() as int) + seq![0x65u8];
    let names = Node::List(
        Seq::new(file.path@.len(), |i: int| Node::Bytes(encode_utf8(file.path@[i]@))),
    );
    lemma_number_reads(file.length as nat);
    lemma_path_list_reads(file.path@);
    let (key, other_key) = (encode_utf8("length"@), encode_utf8("path"@));
    assert forall|rest: Seq<u8>| #[trigger] read(b + rest) == Some(
        (file_node(file), b.len() as int),
    ) by {
        let end = seq![0x65u8] + rest;
        let no_entry = Seq::<(Seq<u8>, Node)>::empty();
        lemma_end_of_dict(rest);
        lemma_dict_step(other_key, path, names, end, no_entry, 1);
        let second = string(other_key) + path + end;
        let n = string(other_key).len() + path.len() + 1;
        lemma_dict_step(
            key,
            length,
            Node::Number(file.length as int),
            second,
            seq![(other_key, names)] + no_entry,
            n as int,
        );
        assert((b + rest).skip(1) =~= string(key) + length + second);
        assert(seq![(key, Node::Number(file.length as int))] + (seq![(other_key, names)] + no_entry)
            =~= seq![(key, Node::Number(file.length as int)), (other_key, names)]);
    }
}

/// The dictionaries of the files from the `i`th on.
spec fn files_from(files: Seq<FileDetails>, i: int) -> Seq<u8>
    decreases files.len() - i,
{
    if i >= files.len() {
        Seq::empty()
    } else {
        files[i].encoded() + files_from(files, i + 1)
    }
}

proof fn lemma_files_from(files: Seq<FileDetails>, i: int)
    requires
        0 <= i <= files.len(),
    ensures
        file_bytes(files, files.len() as int) == file_bytes(files, i) + files_from(files, i),
    decreases files.len() - i,
{
    if i == files.len() {
        assert(file_bytes(files, i) + files_from(files, i) =~= file_bytes(files, i));
    } else {
        lemma_files_from(files, i + 1);
        assert(file_bytes(files, i + 1) == file_bytes(files, i) + files[i].encoded());
        assert(file_bytes(files, i + 1) + files_from(files, i + 1) =~= file_bytes(files, i)
            + files_from(files, i));
    }
}

proof fn lemma_files_read(files: Seq<FileDetails>, i: int, rest: Seq<u8>)
    requires
        0 <= i <= files.len(),
    ensures
        read_list(files_from(files, i) + seq![0x65u8] + rest) == Some(
            (
                Seq::new((files.len() - i) as nat, |j: int| file_node(files[i + j])),
                files_from(files, i).len() as int + 1,
            ),
        ),
    decreases files.len() - i,
{
    let all = files_from(files, i) + seq![0x65u8] + rest;
    let nodes = Seq::new((files.len() - i) as nat, |j: int| file_node(files[i + j]));
    if i == files.len() {
        assert(all[0] == 0x65);
        assert(nodes =~= Seq::<Node>::empty());
    } else {
        lemma_files_read(files, i + 1, rest);
        let behind = files_from(files, i + 1) + seq![0x65u8] + rest;
        let others = Seq::new(
            (files.len() - (i + 1)) as nat,
            |j: int| file_node(files[i + 1 + j]),
        );
        lemma_file_reads(files[i]);
        lemma_list_step(
            files[i].encoded(),
            file_node(files[i]),
            behind,
            others,
            files_from(files, i + 1).len() as int + 1,
        );
        assert(all =~= files[i].encoded() + behind);
        assert(nodes =~= seq![file_node(files[i])] + others);
    }
}

proof fn lemma_file_list_reads(files: Seq<FileDetails>)
    ensures
        reads(
            seq![0x6cu8] + file_bytes(files, files.len() as int) + seq![0x65u8],
            Node::List(Seq::new(files.len(), |i: int| file_node(files[i]))),
        ),
{
    let b = seq![0x6cu8] + file_bytes(files, files.len() as int) + seq![0x65u8];
    let nodes = Seq::new(files.len(), |i: int| file_node(files[i]));
    lemma_files_from(files, 0);
    assert(file_bytes(files, 0) + files_from(files, 0) =~= files_from(files, 0));
    assert forall|rest: Seq<u8>| #[trigger] read(b + rest) == Some(
        (Node::List(nodes), b.len() as int),
    ) by {
        lemma_files_read(files, 0, rest);
        assert((b + rest).skip(1) =~= files_from(files, 0) + seq![0x65u8] + rest);
        assert(Seq::new((files.len() - 0) as nat, |j: int| file_node(files[0 + j])) =~= nodes);
    }
}

/// The entry of the files in front of the rest of the info dictionary.
proof fn lemma_files_entry_reads(
    files: FileList,
    behind: Seq<u8>,
    others: Seq<(Seq<u8>, Node)>,
    n: int,
)
    requires
        read_dict(behind) == Some((others, n)),
    ensures
        read_dict(files.encoded() + behind) == Some(
            (seq![files_entry(files)] + others, files.encoded().len() + n),
        ),
{
    match files {
        FileList::SingleFile { length } => {
            let value = integer(length as int);
            lemma_number_reads(length as nat);
            lemma_dict_step(
                encode_utf8("length"@),
                value,
                Node::Number(length as int),
                behind,
                others,
                n,
            );
        },
        FileList::MultiFile { files } => {
            let value = seq![0x6cu8] + file_bytes(files@, files@.len() as int) + seq![0x65u8];
            lemma_file_list_reads(files@);
            lemma_dict_step(
                encode_utf8("files"@),
                value,
                Node::List(Seq::new(files@.len(), |i: int| file_node(files@[i]))),
                behind,
                others,
                n,
            );
        },
    }
}

proof fn lemma_info_reads(info: Info)
    ensures
        read(info.encoded()) == Some((info_node(info), info.encoded().len() as int)),
{
    let end = seq![0x65u8];
    let none = Seq::<(Seq<u8>, Node)>::empty();
    let (k1, k2, k3) = (
        encode_utf8("name"@),
        encode_utf8("piece length"@),
        encode_utf8("pieces"@),
    );
    let name = encode_utf8(info.name@);
    let (v1, v2, v3) = (string(name), integer(info.piece_length as int), string(info.pieces@));
    let (n1, n2, n3) = (
        Node::Bytes(name),
        Node::Number(info.piece_length as int),
        Node::Bytes(info.pieces@),
    );
    lemma_string_reads(name);
    lemma_number_reads(info.piece_length as nat);
    lemma_string_reads(info.pieces@);
    lemma_end_of_dict(Seq::empty());
    assert(end + Seq::<u8>::empty() =~= end);
    let b3 = string(k3) + v3 + end;
    let e3 = seq![(k3, n3)] + none;
    let l3 = string(k3).len() + v3.len() + 1;
    lemma_dict_step(k3, v3, n3, end, none, 1);
    let b2 = string(k2) + v2 + b3;
    let e2 = seq![(k2, n2)] + e3;
    let l2 = string(k2).len() + v2.len() + l3;
    lemma_dict_step(k2, v2, n2, b3, e3, l3 as int);
    let b1 = string(k1) + v1 + b2;
    let e1 = seq![(k1, n1)] + e2;
    let l1 = string(k1).len() + v1.len() + l2;
    lemma_dict_step(k1, v1, n1, b2, e2, l2 as int);
    lemma_files_entry_reads(info.files, b1, e1, l1 as int);
    let b = info.encoded();
    assert(b.skip(1) =~= info.files.encoded() + b1);
    assert(b[0] == 0x64);
    assert(seq![files_entry(info.files)] + e1 =~= seq![
        files_entry(info.files),
        (k1, n1),
        (k2, n2),
        (k3, n3),
    ]);
}

/// The bencoding of the info dictionary is read back: the keys `length` or
/// `files`, `name`, `piece length` and `pieces`, in that order and no others, each
/// with the whole value that the torrent has for it.
pub proof fn law_info_is_read_back(torrent: Torrent, bytes: Vec<u8>)
    requires
        call_ensures(Torrent::info, (&torrent,), bytes),
    ensures
        read(bytes@) == Some((info_node(torrent.info), bytes@.len() as int)),
{
    lemma_info_reads(torrent.info);
}

/// Whether two files have the same length and the same path.
pub open spec fn same_file(a: FileDetails, b: FileDetails) -> bool {
    &&& a.length == b.length
    &&& a.path@.len() == b.path@.len()
    &&& forall|i: int| 0 <= i < a.path@.len() ==> (#[trigger] a.path@[i])@ == b.path@[i]@
}

/// Torrents whose info dictionaries have the same bencoding have the same name,
/// the same piece length, the same digests and the same files.
pub proof fn law_bencoding_tells_infos_apart(a: Torrent, b: Torrent, bytes: Vec<u8>)
    requires
        call_ensures(Torrent::info, (&a,), bytes),
        call_ensures(Torrent::info, (&b,), bytes),
    ensures
        a.info.name@ == b.info.name@,
        a.info.piece_length == b.info.piece_length,
        a.info.pieces@ == b.info.pieces@,
        match (a.info.files, b.info.files) {
            (
                FileList::SingleFile { length },
                FileList::SingleFile { length: other },
            ) => length == other,
            (FileList::MultiFile { files }, FileList::MultiFile { files: others }) => {
                &&& files@.len() == others@.len()
                &&& forall|i: int|
                    0 <= i < files@.len() ==> same_file(#[trigger] files@[i], others@[i])
            },
            _ => false,
        },
{
    law_info_is_read_back(a, bytes);
    law_info_is_read_back(b, bytes);
    let (x, y) = (info_node(a.info)->Dict_0, info_node(b.info)->Dict_0);
    assert(x == y);
    assert(x[0] == y[0] && x[1] == y[1] && x[2] == y[2] && x[3] == y[3]);
    assert(encode_utf8(a.info.name@) == encode_utf8(b.info.name@));
    encode_utf8_decode_utf8(a.info.name@);
    encode_utf8_decode_utf8(b.info.name@);
    match (a.info.files, b.info.files) {
        (FileList::MultiFile { files }, FileList::MultiFile { files: others }) => {
            let (u, v) = (x[0].1->List_0, y[0].1->List_0);
            assert(u == v);
            assert(u.len() == files@.len() && v.len() == others@.len());
            assert forall|i: int| 0 <= i < files@.len() implies same_file(
                #[trigger] files@[i],
                others@[i],
            ) by {
                let (f, g) = (files@[i], others@[i]);
                assert(u[i] == file_node(f));
                assert(v[i] == file_node(g));
                let (p, q) = (file_node(f)->Dict_0, file_node(g)->Dict_0);
                assert(p[0] == q[0] && p[1] == q[1]);
                let (s, t) = (p[1].1->List_0, q[1].1->List_0);
                assert(s == t);
                assert(s.len() == f.path@.len() && t.len() == g.path@.len());
                assert forall|j: int| 0 <= j < f.path@.len() implies (#[trigger] f.path@[j])@
                    == g.path@[j]@ by {
                    assert(s[j] == Node::Bytes(encode_utf8(f.path@[j]@)));
                    assert(t[j] == Node::Bytes(encode_utf8(g.path@[j]@)));
                    encode_utf8_decode_utf8(f.path@[j]@);
                    encode_utf8_decode_utf8(g.path@[j]@);
                }
            }
        },
        _ => {},
    }
}

/// A torrent is named by the SHA-1 digest of the bencoding of its info
/// dictionary, in raw bytes and in hexadecimal.
pub proof fn law_torrent_is_named_by_its_info(
    torrent: Torrent,
    bytes: Vec<u8>,
    hash: [u8; 20],
    text: String,
)
    requires
        call_ensures(Torrent::info, (&torrent,), bytes),
        call_ensures(Torrent::info_sha1, (&torrent,), hash),
        call_ensures(Torrent::info_sha1_hex, (&torrent,), text),
    ensures
        hash@ == sha1_digest(bytes@),
        is_hex_of(text@, hash@),
{
    law_hex_is_read_back(hash@);
}

/// The digests that a torrent lists are its bytes, twenty by twenty; what is left
/// over is no digest.
pub proof fn law_digests_are_listed(torrent: Torrent, hashes: Vec<String>)
    requires
        call_ensures(Info::piece_hashes, (&torrent.info,), hashes),
    ensures
        20 * hashes@.len() <= torrent.info.pieces@.len() < 20 * hashes@.len() + 20,
        forall|i: int|
            0 <= i < hashes@.len() ==> is_hex_of(
                (#[trigger] hashes@[i])@,
                torrent.info.pieces@.subrange(20 * i, 20 * i + 20),
            ),
{
    assert forall|i: int| 0 <= i < hashes@.len() implies is_hex_of(
        (#[trigger] hashes@[i])@,
        torrent.info.pieces@.subrange(20 * i, 20 * i + 20),
    ) by {
        law_hex_is_read_back(torrent.info.pieces@.subrange(20 * i, 20 * i + 20));
    }
}

/// Whether `lines` describe a torrent of one file of `length` bytes: its tracker,
/// its length, the hash that names it, the length of its pieces, and all their
/// digests in order.
pub open spec fn describes(
    lines: Seq<String>,
    torrent: Torrent,
    length: int,
    info_hash: Seq<u8>,
) -> bool {
    &&& 20 * (lines.len() - 5) <= torrent.info.pieces@.len() < 20 * (lines.len() - 5) + 20
    &&& lines[0]@ == "Track URL: "@ + torrent.announce@
    &&& exists|n: Seq<char>| #[trigger] is_notation(n, length) && lines[1]@ == "Length: "@ + n
    &&& exists|h: Seq<char>| #[trigger] is_hex_of(h, info_hash) && lines[2]@ == "Info Hash: "@ + h
    &&& exists|n: Seq<char>|
        #[trigger] is_notation(n, torrent.info.piece_length as int) && lines[3]@
            == "Piece Length: "@ + n
    &&& lines[4]@ == "Piece Hashes:"@
    &&& forall|k: int|
        5 <= k < lines.len() ==> is_hex_of(
            (#[trigger] lines[k])@,
            torrent.info.pieces@.subrange(20 * (k - 5), 20 * (k - 5) + 20),
        )
}

proof fn lemma_describes(lines: Seq<String>, torrent: Torrent, length: usize, info_hash: Seq<u8>)
    requires
        lines.len() == 5 + torrent.info.piece_count(),
        lines[0]@ == "Track URL: "@ + torrent.announce@,
        lines[1]@ == "Length: "@ + ascii_text(decimal(length as nat)),
        lines[2]@ == "Info Hash: "@ + hex_text(info_hash),
        lines[3]@ == "Piece Length: "@ + ascii_text(decimal(torrent.info.piece_length as nat)),
        lines[4]@ == "Piece Hashes:"@,
        forall|k: int|
            5 <= k < lines.len() ==> (#[trigger] lines[k])@ == hex_text(
                torrent.info.piece_digest(k - 5),
            ),
    ensures
        describes(lines, torrent, length as int, info_hash),
{
    law_notation_is_read_back(length as nat);
    law_notation_is_read_back(torrent.info.piece_length as nat);
    law_hex_is_read_back(info_hash);
    assert forall|k: int| 5 <= k < lines.len() implies is_hex_of(
        (#[trigger] lines[k])@,
        torrent.info.pieces@.subrange(20 * (k - 5), 20 * (k - 5) + 20),
    ) by {
        law_hex_is_read_back(torrent.info.pieces@.subrange(20 * (k - 5), 20 * (k - 5) + 20));
    }
}

/// A torrent of one file is described under the digest of the bencoding of its
/// info dictionary, or under the hash that is given.
pub proof fn law_description_is_complete(
    torrent: Torrent,
    length: usize,
    bytes: Vec<u8>,
    lines: Vec<String>,
    info_hash: [u8; 20],
    others: Vec<String>,
)
    requires
        torrent.info.files == (FileList::SingleFile { length }),
        call_ensures(Torrent::info, (&torrent,), bytes),
        call_ensures(Torrent::describe, (&torrent,), lines),
        call_ensures(Torrent::describe_with_hash, (&torrent, &info_hash), others),
    ensures
        describes(lines@, torrent, length as int, sha1_digest(bytes@)),
        describes(others@, torrent, length as int, info_hash@),
{
    lemma_describes(lines@, torrent, length, sha1_digest(bytes@));
    lemma_describes(others@, torrent, length, info_hash@);
}

/// The length of a single file is told in decimal notation.
pub proof fn law_length_is_told(files: FileList, length: usize, text: String)
    requires
        files == (FileList::SingleFile { length }),
        call_ensures(FileList::to_text, (&files,), text),
    ensures
        is_notation(text@, length as int),
{
    law_notation_is_read_back(length as nat);
}

} // verus!
