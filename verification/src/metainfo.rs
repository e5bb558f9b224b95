//! `.torrent` metainfo parsing (BEP-3 + multi-tracker BEP-12).

use vstd::arithmetic::div_mod::{lemma_fundamental_div_mod, lemma_fundamental_div_mod_converse};
use vstd::prelude::*;
use vstd::slice::slice_subrange;
use vstd::string::StringSliceAdditionalSpecFns;
use vstd::utf8::{
    encode_utf8, encode_utf8_decode_utf8, encode_utf8_valid_utf8, is_ascii_chars_encode_utf8,
};

use crate::bencode::{
    decode_torrent, encode, encode_bytes, entry_at, finite, lemma_bytes_at, lemma_info_range,
    lemma_progress, lemma_torrent_round_trip, lemma_trees_of, lemma_value_local, lengths_fit,
    top_entries_at, torrent_of, trees_of, value_at, Tree, Value, LOWER_E,
};
use crate::digest::{sha1, sha1_digest};
use crate::error::{BencodeError, Error, Result, TorrentError};
use crate::magnet::MagnetLink;
use crate::octets::{append_bytes, array20, low32};
use crate::text::{chars_of, decimal, hex_text, opt_text, same_str, texts};
use crate::types::InfoHash;

verus! {

/// A single file within the torrent.
#[derive(Debug, Clone)]
pub struct FileInfo {
    /// Components of the path relative to the download directory (already sanitised).
    pub path: Vec<String>,
    /// Length in bytes.
    pub length: u64,
    /// Byte offset within the concatenated virtual data stream.
    pub offset: u64,
}

/// Parsed torrent metadata.
#[derive(Debug, Clone)]
pub struct Metainfo {
    pub info_hash: InfoHash,
    /// Torrent display name (sanitised for use as a file/directory name).
    pub name: String,
    /// Number of bytes per piece (all pieces except possibly the last).
    pub piece_length: u64,
    /// SHA-1 hash for each piece (20 bytes each).
    pub piece_hashes: Vec<[u8; 20]>,
    pub files: Vec<FileInfo>,
    pub total_length: u64,
    /// Tracker URL tiers (BEP-12). Outer = tier, inner = URLs within tier.
    pub trackers: Vec<Vec<String>>,
    pub comment: Option<String>,
    pub created_by: Option<String>,
    pub is_private: bool,
}

/// The content of a [`FileInfo`].
#[verifier::ext_equal]
pub struct FileEntry {
    pub path: Seq<Seq<char>>,
    pub length: u64,
    pub offset: u64,
}

/// The content of a [`Metainfo`].
#[verifier::ext_equal]
pub struct Torrent {
    pub info_hash: Seq<u8>,
    pub name: Seq<char>,
    pub piece_length: u64,
    pub piece_hashes: Seq<Seq<u8>>,
    pub files: Seq<FileEntry>,
    pub total_length: u64,
    pub trackers: Seq<Seq<Seq<char>>>,
    pub comment: Option<Seq<char>>,
    pub created_by: Option<Seq<char>>,
    pub is_private: bool,
}

impl View for FileInfo {
    type V = FileEntry;

    open spec fn view(&self) -> FileEntry {
        FileEntry { path: texts(self.path@), length: self.length, offset: self.offset }
    }
}

/// The contents of a sequence of files.
pub open spec fn file_entries(s: Seq<FileInfo>) -> Seq<FileEntry> {
    s.map_values(|f: FileInfo| f@)
}

/// The contents of tracker tiers.
pub open spec fn tier_texts(s: Seq<Vec<String>>) -> Seq<Seq<Seq<char>>> {
    s.map_values(|t: Vec<String>| texts(t@))
}

/// The contents of a sequence of hashes.
pub open spec fn hash_bytes(s: Seq<[u8; 20]>) -> Seq<Seq<u8>> {
    s.map_values(|h: [u8; 20]| h@)
}

impl View for Metainfo {
    type V = Torrent;

    open spec fn view(&self) -> Torrent {
        Torrent {
            info_hash: self.info_hash.0@,
            name: self.name@,
            piece_length: self.piece_length,
            piece_hashes: hash_bytes(self.piece_hashes@),
            files: file_entries(self.files@),
            total_length: self.total_length,
            trackers: tier_texts(self.trackers@),
            comment: opt_text(self.comment),
            created_by: opt_text(self.created_by),
            is_private: self.is_private,
        }
    }
}

// Path components

/// The characters that may not stand in a file name.
pub open spec fn is_forbidden(c: char) -> bool {
    c == '/' || c == '\\' || c == '\0' || c == ':' || c == '*' || c == '?' || c == '"' || c == '<'
        || c == '>' || c == '|'
}

/// A path component with the dangerous characters replaced; the names of the
/// current and the parent directory are replaced whole.
pub open spec fn sanitized(s: Seq<char>) -> Seq<char> {
    if s == seq!['.'] || s == seq!['.', '.'] {
        seq!['_']
    } else {
        s.map_values(
            |c: char|
                if is_forbidden(c) {
                    '_'
                } else {
                    c
                },
        )
    }
}

/// Whether a path component stays inside the directory that it is joined to.
pub open spec fn is_safe(s: Seq<char>) -> bool {
    &&& s != seq!['.']
    &&& s != seq!['.', '.']
    &&& forall|i: int| 0 <= i < s.len() ==> !is_forbidden(#[trigger] s[i])
}

/// A sanitised component cannot leave its directory, and a safe one is kept as it is.
#[verifier::spinoff_prover]
pub proof fn lemma_sanitized_is_safe(s: Seq<char>)
    ensures
        is_safe(sanitized(s)),
        is_safe(s) ==> sanitized(s) == s,
{
    let t = sanitized(s);
    if s == seq!['.'] || s == seq!['.', '.'] {
        assert(t[0] == '_');
        assert(seq!['.'][0] == '.' && seq!['.', '.'][0] == '.');
        assert(t != seq!['.'] && t != seq!['.', '.']);
        assert forall|i: int| 0 <= i < t.len() implies !is_forbidden(#[trigger] t[i]) by {
            assert(i == 0);
        }
    } else {
        assert(t.len() == s.len());
        assert forall|i: int| 0 <= i < t.len() implies !is_forbidden(#[trigger] t[i]) && (t[i]
            == '.' ==> s[i] == '.') && (!is_forbidden(s[i]) ==> t[i] == s[i]) by {
            assert(t[i] == if is_forbidden(s[i]) {
                '_'
            } else {
                s[i]
            });
        }
        if t == seq!['.'] {
            assert(t.len() == 1 && t[0] == '.');
            assert(s =~= seq!['.']);
        }
        if t == seq!['.', '.'] {
            assert(t.len() == 2 && t[0] == '.' && t[1] == '.');
            assert(s =~= seq!['.', '.']);
        }
        if is_safe(s) {
            assert(t =~= s);
        }
    }
}

/// Prevent path traversal by stripping/replacing dangerous characters.
pub fn sanitize_path_component(s: &str) -> (r: String)
    ensures
        r@ == sanitized(s@),
{
    let chars = chars_of(s);
    if (chars.len() == 1 && chars[0] == '.') || (chars.len() == 2 && chars[0] == '.' && chars[1]
        == '.') {
        assert(s@ =~= seq!['.'] || s@ =~= seq!['.', '.']);
        let mut out = String::new();
        out.push('_');
        assert(out@ =~= seq!['_']);
        return out;
    }
    assert(s@ != seq!['.'] && s@ != seq!['.', '.']);
    let ghost f = |c: char|
        if is_forbidden(c) {
            '_'
        } else {
            c
        };
    let mut out = String::new();
    let mut i: usize = 0;
    while i < chars.len()
        invariant
            i <= chars.len(),
            f == (|c: char|
                if is_forbidden(c) {
                    '_'
                } else {
                    c
                }),
            out@ == chars@.take(i as int).map_values(f),
        decreases chars.len() - i,
    {
        let c = chars[i];
        if c == '/' || c == '\\' || c == '\0' || c == ':' || c == '*' || c == '?' || c == '"' || c
            == '<' || c == '>' || c == '|' {
            out.push('_');
        } else {
            out.push(c);
        }
        i = i + 1;
        assert(out@ =~= chars@.take(i as int).map_values(f));
    }
    assert(chars@.take(i as int) =~= s@);
    out
}

// The info dictionary

/// The hash of each piece: `pieces` cut into 20-byte parts.
pub open spec fn split_hashes(pieces: Seq<u8>) -> Seq<Seq<u8>> {
    Seq::new(pieces.len() / 20, |i: int| pieces.subrange(20 * i, 20 * i + 20))
}

/// The path of a file in a torrent with the given name, or `None` if a
/// component is not a string.
pub open spec fn path_of(name: Seq<char>, components: Seq<Tree>) -> Option<Seq<Seq<char>>> {
    if forall|i: int| 0 <= i < components.len() ==> (#[trigger] components[i]).as_str() is Some {
        Some(
            seq![name] + components.map_values(|t: Tree| sanitized(t.as_str().unwrap())),
        )
    } else {
        None
    }
}

/// The length and the path that an entry of the file list gives.
pub open spec fn entry_of(name: Seq<char>, entry: Tree) -> std::result::Result<
    (u64, Seq<Seq<char>>),
    TorrentError,
> {
    match entry.get_int("length".spec_bytes()) {
        None => Err(TorrentError::FileMissingLength),
        Some(length) => match entry.get_list("path".spec_bytes()) {
            None => Err(TorrentError::FileMissingPath),
            Some(components) => match path_of(name, components) {
                None => Err(TorrentError::PathNotString),
                Some(path) => Ok((length as u64, path)),
            },
        },
    }
}

/// The files of a file list, one after the other in the stream, and their total length.
pub open spec fn files_of(name: Seq<char>, list: Seq<Tree>) -> std::result::Result<
    (Seq<FileEntry>, u64),
    TorrentError,
>
    decreases list.len(),
{
    if list.len() == 0 {
        Ok((seq![], 0))
    } else {
        match files_of(name, list.drop_last()) {
            Err(e) => Err(e),
            Ok((files, offset)) => match entry_of(name, list.last()) {
                Err(e) => Err(e),
                Ok((length, path)) => if offset + length > u64::MAX {
                    Err(TorrentError::SizeOverflow)
                } else {
                    Ok((files.push(FileEntry { path, length, offset }), (offset + length) as u64))
                },
            },
        }
    }
}

/// The files of a torrent and their total length: a single file, or a file list.
pub open spec fn contents_of(name: Seq<char>, info: Tree) -> std::result::Result<
    (Seq<FileEntry>, u64),
    TorrentError,
> {
    match info.get("length".spec_bytes()) {
        Some(t) => match t.as_int() {
            None => Err(TorrentError::LengthNotInteger),
            Some(length) => Ok(
                (seq![FileEntry { path: seq![name], length: length as u64, offset: 0 }], length as u64),
            ),
        },
        None => match info.get_list("files".spec_bytes()) {
            None => Err(TorrentError::MissingFiles),
            Some(list) => files_of(name, list),
        },
    }
}

/// The URLs among the values of a tier.
pub open spec fn tier_urls(tier: Seq<Tree>) -> Seq<Seq<char>>
    decreases tier.len(),
{
    if tier.len() == 0 {
        seq![]
    } else {
        match tier.last().as_str() {
            Some(url) => tier_urls(tier.drop_last()).push(url),
            None => tier_urls(tier.drop_last()),
        }
    }
}

/// The tiers of an announce list that hold a URL.
pub open spec fn tiers_of(list: Seq<Tree>) -> Seq<Seq<Seq<char>>>
    decreases list.len(),
{
    if list.len() == 0 {
        seq![]
    } else {
        match list.last().as_list() {
            Some(tier) => if tier_urls(tier).len() > 0 {
                tiers_of(list.drop_last()).push(tier_urls(tier))
            } else {
                tiers_of(list.drop_last())
            },
            None => tiers_of(list.drop_last()),
        }
    }
}

/// The tiers of `announce-list`, with the URL of `announce` in front of the
/// first tier unless that tier has it already.
pub open spec fn trackers_of(root: Tree) -> Seq<Seq<Seq<char>>> {
    let tiers = match root.get_list("announce-list".spec_bytes()) {
        Some(list) => tiers_of(list),
        None => seq![],
    };
    match root.get_str("announce".spec_bytes()) {
        None => tiers,
        Some(url) => if tiers.len() == 0 {
            seq![seq![url]]
        } else if tiers[0].contains(url) {
            tiers
        } else {
            tiers.update(0, seq![url] + tiers[0])
        },
    }
}

/// The display name of a torrent.
pub open spec fn name_of(info: Tree) -> Seq<char> {
    match info.get_str("name".spec_bytes()) {
        Some(name) => sanitized(name),
        None => sanitized("download"@),
    }
}

/// The torrent with the given root and info dictionary and info hash.
pub open spec fn torrent_from(root: Tree, info: Tree, info_hash: Seq<u8>) -> std::result::Result<
    Torrent,
    TorrentError,
> {
    match info.get_int("piece length".spec_bytes()) {
        None => Err(TorrentError::MissingPieceLength),
        Some(piece_length) => match info.get_bytes("pieces".spec_bytes()) {
            None => Err(TorrentError::MissingPieces),
            Some(pieces) => if pieces.len() % 20 != 0 {
                Err(TorrentError::PiecesLength { len: pieces.len() as usize })
            } else {
                match contents_of(name_of(info), info) {
                    Err(e) => Err(e),
                    Ok((files, total_length)) => Ok(
                        Torrent {
                            info_hash,
                            name: name_of(info),
                            piece_length: piece_length as u64,
                            piece_hashes: split_hashes(pieces),
                            files,
                            total_length,
                            trackers: trackers_of(root),
                            comment: root.get_str("comment".spec_bytes()),
                            created_by: root.get_str("created by".spec_bytes()),
                            is_private: match info.get_int("private".spec_bytes()) {
                                Some(n) => n != 0,
                                None => false,
                            },
                        },
                    ),
                }
            },
        },
    }
}

/// What a torrent file holds.
pub open spec fn metainfo_of(data: Seq<u8>) -> std::result::Result<Torrent, Error<Seq<char>>> {
    match torrent_of(data) {
        Err(e) => Err(Error::Bencode(e)),
        Ok((root, range)) => match (range, root.get("info".spec_bytes())) {
            (Some((start, end)), Some(info)) => match torrent_from(
                root,
                info,
                sha1(data.subrange(start as int, end as int)),
            ) {
                Err(e) => Err(Error::InvalidTorrent(e)),
                Ok(t) => Ok(t),
            },
            _ => Err(Error::InvalidTorrent(TorrentError::MissingInfo)),
        },
    }
}

/// A file list is rejected for the first entry that is rejected.
proof fn lemma_files_error(name: Seq<char>, list: Seq<Tree>, i: int, e: TorrentError)
    requires
        0 <= i <= list.len(),
        files_of(name, list.take(i)) == Err::<(Seq<FileEntry>, u64), TorrentError>(e),
    ensures
        files_of(name, list) == Err::<(Seq<FileEntry>, u64), TorrentError>(e),
    decreases list.len() - i,
{
    if i < list.len() {
        assert(list.take(i + 1).drop_last() =~= list.take(i));
        lemma_files_error(name, list, i + 1, e);
    } else {
        assert(list.take(i) =~= list);
    }
}

fn string_of_str(s: &str) -> (r: String)
    ensures
        r@ == s@,
{
    s.to_owned()
}

fn copy_string(s: &String) -> (r: String)
    ensures
        r@ == s@,
{
    string_of_str(s.as_str())
}

/// The text under a key of a dictionary.
fn owned_text(v: &Value, key: &[u8]) -> (r: Option<String>)
    ensures
        opt_text(r) == v@.get_str(key@),
{
    match v.get_str(key) {
        Some(s) => Some(string_of_str(s)),
        None => None,
    }
}

/// The path of a file of the torrent `name`.
fn parse_path(name: &String, components: &[Value]) -> (r: Option<Vec<String>>)
    ensures
        match path_of(name@, trees_of(components@)) {
            Some(path) => r matches Some(v) && texts(v@) == path,
            None => r is None,
        },
{
    let ghost trees = trees_of(components@);
    let ghost f = |t: Tree| sanitized(t.as_str().unwrap());
    proof {
        lemma_trees_of(components@);
    }
    let mut path: Vec<String> = Vec::new();
    path.push(copy_string(name));
    let mut i: usize = 0;
    assert(texts(path@) =~= seq![name@] + trees.take(0).map_values(f));
    while i < components.len()
        invariant
            i <= components.len(),
            trees == trees_of(components@),
            trees.len() == components@.len(),
            forall|j: int| 0 <= j < trees.len() ==> #[trigger] trees[j] == components@[j]@,
            f == (|t: Tree| sanitized(t.as_str().unwrap())),
            forall|j: int| 0 <= j < i ==> (#[trigger] trees[j]).as_str() is Some,
            texts(path@) == seq![name@] + trees.take(i as int).map_values(f),
        decreases components.len() - i,
    {
        assert(trees[i as int] == components@[i as int]@);
        match components[i].as_str() {
            None => {
                assert(trees[i as int].as_str() is None);
                return None;
            },
            Some(c) => {
                let ghost before = path@;
                path.push(sanitize_path_component(c));
                i = i + 1;
                assert(texts(path@) =~= texts(before).push(sanitized(c@)));
                assert(trees.take(i as int).map_values(f) =~= trees.take(i - 1).map_values(f).push(
                    f(trees[i - 1]),
                ));
                assert(texts(path@) =~= seq![name@] + trees.take(i as int).map_values(f));
            },
        }
    }
    assert(trees.take(i as int) =~= trees);
    Some(path)
}

/// The files of a multi-file torrent and their total length.
fn parse_files(name: &String, list: &[Value]) -> (r: std::result::Result<
    (Vec<FileInfo>, u64),
    TorrentError,
>)
    ensures
        match files_of(name@, trees_of(list@)) {
            Ok((files, total)) => r matches Ok((v, n)) && file_entries(v@) == files && n == total,
            Err(e) => r matches Err(x) && x == e,
        },
{
    let ghost trees = trees_of(list@);
    proof {
        lemma_trees_of(list@);
        assert(trees.take(0) =~= seq![]);
    }
    let mut files: Vec<FileInfo> = Vec::new();
    let mut offset: u64 = 0;
    let mut i: usize = 0;
    assert(file_entries(files@) =~= seq![]);
    while i < list.len()
        invariant
            i <= list.len(),
            trees == trees_of(list@),
            trees.len() == list@.len(),
            forall|j: int| 0 <= j < trees.len() ==> #[trigger] trees[j] == list@[j]@,
            files_of(name@, trees.take(i as int)) == Ok::<(Seq<FileEntry>, u64), TorrentError>(
                (file_entries(files@), offset),
            ),
        decreases list.len() - i,
    {
        let entry = &list[i];
        proof {
            assert(trees[i as int] == entry@);
            assert(trees.take(i + 1).drop_last() =~= trees.take(i as int));
            assert(trees.take(i + 1).last() == entry@);
            if let Err(e) = files_of(name@, trees.take(i + 1)) {
                lemma_files_error(name@, trees, i + 1, e);
            }
        }
        let length: u64 = match entry.get_int("length".as_bytes()) {
            Some(n) => n as u64,
            None => {
                return Err(TorrentError::FileMissingLength);
            },
        };
        let components = match entry.get_list("path".as_bytes()) {
            Some(l) => l,
            None => {
                return Err(TorrentError::FileMissingPath);
            },
        };
        let path = match parse_path(name, components) {
            Some(path) => path,
            None => {
                return Err(TorrentError::PathNotString);
            },
        };
        let end = match offset.checked_add(length) {
            Some(end) => end,
            None => {
                return Err(TorrentError::SizeOverflow);
            },
        };
        let ghost before = files@;
        files.push(FileInfo { path, length, offset });
        assert(file_entries(files@) =~= file_entries(before).push(files@.last()@));
        offset = end;
        i = i + 1;
    }
    assert(trees.take(i as int) =~= trees);
    Ok((files, offset))
}

/// The files of a torrent and their total length.
fn parse_contents(name: &String, info: &Value) -> (r: std::result::Result<
    (Vec<FileInfo>, u64),
    TorrentError,
>)
    ensures
        match contents_of(name@, info@) {
            Ok((files, total)) => r matches Ok((v, n)) && file_entries(v@) == files && n == total,
            Err(e) => r matches Err(x) && x == e,
        },
{
    match info.get("length".as_bytes()) {
        Some(len) => match len.as_int() {
            None => Err(TorrentError::LengthNotInteger),
            Some(n) => {
                let length: u64 = n as u64;
                let mut path: Vec<String> = Vec::new();
                path.push(copy_string(name));
                assert(texts(path@) =~= seq![name@]);
                let mut files: Vec<FileInfo> = Vec::new();
                files.push(FileInfo { path, length, offset: 0 });
                assert(file_entries(files@) =~= seq![
                    FileEntry { path: seq![name@], length, offset: 0 },
                ]);
                Ok((files, length))
            },
        },
        None => match info.get_list("files".as_bytes()) {
            None => Err(TorrentError::MissingFiles),
            Some(list) => parse_files(name, list),
        },
    }
}

/// The URLs of one tier of an announce list.
fn parse_tier(tier: &[Value]) -> (urls: Vec<String>)
    ensures
        texts(urls@) == tier_urls(trees_of(tier@)),
{
    let ghost trees = trees_of(tier@);
    proof {
        lemma_trees_of(tier@);
        assert(trees.take(0) =~= seq![]);
    }
    let mut urls: Vec<String> = Vec::new();
    let mut i: usize = 0;
    assert(texts(urls@) =~= seq![]);
    while i < tier.len()
        invariant
            i <= tier.len(),
            trees == trees_of(tier@),
            trees.len() == tier@.len(),
            forall|j: int| 0 <= j < trees.len() ==> #[trigger] trees[j] == tier@[j]@,
            texts(urls@) == tier_urls(trees.take(i as int)),
        decreases tier.len() - i,
    {
        proof {
            assert(trees.take(i + 1).drop_last() =~= trees.take(i as int));
            assert(trees.take(i + 1).last() == tier@[i as int]@);
        }
        if let Some(url) = tier[i].as_str() {
            let ghost before = urls@;
            urls.push(string_of_str(url));
            assert(texts(urls@) =~= texts(before).push(url@));
        }
        i = i + 1;
    }
    assert(trees.take(i as int) =~= trees);
    urls
}

/// The tiers of an announce list.
fn parse_tiers(list: &[Value]) -> (tiers: Vec<Vec<String>>)
    ensures
        tier_texts(tiers@) == tiers_of(trees_of(list@)),
{
    let ghost trees = trees_of(list@);
    proof {
        lemma_trees_of(list@);
        assert(trees.take(0) =~= seq![]);
    }
    let mut tiers: Vec<Vec<String>> = Vec::new();
    let mut i: usize = 0;
    assert(tier_texts(tiers@) =~= seq![]);
    while i < list.len()
        invariant
            i <= list.len(),
            trees == trees_of(list@),
            trees.len() == list@.len(),
            forall|j: int| 0 <= j < trees.len() ==> #[trigger] trees[j] == list@[j]@,
            tier_texts(tiers@) == tiers_of(trees.take(i as int)),
        decreases list.len() - i,
    {
        proof {
            assert(trees.take(i + 1).drop_last() =~= trees.take(i as int));
            assert(trees.take(i + 1).last() == list@[i as int]@);
        }
        if let Some(tier) = list[i].as_list() {
            let urls = parse_tier(tier);
            assert(texts(urls@).len() == urls@.len());
            if urls.len() > 0 {
                let ghost before = tiers@;
                let ghost new = texts(urls@);
                tiers.push(urls);
                assert(tier_texts(tiers@) =~= tier_texts(before).push(new));
            }
        }
        i = i + 1;
    }
    assert(trees.take(i as int) =~= trees);
    tiers
}

/// Whether a text is among some strings.
fn contains_text(list: &Vec<String>, text: &str) -> (r: bool)
    ensures
        r == texts(list@).contains(text@),
{
    let mut i: usize = 0;
    while i < list.len()
        invariant
            i <= list.len(),
            forall|j: int| 0 <= j < i ==> #[trigger] texts(list@)[j] != text@,
        decreases list.len() - i,
    {
        assert(texts(list@)[i as int] == list@[i as int]@);
        if same_str(list[i].as_str(), text) {
            return true;
        }
        i = i + 1;
    }
    false
}

/// The tracker tiers of a torrent.
fn parse_trackers(root: &Value) -> (tiers: Vec<Vec<String>>)
    ensures
        tier_texts(tiers@) == trackers_of(root@),
{
    let mut tiers: Vec<Vec<String>> = match root.get_list("announce-list".as_bytes()) {
        Some(list) => parse_tiers(list),
        None => Vec::new(),
    };
    let ghost listed = tier_texts(tiers@);
    assert(listed =~= match root@.get_list("announce-list".spec_bytes()) {
        Some(list) => tiers_of(list),
        None => seq![],
    });
    if let Some(url) = root.get_str("announce".as_bytes()) {
        if tiers.len() == 0 {
            let mut tier: Vec<String> = Vec::new();
            tier.push(string_of_str(url));
            assert(texts(tier@) =~= seq![url@]);
            tiers.push(tier);
            assert(tier_texts(tiers@) =~= seq![seq![url@]]);
        } else {
            assert(listed[0] == texts(tiers@[0]@));
            if !contains_text(&tiers[0], url) {
                let mut first: Vec<String> = Vec::new();
                let ghost before = tiers@;
                std::mem::swap(&mut first, &mut tiers[0]);
                let ghost old_first = first@;
                first.insert(0, string_of_str(url));
                assert(texts(first@) =~= seq![url@] + texts(old_first));
                let ghost new_first = texts(first@);
                std::mem::swap(&mut first, &mut tiers[0]);
                assert(tier_texts(tiers@) =~= listed.update(0, new_first));
            }
        }
    }
    tiers
}

/// The piece hashes in the value of `pieces`.
fn parse_hashes(pieces: &[u8]) -> (hashes: Vec<[u8; 20]>)
    ensures
        hash_bytes(hashes@) == split_hashes(pieces@),
{
    let n: usize = pieces.len() / 20;
    let mut hashes: Vec<[u8; 20]> = Vec::new();
    let mut i: usize = 0;
    while i < n
        invariant
            i <= n == pieces.len() / 20,
            hashes@.len() == i,
            forall|j: int|
                0 <= j < i ==> (#[trigger] hashes@[j])@ == pieces@.subrange(20 * j, 20 * j + 20),
        decreases n - i,
    {
        hashes.push(array20(pieces, 20 * i));
        i = i + 1;
    }
    assert(hash_bytes(hashes@) =~= split_hashes(pieces@));
    hashes
}

impl Metainfo {
    /// Parse raw `.torrent` bytes.
    pub fn from_bytes(data: &[u8]) -> (r: Result<Self>)
        ensures
            match metainfo_of(data@) {
                Ok(t) => r matches Ok(m) && m@ == t,
                Err(e) => r matches Err(x) && x@ == e,
            },
    {
        let (root, range) = match decode_torrent(data) {
            Ok(x) => x,
            Err(e) => {
                return Err(e);
            },
        };
        let info_hash = match range {
            Some((start, end)) => InfoHash(sha1_digest(slice_subrange(data, start, end))),
            None => {
                return Err(Error::InvalidTorrent(TorrentError::MissingInfo));
            },
        };
        let info = match root.get("info".as_bytes()) {
            Some(info) => info,
            None => {
                return Err(Error::InvalidTorrent(TorrentError::MissingInfo));
            },
        };
        match Self::from_dicts(&root, info, info_hash) {
            Ok(m) => Ok(m),
            Err(e) => Err(Error::InvalidTorrent(e)),
        }
    }

    /// Read the metadata from the dictionaries of a torrent whose info hash is known.
    pub fn from_dicts(root: &Value, info: &Value, info_hash: InfoHash) -> (r: std::result::Result<
        Self,
        TorrentError,
    >)
        ensures
            match torrent_from(root@, info@, info_hash.0@) {
                Ok(t) => r matches Ok(m) && m@ == t,
                Err(e) => r matches Err(x) && x == e,
            },
    {
        let name = match info.get_str("name".as_bytes()) {
            Some(name) => sanitize_path_component(name),
            None => sanitize_path_component("download"),
        };
        assert(name@ == name_of(info@));
        let piece_length: u64 = match info.get_int("piece length".as_bytes()) {
            Some(n) => n as u64,
            None => {
                return Err(TorrentError::MissingPieceLength);
            },
        };
        let pieces = match info.get_bytes("pieces".as_bytes()) {
            Some(b) => b,
            None => {
                return Err(TorrentError::MissingPieces);
            },
        };
        if pieces.len() % 20 != 0 {
            return Err(TorrentError::PiecesLength { len: pieces.len() });
        }
        let piece_hashes = parse_hashes(pieces);
        let (files, total_length) = match parse_contents(&name, info) {
            Ok(x) => x,
            Err(e) => {
                return Err(e);
            },
        };
        let trackers = parse_trackers(root);
        let comment = owned_text(root, "comment".as_bytes());
        let created_by = owned_text(root, "created by".as_bytes());
        let is_private = match info.get_int("private".as_bytes()) {
            Some(n) => n != 0,
            None => false,
        };
        Ok(
            Metainfo {
                info_hash,
                name,
                piece_length,
                piece_hashes,
                files,
                total_length,
                trackers,
                comment,
                created_by,
                is_private,
            },
        )
    }
}

/// A torrent file whose only entry is the given info dictionary.
pub open spec fn wrapped(info: Seq<u8>) -> Seq<u8> {
    "d4:info".spec_bytes() + info + seq![LOWER_E]
}

/// The number of pieces, in 32 bits.
pub open spec fn piece_count_of(t: Torrent) -> int {
    t.piece_hashes.len() as int % 0x1_0000_0000
}

/// Whether a piece is the last one.
pub open spec fn is_last_piece(t: Torrent, index: int) -> bool {
    index == if piece_count_of(t) > 0 {
        piece_count_of(t) - 1
    } else {
        0
    }
}

/// The length of a piece: the last one holds what is left.
pub open spec fn piece_len_of(t: Torrent, index: int) -> int {
    if is_last_piece(t, index) && t.total_length as int % t.piece_length as int != 0 {
        t.total_length as int % t.piece_length as int
    } else {
        t.piece_length as int
    }
}

/// Whether every byte of every piece has a 64-bit position in the stream.
pub open spec fn is_addressable(t: Torrent) -> bool {
    &&& t.piece_length > 0
    &&& t.piece_hashes.len() * t.piece_length <= u64::MAX
}

/// A piece lies within the addressable stream.
pub proof fn lemma_piece_addressable(t: Torrent, index: int)
    requires
        is_addressable(t),
        0 <= index < t.piece_hashes.len(),
    ensures
        0 < piece_len_of(t, index) <= t.piece_length,
        0 <= index * t.piece_length,
        index * t.piece_length + piece_len_of(t, index) <= u64::MAX,
{
    let n = t.piece_hashes.len() as int;
    let p = t.piece_length as int;
    assert(0 <= index * p && index * p + p <= n * p) by (nonlinear_arith)
        requires
            0 <= index < n,
            p > 0,
    ;
}

impl Metainfo {
    /// Whether every byte of every piece has a 64-bit position in the stream.
    pub fn is_addressable(&self) -> (r: bool)
        ensures
            r == is_addressable(self@),
    {
        if self.piece_length == 0 {
            return false;
        }
        match (self.piece_hashes.len() as u64).checked_mul(self.piece_length) {
            Some(_) => true,
            None => false,
        }
    }

    pub fn piece_count(&self) -> (r: u32)
        ensures
            r == piece_count_of(self@),
    {
        low32(self.piece_hashes.len() as u64)
    }

    /// Length of piece `index` (accounts for shorter last piece).
    pub fn piece_len(&self, index: u32) -> (r: u64)
        requires
            is_last_piece(self@, index as int) ==> self.piece_length != 0,
        ensures
            r == piece_len_of(self@, index as int),
    {
        let last: u32 = self.piece_count().saturating_sub(1);
        if index == last {
            let rem: u64 = self.total_length % self.piece_length;
            if rem == 0 {
                self.piece_length
            } else {
                rem
            }
        } else {
            self.piece_length
        }
    }

    /// Construct a `Metainfo` from a raw bencoded info-dict (BEP-9).
    /// `info_hash` must already be verified by the caller.
    pub fn from_info_bytes(data: &[u8], info_hash: &InfoHash) -> (r: Result<Self>)
        ensures
            match metainfo_of(wrapped(data@)) {
                Ok(t) => r matches Ok(m) && m@ == (Torrent { info_hash: info_hash.0@, ..t }),
                Err(e) => r matches Err(x) && x@ == e,
            },
    {
        let mut torrent: Vec<u8> = Vec::new();
        append_bytes(&mut torrent, "d4:info".as_bytes());
        append_bytes(&mut torrent, data);
        torrent.push(LOWER_E);
        assert(torrent@ =~= wrapped(data@));
        match Self::from_bytes(torrent.as_slice()) {
            Ok(mut meta) => {
                meta.info_hash = *info_hash;
                Ok(meta)
            },
            Err(e) => Err(e),
        }
    }

    /// Create a placeholder `Metainfo` from a magnet link (before BEP-9 exchange).
    /// The metadata fields (files, pieces, etc.) are empty; download logic must
    /// complete BEP-9 before proceeding.
    pub fn placeholder_magnet(link: &MagnetLink) -> (r: Self)
        ensures
            r@ == (Torrent {
                info_hash: link.info_hash.0@,
                name: match link@.name {
                    Some(name) => sanitized(name),
                    None => hex_text(link.info_hash.0@),
                },
                piece_length: 0,
                piece_hashes: seq![],
                files: seq![],
                total_length: 0,
                trackers: link@.trackers.map_values(|u: Seq<char>| seq![u]),
                comment: None,
                created_by: None,
                is_private: false,
            }),
    {
        let name = match &link.name {
            Some(name) => sanitize_path_component(name.as_str()),
            None => link.info_hash.to_hex(),
        };
        let ghost f = |u: Seq<char>| seq![u];
        let mut trackers: Vec<Vec<String>> = Vec::new();
        let mut i: usize = 0;
        while i < link.trackers.len()
            invariant
                i <= link.trackers.len(),
                f == (|u: Seq<char>| seq![u]),
                tier_texts(trackers@) == texts(link.trackers@).take(i as int).map_values(f),
            decreases link.trackers.len() - i,
        {
            let mut tier: Vec<String> = Vec::new();
            tier.push(copy_string(&link.trackers[i]));
            let ghost before = trackers@;
            let ghost new = texts(tier@);
            assert(new =~= seq![link.trackers@[i as int]@]);
            trackers.push(tier);
            assert(tier_texts(trackers@) =~= tier_texts(before).push(new));
            i = i + 1;
            assert(tier_texts(trackers@) =~= texts(link.trackers@).take(i as int).map_values(f));
        }
        let m = Metainfo {
            info_hash: link.info_hash,
            name,
            piece_length: 0,
            piece_hashes: Vec::new(),
            files: Vec::new(),
            total_length: 0,
            trackers,
            comment: None,
            created_by: None,
            is_private: false,
        };
        proof {
            assert(texts(link.trackers@).take(i as int) =~= texts(link.trackers@));
            assert(m@.piece_hashes =~= seq![]);
            assert(m@.files =~= seq![]);
        }
        m
    }
}

// Laws

/// The files of a file list follow each other in the stream without a gap, and
/// the total length is where the last one ends.
pub proof fn lemma_files_contiguous(name: Seq<char>, list: Seq<Tree>)
    ensures
        files_of(name, list) matches Ok((files, total)) ==> {
            &&& files.len() == list.len()
            &&& files.len() > 0 ==> files[0].offset == 0 && files.last().offset
                + files.last().length == total
            &&& files.len() == 0 ==> total == 0
            &&& forall|i: int|
                0 < i < files.len() ==> (#[trigger] files[i]).offset == files[i - 1].offset
                    + files[i - 1].length
        },
    decreases list.len(),
{
    if list.len() > 0 {
        lemma_files_contiguous(name, list.drop_last());
    }
}

/// No component of a path of a torrent file can leave the download directory.
pub proof fn lemma_paths_are_safe(data: Seq<u8>)
    ensures
        metainfo_of(data) matches Ok(t) ==> is_safe(t.name) && forall|i: int, j: int|
            0 <= i < t.files.len() && 0 <= j < t.files[i].path.len() ==> is_safe(
                #[trigger] t.files[i].path[j],
            ),
        metainfo_of(data) matches Ok(t) ==> forall|i: int|
            0 <= i < t.files.len() ==> (#[trigger] t.files[i]).path.len() > 0
                && t.files[i].path[0] == t.name,
{
    if let Ok(t) = metainfo_of(data) {
        let (root, range) = torrent_of(data)->Ok_0;
        let info = root.get("info".spec_bytes()).unwrap();
        match info.get_str("name".spec_bytes()) {
            Some(name) => lemma_sanitized_is_safe(name),
            None => lemma_sanitized_is_safe("download"@),
        }
        if info.get("length".spec_bytes()) is None {
            lemma_list_paths_are_safe(t.name, info.get_list("files".spec_bytes()).unwrap());
        }
    }
}

proof fn lemma_list_paths_are_safe(name: Seq<char>, list: Seq<Tree>)
    requires
        is_safe(name),
    ensures
        files_of(name, list) matches Ok((files, total)) ==> forall|i: int, j: int|
            0 <= i < files.len() && 0 <= j < files[i].path.len() ==> is_safe(
                #[trigger] files[i].path[j],
            ),
        files_of(name, list) matches Ok((files, total)) ==> forall|i: int|
            0 <= i < files.len() ==> (#[trigger] files[i]).path.len() > 0 && files[i].path[0]
                == name,
    decreases list.len(),
{
    if list.len() > 0 {
        lemma_list_paths_are_safe(name, list.drop_last());
        if let Ok((files, total)) = files_of(name, list) {
            let components = list.last().get_list("path".spec_bytes()).unwrap();
            let path = path_of(name, components).unwrap();
            assert forall|j: int| 0 <= j < path.len() implies is_safe(#[trigger] path[j]) by {
                if j > 0 {
                    lemma_sanitized_is_safe(components[j - 1].as_str().unwrap());
                }
            }
            assert(files.last().path == path);
        }
    }
}

/// The pieces cover the stream: every piece but the last has the full length,
/// and the last one ends where the stream ends.
pub proof fn lemma_pieces_cover(t: Torrent)
    requires
        t.piece_length > 0,
        t.total_length > 0,
        piece_count_of(t) == (t.total_length + t.piece_length - 1) / t.piece_length as int,
    ensures
        forall|i: int|
            0 <= i < piece_count_of(t) - 1 ==> #[trigger] piece_len_of(t, i) == t.piece_length,
        (piece_count_of(t) - 1) * t.piece_length + piece_len_of(t, piece_count_of(t) - 1)
            == t.total_length,
        0 < piece_len_of(t, piece_count_of(t) - 1) <= t.piece_length,
{
    let p = t.piece_length as int;
    let n = t.total_length as int;
    let q = n / p;
    let r = n % p;
    lemma_fundamental_div_mod(n, p);
    assert(p * q == q * p) by (nonlinear_arith);
    if r == 0 {
        assert(q > 0) by (nonlinear_arith)
            requires
                n == q * p,
                n > 0,
                p > 0,
        ;
        lemma_fundamental_div_mod_converse(n + p - 1, p, q, p - 1);
        assert((q - 1) * p + p == q * p) by (nonlinear_arith);
    } else {
        assert((q + 1) * p + (r - 1) == n + p - 1) by (nonlinear_arith)
            requires
                n == q * p + r,
        ;
        lemma_fundamental_div_mod_converse(n + p - 1, p, q + 1, r - 1);
    }
}

/// A wrapped info dictionary is a torrent file with that one entry.
proof fn lemma_wrapped(data: Seq<u8>, info: Tree)
    requires
        data.len() + 8 <= usize::MAX,
        value_at(data, 0) == Ok::<(Tree, int), BencodeError<Seq<char>>>((info, data.len() as int)),
    ensures
        torrent_of(wrapped(data)) == Ok::<(Tree, Option<(usize, usize)>), BencodeError<Seq<char>>>(
            (
                Tree::Dict(map!["info".spec_bytes() => info]),
                Some((7usize, (7 + data.len()) as usize)),
            ),
        ),
{
    let w = wrapped(data);
    let key = "info".spec_bytes();
    let head = "d4:info".spec_bytes();
    reveal_strlit("info");
    reveal_strlit("d4:info");
    is_ascii_chars_encode_utf8("info"@);
    is_ascii_chars_encode_utf8("d4:info"@);
    assert(key =~= seq![0x69u8, 0x6e, 0x66, 0x6f]);
    assert(head =~= seq![0x64u8, 0x34, 0x3a, 0x69, 0x6e, 0x66, 0x6f]);
    assert(decimal(4) =~= seq![0x34u8]);
    assert(encode_bytes(key) =~= seq![0x34u8, 0x3a, 0x69, 0x6e, 0x66, 0x6f]);
    assert(w.subrange(1, 7) =~= encode_bytes(key));
    lemma_bytes_at(w, 1, key);
    assert forall|k: int| 0 <= k < data.len() implies #[trigger] data[0 + k] == w[7 + k] by {}
    lemma_value_local(data, 0, w, 7);
    let end = 7 + data.len();
    assert(w[end as int] == LOWER_E);
    lemma_progress(data, 0);
    assert(w[1] != LOWER_E);
    assert(entry_at(w, 1) == Ok::<(Seq<u8>, int, Tree, int), BencodeError<Seq<char>>>(
        (key, 7, info, end as int),
    ));
    let m = Map::<Seq<u8>, Tree>::empty().insert(key, info);
    assert(m =~= map![key => info]);
    let range = Some((7usize, end as usize));
    assert(top_entries_at(w, end as int, m, range) == Ok::<
        (Tree, Option<(usize, usize)>),
        BencodeError<Seq<char>>,
    >((Tree::Dict(m), range)));
}

/// The info dictionary of a torrent file carries everything but the trackers and
/// the comments: reading it alone gives the same torrent.
pub proof fn lemma_info_bytes_suffice(data: Seq<u8>)
    requires
        data.len() <= usize::MAX,
    ensures
        metainfo_of(data) matches Ok(t) ==> {
            let (start, end) = torrent_of(data)->Ok_0.1.unwrap();
            let info = data.subrange(start as int, end as int);
            &&& t.info_hash == sha1(info)
            &&& metainfo_of(wrapped(info)) == Ok::<Torrent, Error<Seq<char>>>(
                Torrent { trackers: seq![], comment: None, created_by: None, ..t },
            )
        },
{
    if let Ok(t) = metainfo_of(data) {
        lemma_info_range(data);
        let (root, range) = torrent_of(data)->Ok_0;
        let (start, end) = range.unwrap();
        let tree = root.get("info".spec_bytes()).unwrap();
        let info = data.subrange(start as int, end as int);
        assert forall|k: int| 0 <= k < end - start implies #[trigger] data[start + k] == info[0
            + k] by {}
        lemma_value_local(data, start as int, info, 0);
        lemma_wrapped(info, tree);
        let w = wrapped(info);
        let only = Tree::Dict(map!["info".spec_bytes() => tree]);
        assert(w.subrange(7, 7 + info.len() as int) =~= info) by {
            reveal_strlit("d4:info");
            is_ascii_chars_encode_utf8("d4:info"@);
        }
        assert(only.get("info".spec_bytes()) == Some(tree));
        lemma_other_keys();
        assert(only.get_str("comment".spec_bytes()) is None);
        assert(only.get_str("created by".spec_bytes()) is None);
        assert(only.get_str("announce".spec_bytes()) is None);
        assert(only.get_list("announce-list".spec_bytes()) is None);
    }
}

proof fn lemma_other_keys()
    ensures
        "comment".spec_bytes() != "info".spec_bytes(),
        "created by".spec_bytes() != "info".spec_bytes(),
        "announce".spec_bytes() != "info".spec_bytes(),
        "announce-list".spec_bytes() != "info".spec_bytes(),
{
    reveal_strlit("info");
    reveal_strlit("comment");
    reveal_strlit("created by");
    reveal_strlit("announce");
    reveal_strlit("announce-list");
    is_ascii_chars_encode_utf8("info"@);
    is_ascii_chars_encode_utf8("comment"@);
    is_ascii_chars_encode_utf8("created by"@);
    is_ascii_chars_encode_utf8("announce"@);
    is_ascii_chars_encode_utf8("announce-list"@);
}

/// URLs as the value of a tier.
pub open spec fn tier_tree(urls: Seq<Seq<char>>) -> Tree {
    Tree::List(urls.map_values(|u: Seq<char>| Tree::Bytes(encode_utf8(u))))
}

/// Tiers as the value of `announce-list`.
pub open spec fn tiers_tree(tiers: Seq<Seq<Seq<char>>>) -> Seq<Tree> {
    tiers.map_values(|t: Seq<Seq<char>>| tier_tree(t))
}

proof fn lemma_tier_urls(urls: Seq<Seq<char>>)
    ensures
        tier_tree(urls) is List,
        tier_urls(tier_tree(urls)->List_0) == urls,
    decreases urls.len(),
{
    let list = tier_tree(urls)->List_0;
    if urls.len() > 0 {
        lemma_tier_urls(urls.drop_last());
        assert(list.drop_last() =~= tier_tree(urls.drop_last())->List_0);
        encode_utf8_valid_utf8(urls.last());
        encode_utf8_decode_utf8(urls.last());
        assert(tier_urls(list) =~= urls);
    } else {
        assert(urls =~= seq![]);
    }
}

proof fn lemma_tiers_of(tiers: Seq<Seq<Seq<char>>>)
    requires
        forall|i: int| 0 <= i < tiers.len() ==> (#[trigger] tiers[i]).len() > 0,
    ensures
        tiers_of(tiers_tree(tiers)) == tiers,
    decreases tiers.len(),
{
    let list = tiers_tree(tiers);
    if tiers.len() > 0 {
        let head = tiers.drop_last();
        assert forall|i: int| 0 <= i < head.len() implies (#[trigger] head[i]).len() > 0 by {
            assert(tiers[i].len() > 0);
        }
        assert(tiers[tiers.len() - 1].len() > 0);
        lemma_tiers_of(head);
        lemma_tier_urls(tiers.last());
        assert(list.drop_last() =~= tiers_tree(head));
        assert(list.last() == tier_tree(tiers.last()));
        assert(tiers_of(list) =~= tiers);
    } else {
        assert(tiers =~= seq![]);
    }
}

/// No tracker is lost: the tiers of `announce-list` are the tiers of the
/// torrent, each at its place and with all its URLs in order. Only the first
/// one may have the URL of `announce` in front, which it has if that is not
/// among its URLs.
pub proof fn lemma_trackers(root: Tree, tiers: Seq<Seq<Seq<char>>>)
    requires
        root.get("announce-list".spec_bytes()) == Some(Tree::List(tiers_tree(tiers))),
        forall|i: int| 0 <= i < tiers.len() ==> (#[trigger] tiers[i]).len() > 0,
    ensures
        tiers.len() > 0 ==> trackers_of(root).len() == tiers.len(),
        forall|i: int| 0 < i < tiers.len() ==> #[trigger] trackers_of(root)[i] == tiers[i],
        tiers.len() > 0 ==> trackers_of(root)[0] == tiers[0] || (trackers_of(root)[0].len()
            == tiers[0].len() + 1 && trackers_of(root)[0].skip(1) == tiers[0]
            && root.get("announce".spec_bytes()) is Some),
        forall|i: int, url: Seq<char>|
            0 <= i < tiers.len() && #[trigger] tiers[i].contains(url)
                ==> trackers_of(root)[i].contains(url),
        root.get("announce".spec_bytes()) is None ==> trackers_of(root) == tiers,
{
    lemma_tiers_of(tiers);
    if trackers_of(root) != tiers && tiers.len() > 0 {
        let first = trackers_of(root)[0];
        assert(first.skip(1) =~= tiers[0]);
        assert forall|i: int, url: Seq<char>|
            0 <= i < tiers.len() && #[trigger] tiers[i].contains(url) implies trackers_of(
            root,
        )[i].contains(url) by {
            if i == 0 {
                let j = choose|j: int| 0 <= j < tiers[0].len() && tiers[0][j] == url;
                assert(first[j + 1] == url);
            }
        }
    }
}

/// The URL of `announce` is a tracker of the first tier: in front of the others
/// if it is new, where it stands if it is not, and alone if there are no tiers.
pub proof fn lemma_announce_is_tracker(root: Tree, url: Seq<char>, tiers: Seq<Seq<Seq<char>>>)
    requires
        root.get("announce".spec_bytes()) == Some(Tree::Bytes(encode_utf8(url))),
        forall|i: int| 0 <= i < tiers.len() ==> (#[trigger] tiers[i]).len() > 0,
    ensures
        trackers_of(root).len() > 0 && trackers_of(root)[0].contains(url),
        root.get("announce-list".spec_bytes()) is None ==> trackers_of(root) == seq![seq![url]],
        root.get("announce-list".spec_bytes()) == Some(Tree::List(tiers_tree(tiers))) ==> {
            &&& tiers.len() == 0 ==> trackers_of(root) == seq![seq![url]]
            &&& tiers.len() > 0 && !tiers[0].contains(url) ==> trackers_of(root)[0] == seq![url]
                + tiers[0]
            &&& tiers.len() > 0 && tiers[0].contains(url) ==> trackers_of(root)[0] == tiers[0]
        },
{
    encode_utf8_valid_utf8(url);
    encode_utf8_decode_utf8(url);
    lemma_tiers_of(tiers);
    let listed = match root.get_list("announce-list".spec_bytes()) {
        Some(list) => tiers_of(list),
        None => seq![],
    };
    let now = trackers_of(root);
    if listed.len() == 0 {
        assert(now[0][0] == url);
    } else if !listed[0].contains(url) {
        assert(now[0][0] == url);
    }
}

/// Every URL of `announce-list` is among the trackers, whatever else the list
/// holds.
pub proof fn lemma_every_url_is_tracker(
    root: Tree,
    list: Seq<Tree>,
    i: int,
    tier: Seq<Tree>,
    j: int,
    url: Seq<char>,
) -> (at: int)
    requires
        root.get("announce-list".spec_bytes()) == Some(Tree::List(list)),
        0 <= i < list.len(),
        list[i] == Tree::List(tier),
        0 <= j < tier.len(),
        tier[j] == Tree::Bytes(encode_utf8(url)),
    ensures
        0 <= at <= i,
        at < trackers_of(root).len(),
        trackers_of(root)[at].contains(url),
{
    lemma_url_in_tier(tier, j, url);
    let at = lemma_tier_in_list(list, i, tier);
    let tiers = tiers_of(list);
    let now = trackers_of(root);
    if now != tiers && at == 0 {
        let k = choose|k: int| 0 <= k < tiers[0].len() && tiers[0][k] == url;
        assert(now[0][k + 1] == url);
    }
    at
}

proof fn lemma_url_in_tier(tier: Seq<Tree>, j: int, url: Seq<char>)
    requires
        0 <= j < tier.len(),
        tier[j] == Tree::Bytes(encode_utf8(url)),
    ensures
        tier_urls(tier).contains(url),
    decreases tier.len(),
{
    encode_utf8_valid_utf8(url);
    encode_utf8_decode_utf8(url);
    let urls = tier_urls(tier);
    if j < tier.len() - 1 {
        let head = tier_urls(tier.drop_last());
        lemma_url_in_tier(tier.drop_last(), j, url);
        let k = choose|k: int| 0 <= k < head.len() && head[k] == url;
        assert(urls[k] == url);
    } else {
        assert(urls[urls.len() - 1] == url);
    }
}

proof fn lemma_tier_in_list(list: Seq<Tree>, i: int, tier: Seq<Tree>) -> (at: int)
    requires
        0 <= i < list.len(),
        list[i] == Tree::List(tier),
        tier_urls(tier).len() > 0,
    ensures
        0 <= at <= i,
        at < tiers_of(list).len(),
        tiers_of(list)[at] == tier_urls(tier),
    decreases list.len(),
{
    lemma_tiers_bound(list.drop_last());
    if i < list.len() - 1 {
        lemma_tier_in_list(list.drop_last(), i, tier)
    } else {
        tiers_of(list.drop_last()).len() as int
    }
}

proof fn lemma_tiers_bound(list: Seq<Tree>)
    ensures
        tiers_of(list).len() <= list.len(),
    decreases list.len(),
{
    if list.len() > 0 {
        lemma_tiers_bound(list.drop_last());
    }
}

/// What holds no URL is no tier, wherever it stands in the list, and what is no
/// text is no URL.
pub proof fn lemma_no_url(before: Seq<Tree>, odd: Tree, after: Seq<Tree>)
    ensures
        (odd matches Tree::List(tier) ==> forall|i: int|
            0 <= i < tier.len() ==> !((#[trigger] tier[i]) is Bytes)) ==> tiers_of(
            before + seq![odd] + after,
        ) == tiers_of(before + after),
        !(odd is Bytes) ==> tier_urls(before + seq![odd] + after) == tier_urls(before + after),
    decreases after.len(),
{
    let all = before + seq![odd] + after;
    if let Tree::List(tier) = odd {
        if forall|i: int| 0 <= i < tier.len() ==> !((#[trigger] tier[i]) is Bytes) {
            lemma_no_texts(tier);
        }
    }
    if after.len() == 0 {
        assert(all.drop_last() =~= before);
        assert(all.last() == odd);
        assert(before + after =~= before);
    } else {
        lemma_no_url(before, odd, after.drop_last());
        assert(all.drop_last() =~= before + seq![odd] + after.drop_last());
        assert((before + after).drop_last() =~= before + after.drop_last());
        assert(all.last() == after.last() && (before + after).last() == after.last());
    }
}

proof fn lemma_no_texts(tier: Seq<Tree>)
    requires
        forall|i: int| 0 <= i < tier.len() ==> !((#[trigger] tier[i]) is Bytes),
    ensures
        tier_urls(tier).len() == 0,
    decreases tier.len(),
{
    if tier.len() > 0 {
        let head = tier.drop_last();
        assert(!(tier[tier.len() - 1] is Bytes));
        assert forall|i: int| 0 <= i < head.len() implies !((#[trigger] head[i]) is Bytes) by {
            assert(!(tier[i] is Bytes));
        }
        lemma_no_texts(head);
    }
}

/// The hashes of the pieces, one after the other, are the value of `pieces`.
pub proof fn lemma_hashes_are_pieces(hashes: Seq<Seq<u8>>, pieces: Seq<u8>)
    requires
        pieces.len() == 20 * hashes.len(),
        forall|i: int|
            0 <= i < hashes.len() ==> #[trigger] hashes[i] == pieces.subrange(20 * i, 20 * i + 20),
    ensures
        split_hashes(pieces) == hashes,
{
    assert(split_hashes(pieces) =~= hashes);
}

/// What a torrent holds is what its dictionaries say: the name, the length of a
/// piece, the hash of each piece, the comment and the author, and whether it is
/// private.
pub proof fn lemma_torrent_fields(root: Tree, info: Tree, info_hash: Seq<u8>, text: Seq<char>)
    ensures
        torrent_from(root, info, info_hash) matches Ok(t) ==> {
            &&& t.info_hash == info_hash
            &&& info.get("name".spec_bytes()) == Some(Tree::Bytes(encode_utf8(text))) && is_safe(
                text,
            ) ==> t.name == text
            &&& info.get("name".spec_bytes()) is None ==> t.name == "download"@
            &&& info.get("piece length".spec_bytes()) matches Some(Tree::Int(n)) && (n >= 0
                ==> t.piece_length == n)
            &&& info.get("pieces".spec_bytes()) matches Some(Tree::Bytes(pieces)) && 20
                * t.piece_hashes.len() == pieces.len() && forall|i: int|
                0 <= i < t.piece_hashes.len() ==> #[trigger] t.piece_hashes[i] == pieces.subrange(
                    20 * i,
                    20 * i + 20,
                )
            &&& root.get("comment".spec_bytes()) == Some(Tree::Bytes(encode_utf8(text)))
                ==> t.comment == Some(text)
            &&& root.get("comment".spec_bytes()) is None ==> t.comment is None
            &&& root.get("created by".spec_bytes()) == Some(Tree::Bytes(encode_utf8(text)))
                ==> t.created_by == Some(text)
            &&& root.get("created by".spec_bytes()) is None ==> t.created_by is None
            &&& t.is_private <==> (info.get("private".spec_bytes()) is Some && info.get(
                "private".spec_bytes(),
            ).unwrap() is Int && info.get("private".spec_bytes()) != Some(Tree::Int(0)))
            &&& t.trackers == trackers_of(root)
        },
{
    encode_utf8_valid_utf8(text);
    encode_utf8_decode_utf8(text);
    lemma_sanitized_is_safe(text);
    lemma_sanitized_is_safe("download"@);
    reveal_strlit("download");
    assert("download"@[0] == 'd');
    assert(is_safe("download"@));
}

/// A torrent is accepted if it has a piece length, whole hashes and files, and
/// otherwise rejected for the first of these that it lacks.
pub proof fn lemma_torrent_accepted(root: Tree, info: Tree, info_hash: Seq<u8>, pieces: Seq<u8>)
    ensures
        ({
            let r = torrent_from(root, info, info_hash);
            let length = info.get("piece length".spec_bytes());
            let hashes = info.get("pieces".spec_bytes());
            &&& length is None ==> r == Err::<Torrent, TorrentError>(
                TorrentError::MissingPieceLength,
            )
            &&& length is Some && length.unwrap() is Int && hashes is None ==> r == Err::<
                Torrent,
                TorrentError,
            >(TorrentError::MissingPieces)
            &&& length is Some && length.unwrap() is Int && hashes == Some(Tree::Bytes(pieces))
                && pieces.len() % 20 != 0 ==> r == Err::<Torrent, TorrentError>(
                TorrentError::PiecesLength { len: pieces.len() as usize },
            )
            &&& length is Some && length.unwrap() is Int && hashes == Some(Tree::Bytes(pieces))
                && pieces.len() % 20 == 0 ==> {
                &&& r is Ok <==> contents_of(name_of(info), info) is Ok
                &&& r is Ok ==> r->Ok_0.files == contents_of(name_of(info), info)->Ok_0.0
                    && r->Ok_0.total_length == contents_of(name_of(info), info)->Ok_0.1
                &&& r is Err ==> r->Err_0 == contents_of(name_of(info), info)->Err_0
            }
        }),
{
}

/// A torrent with a length holds one file of that length under its name, and
/// one without holds the files of its list.
pub proof fn lemma_single_file(name: Seq<char>, info: Tree, n: i64)
    ensures
        info.get("length".spec_bytes()) == Some(Tree::Int(n)) && n >= 0 ==> contents_of(name, info)
            == Ok::<(Seq<FileEntry>, u64), TorrentError>(
            (seq![FileEntry { path: seq![name], length: n as u64, offset: 0 }], n as u64),
        ),
        info.get("length".spec_bytes()) is None && info.get("files".spec_bytes()) is None
            ==> contents_of(name, info) == Err::<(Seq<FileEntry>, u64), TorrentError>(
            TorrentError::MissingFiles,
        ),
        info.get("length".spec_bytes()) is Some && !(info.get("length".spec_bytes()).unwrap() is Int)
            ==> contents_of(name, info) == Err::<(Seq<FileEntry>, u64), TorrentError>(
            TorrentError::LengthNotInteger,
        ),
        info.get("length".spec_bytes()) is None ==> (info.get("files".spec_bytes()) matches Some(
            Tree::List(l),
        ) ==> contents_of(name, info) == files_of(name, l)),
{
}

/// Whether an entry of a file list is a file of the given length at a path.
pub open spec fn is_file(entry: Tree, length: u64, path: Seq<Seq<char>>) -> bool {
    &&& entry.get("length".spec_bytes()) == Some(Tree::Int(length as i64))
    &&& length <= i64::MAX
    &&& entry.get("path".spec_bytes()) == Some(tier_tree(path))
    &&& forall|j: int| 0 <= j < path.len() ==> is_safe(#[trigger] path[j])
}

/// The lengths of files, added up.
pub open spec fn sum_of(lengths: Seq<u64>) -> int
    decreases lengths.len(),
{
    if lengths.len() == 0 {
        0
    } else {
        sum_of(lengths.drop_last()) + lengths.last()
    }
}

/// The files of a list are those that it names, in its order, under the name of
/// the torrent; each starts where those before it end. A list whose files are
/// too long together is rejected.
pub proof fn lemma_listed_files(
    name: Seq<char>,
    list: Seq<Tree>,
    lengths: Seq<u64>,
    paths: Seq<Seq<Seq<char>>>,
)
    requires
        list.len() == lengths.len() == paths.len(),
        forall|i: int| 0 <= i < list.len() ==> is_file(#[trigger] list[i], lengths[i], paths[i]),
    ensures
        sum_of(lengths) <= u64::MAX ==> files_of(name, list) == Ok::<
            (Seq<FileEntry>, u64),
            TorrentError,
        >(
            (
                Seq::new(
                    list.len(),
                    |i: int|
                        FileEntry {
                            path: seq![name] + paths[i],
                            length: lengths[i],
                            offset: sum_of(lengths.take(i)) as u64,
                        },
                ),
                sum_of(lengths) as u64,
            ),
        ),
        sum_of(lengths) > u64::MAX ==> files_of(name, list) == Err::<
            (Seq<FileEntry>, u64),
            TorrentError,
        >(TorrentError::SizeOverflow),
        sum_of(lengths) >= 0,
    decreases list.len(),
{
    let all = Seq::new(
        list.len(),
        |i: int|
            FileEntry {
                path: seq![name] + paths[i],
                length: lengths[i],
                offset: sum_of(lengths.take(i)) as u64,
            },
    );
    if list.len() > 0 {
        let n = list.len() - 1;
        let head = list.drop_last();
        assert forall|i: int| 0 <= i < head.len() implies is_file(
            #[trigger] head[i],
            lengths.drop_last()[i],
            paths.drop_last()[i],
        ) by {
            assert(is_file(list[i], lengths[i], paths[i]));
        }
        lemma_listed_files(name, head, lengths.drop_last(), paths.drop_last());
        assert(is_file(list[n], lengths[n], paths[n]));
        lemma_file_entry(name, list[n], lengths[n], paths[n]);
        assert(lengths.take(n) =~= lengths.drop_last());
        if let Ok((files, total)) = files_of(name, head) {
            assert forall|i: int| 0 <= i < n implies #[trigger] files[i] == all[i] by {
                assert(lengths.drop_last().take(i) =~= lengths.take(i));
            }
            assert(files.push(
                FileEntry { path: seq![name] + paths[n], length: lengths[n], offset: total },
            ) =~= all);
        }
    } else {
        assert(all =~= seq![]);
    }
}

proof fn lemma_file_entry(name: Seq<char>, entry: Tree, length: u64, path: Seq<Seq<char>>)
    requires
        is_file(entry, length, path),
    ensures
        entry_of(name, entry) == Ok::<(u64, Seq<Seq<char>>), TorrentError>(
            (length, seq![name] + path),
        ),
{
    let components = tier_tree(path)->List_0;
    assert forall|j: int| 0 <= j < components.len() implies (#[trigger] components[j]).as_str()
        == Some(path[j]) && sanitized(path[j]) == path[j] by {
        encode_utf8_valid_utf8(path[j]);
        encode_utf8_decode_utf8(path[j]);
        assert(is_safe(path[j]));
        lemma_sanitized_is_safe(path[j]);
    }
    let f = |t: Tree| sanitized(t.as_str().unwrap());
    assert(components.map_values(f) =~= path);
}

/// A file list is rejected for the first of its entries that has no length, no
/// path, or a path that is not made of texts.
pub proof fn lemma_bad_file(name: Seq<char>, list: Seq<Tree>, i: int)
    requires
        0 <= i < list.len(),
        files_of(name, list.take(i)) is Ok,
    ensures
        ({
            let r = files_of(name, list);
            let length = list[i].get("length".spec_bytes());
            let path = list[i].get("path".spec_bytes());
            &&& length is None ==> r == Err::<(Seq<FileEntry>, u64), TorrentError>(
                TorrentError::FileMissingLength,
            )
            &&& length is Some && length.unwrap() is Int && path is None ==> r == Err::<
                (Seq<FileEntry>, u64),
                TorrentError,
            >(TorrentError::FileMissingPath)
            &&& length is Some && length.unwrap() is Int ==> (path matches Some(Tree::List(c)) ==> (
            (exists|j: int| 0 <= j < c.len() && !((#[trigger] c[j]) is Bytes)) ==> r == Err::<
                (Seq<FileEntry>, u64),
                TorrentError,
            >(TorrentError::PathNotString)))
        }),
{
    assert(list.take(i + 1).drop_last() =~= list.take(i));
    assert(list.take(i + 1).last() == list[i]);
    if let Err(e) = files_of(name, list.take(i + 1)) {
        lemma_files_error(name, list, i + 1, e);
    }
    if let Some(Tree::List(c)) = list[i].get("path".spec_bytes()) {
        if exists|j: int| 0 <= j < c.len() && !((#[trigger] c[j]) is Bytes) {
            let j = choose|j: int| 0 <= j < c.len() && !((#[trigger] c[j]) is Bytes);
            assert(c[j].as_str() is None);
        }
    }
}

/// A torrent file that was written is read from its dictionaries, under the
/// hash of the bytes of its info dictionary.
pub proof fn lemma_written_torrent(m: Map<Seq<u8>, Tree>, rest: Seq<u8>)
    requires
        finite(Tree::Dict(m)),
        lengths_fit(Tree::Dict(m)),
        (encode(Tree::Dict(m)) + rest).len() <= usize::MAX,
    ensures
        ({
            let data = encode(Tree::Dict(m)) + rest;
            &&& m.contains_key("info".spec_bytes()) ==> exists|start: int, end: int|
                0 <= start < end <= data.len() && value_at(#[trigger] data.subrange(start, end), 0)
                    == Ok::<(Tree, int), BencodeError<Seq<char>>>(
                    (m["info".spec_bytes()], end - start),
                ) && match torrent_from(
                    Tree::Dict(m),
                    m["info".spec_bytes()],
                    sha1(data.subrange(start, end)),
                ) {
                    Ok(t) => metainfo_of(data) == Ok::<Torrent, Error<Seq<char>>>(t),
                    Err(e) => metainfo_of(data) == Err::<Torrent, Error<Seq<char>>>(
                        Error::InvalidTorrent(e),
                    ),
                }
            &&& !m.contains_key("info".spec_bytes()) ==> metainfo_of(data) == Err::<
                Torrent,
                Error<Seq<char>>,
            >(Error::InvalidTorrent(TorrentError::MissingInfo))
        }),
{
    let data = encode(Tree::Dict(m)) + rest;
    lemma_torrent_round_trip(m, rest);
    if let Some((start, end)) = torrent_of(data)->Ok_0.1 {
        let info = data.subrange(start as int, end as int);
        assert forall|k: int| 0 <= k < end - start implies #[trigger] data[start + k] == info[0
            + k] by {}
        lemma_value_local(data, start as int, info, 0);
    }
}

} // verus!
