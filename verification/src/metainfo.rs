//! The descriptor of a torrent: from decoded values to validated metadata.

use vstd::prelude::*;
use vstd::arithmetic::div_mod::lemma_div_plus_one;
use vstd::slice::slice_subrange;
use crate::announce::{parse_url, parsed_url, AnnounceUrl, UrlParts};
use crate::decoder::{bencode_from_bytes, decoding, MAX_DEPTH};
use crate::digest::{sha1, sha1_digest, DIGEST_INPUT_LIMIT};
use crate::encoding::{
    encode, encode_bytes, encode_entries, encodes_at, lemma_text_at_concat, valid, Value,
    DICTIONARY_START, END,
};
use crate::error::{
    invalid, malformed, mismatch, DecodingError, ErrorKind, Expected, Field, Reason,
};
use crate::fields::{
    bytes_field, field_value, integer_field, lookup, lookup_bytes, lookup_int, lookup_string,
    position, text_field, value_at,
};
use crate::unique::lemma_entry_position;
use crate::text::push_all;
use crate::value::{Node, StructuralValue};

verus! {

/// The length of one piece hash in bytes.
pub const HASH_LENGTH: usize = 20;

/// The info dictionary of a descriptor, with its fields typed but not yet
/// checked against each other.
#[derive(Debug)]
pub struct TorrentInfo {
    pub pieces: Vec<u8>,
    pub pieces_length: i64,
    pub length: i64,
    pub name: String,
    pub hash: [u8; 20],
}

/// A `TorrentInfo` as plain values.
pub struct InfoView {
    pub pieces: Seq<u8>,
    pub pieces_length: int,
    pub length: int,
    pub name: Seq<char>,
    pub hash: Seq<u8>,
}

impl View for TorrentInfo {
    type V = InfoView;

    open spec fn view(&self) -> InfoView {
        InfoView {
            pieces: self.pieces@,
            pieces_length: self.pieces_length as int,
            length: self.length as int,
            name: self.name@,
            hash: self.hash@,
        }
    }
}

/// A descriptor as it was written: the tracker's address as text, and the
/// info dictionary.
#[derive(Debug)]
pub struct TorrentFile {
    pub announce: String,
    pub info: TorrentInfo,
}

/// A `TorrentFile` as plain values.
pub struct FileView {
    pub announce: Seq<char>,
    pub info: InfoView,
}

impl View for TorrentFile {
    type V = FileView;

    open spec fn view(&self) -> FileView {
        FileView { announce: self.announce@, info: self.info@ }
    }
}

/// A descriptor whose tracker address is known to be an absolute URL.
#[derive(Debug)]
pub struct BencodeTorrent {
    pub announce: AnnounceUrl,
    pub info: TorrentInfo,
}

/// A `BencodeTorrent` as plain values.
pub struct BencodeTorrentView {
    pub announce: UrlParts,
    pub info: InfoView,
}

impl View for BencodeTorrent {
    type V = BencodeTorrentView;

    open spec fn view(&self) -> BencodeTorrentView {
        BencodeTorrentView { announce: self.announce@, info: self.info@ }
    }
}

/// A validated descriptor.
#[derive(Debug)]
pub struct Torrent {
    announce: AnnounceUrl,
    info_hash: [u8; 20],
    hashes: Vec<u8>,
    pieces_length: u64,
    length: u64,
    name: String,
}

/// A `Torrent` as plain values.
pub struct TorrentView {
    pub announce: UrlParts,
    pub info_hash: Seq<u8>,
    pub hashes: Seq<u8>,
    pub pieces_length: int,
    pub length: int,
    pub name: Seq<char>,
}

/// Whether a result of the program says what a result of the model says.
pub open spec fn same<T: View>(r: Result<T, DecodingError>, m: Result<T::V, DecodingError>) -> bool {
    match (r, m) {
        (Ok(x), Ok(y)) => x@ == y,
        (Err(e), Err(f)) => e == f,
        _ => false,
    }
}

/// How many pieces of `pieces_length` bytes it takes to hold `length`
/// bytes: the quotient, rounded up.
pub open spec fn pieces_needed(length: int, pieces_length: int) -> int {
    (length + pieces_length - 1) / pieces_length
}

/// The lengths are positive, and there is exactly one hash of 20 bytes for
/// each piece of the content.
pub open spec fn consistent(t: TorrentView) -> bool {
    &&& t.pieces_length > 0
    &&& t.length > 0
    &&& t.info_hash.len() == 20
    &&& t.hashes.len() == 20 * pieces_needed(t.length, t.pieces_length)
}

/// The typed fields of the info dictionary `v`, with `hash` as its digest.
pub open spec fn info_with(v: Value, hash: Seq<u8>) -> Result<InfoView, DecodingError> {
    match v {
        Value::Dictionary(entries) => match bytes_field(Field::Pieces, entries) {
            Err(e) => Err(e),
            Ok(pieces) => match integer_field(Field::PieceLength, entries) {
                Err(e) => Err(e),
                Ok(pieces_length) => match integer_field(Field::Length, entries) {
                    Err(e) => Err(e),
                    Ok(length) => match text_field(Field::Name, entries) {
                        Err(e) => Err(e),
                        Ok(name) => Ok(InfoView { pieces, pieces_length, length, name, hash }),
                    },
                },
            },
        },
        _ => Err(mismatch(Field::Info, Expected::Dictionary)),
    }
}

/// The info dictionary `v` with the digest of its own encoding.
pub open spec fn info_of(v: Value) -> Result<InfoView, DecodingError> {
    if v is Dictionary && encode(v).len() >= DIGEST_INPUT_LIMIT {
        Err(invalid(Reason::InfoTooLarge))
    } else {
        info_with(v, sha1(encode(v)))
    }
}

/// The descriptor that the value `root` holds.
pub open spec fn file_of(root: Value) -> Result<FileView, DecodingError> {
    match root {
        Value::Dictionary(entries) => match field_value(Field::Info, entries) {
            Err(e) => Err(e),
            Ok(info) => match text_field(Field::Announce, entries) {
                Err(e) => Err(e),
                Ok(announce) => match info_of(info) {
                    Err(e) => Err(e),
                    Ok(info) => Ok(FileView { announce, info }),
                },
            },
        },
        _ => Err(mismatch(Field::Root, Expected::Dictionary)),
    }
}

/// The descriptor `file` with its tracker address read as `url`.
pub open spec fn with_url(file: FileView, url: Option<UrlParts>) -> Result<
    BencodeTorrentView,
    DecodingError,
> {
    match url {
        Some(announce) => Ok(BencodeTorrentView { announce, info: file.info }),
        None => Err(invalid(Reason::InvalidAnnounceUrl)),
    }
}

/// The descriptor that the value `root` holds, with its tracker address
/// read as a URL.
pub open spec fn bencode_torrent_of(root: Value) -> Result<BencodeTorrentView, DecodingError> {
    match file_of(root) {
        Err(e) => Err(e),
        Ok(file) => with_url(file, parsed_url(file.announce)),
    }
}

/// The descriptor `t` after validation: the first rule that it breaks, or
/// its metadata.
pub open spec fn checked(t: BencodeTorrentView) -> Result<TorrentView, DecodingError> {
    if t.info.pieces.len() % 20 != 0 {
        Err(invalid(Reason::PiecesNotMultipleOf20))
    } else if t.info.pieces_length <= 0 {
        Err(invalid(Reason::NonPositivePieceLength))
    } else if t.info.length <= 0 {
        Err(invalid(Reason::NonPositiveLength))
    } else if t.info.pieces.len() / 20 != pieces_needed(t.info.length, t.info.pieces_length) {
        Err(invalid(Reason::PieceCountMismatch))
    } else {
        Ok(
            TorrentView {
                announce: t.announce,
                info_hash: t.info.hash,
                hashes: t.info.pieces,
                pieces_length: t.info.pieces_length,
                length: t.info.length,
                name: t.info.name,
            },
        )
    }
}

/// The validated descriptor that the value `root` holds.
pub open spec fn torrent_of(root: Value) -> Result<TorrentView, DecodingError> {
    match bencode_torrent_of(root) {
        Err(e) => Err(e),
        Ok(t) => checked(t),
    }
}

/// The validated descriptor that the bytes `s` hold.
pub open spec fn descriptor(s: Seq<u8>) -> Result<TorrentView, DecodingError> {
    match decoding(s) {
        None => Err(malformed()),
        Some(root) => torrent_of(root),
    }
}

impl TorrentInfo {
    /// Reads the typed fields of the info dictionary `node`, and takes
    /// `hash` for its digest.
    pub fn with_hash(node: &Node, hash: [u8; 20]) -> (r: Result<TorrentInfo, DecodingError>)
        ensures
            same(r, info_with(node@, hash@)),
    {
        match &node.value {
            StructuralValue::Dictionary(dict) => {
                let pieces = lookup_bytes(Field::Pieces, dict)?;
                let pieces_length: i64 = lookup_int(Field::PieceLength, dict)?;
                let length: i64 = lookup_int(Field::Length, dict)?;
                let name = lookup_string(Field::Name, dict)?;
                let mut copy: Vec<u8> = Vec::new();
                push_all(&mut copy, pieces.as_slice());
                Ok(TorrentInfo { pieces: copy, pieces_length, length, name, hash })
            },
            _ => Err(
                DecodingError {
                    kind: ErrorKind::FieldTypeMismatch(Field::Info, Expected::Dictionary),
                },
            ),
        }
    }

    /// Reads the info dictionary `node`, which was decoded from `bytes`,
    /// and takes the digest of the very bytes that hold it.
    pub fn try_from(bytes: &[u8], node: &Node) -> (r: Result<TorrentInfo, DecodingError>)
        requires
            node.anchored(bytes@),
        ensures
            same(r, info_of(node@)),
    {
        match &node.value {
            StructuralValue::Dictionary(_) => {
                if (node.end - node.start) as u64 >= DIGEST_INPUT_LIMIT {
                    return Err(
                        DecodingError { kind: ErrorKind::ValidationFailed(Reason::InfoTooLarge) },
                    );
                }
                let hash = sha1_digest(slice_subrange(bytes, node.start, node.end));
                TorrentInfo::with_hash(node, hash)
            },
            _ => Err(
                DecodingError {
                    kind: ErrorKind::FieldTypeMismatch(Field::Info, Expected::Dictionary),
                },
            ),
        }
    }
}

impl TorrentFile {
    /// Reads the descriptor that `root` holds; `root` was decoded from `bytes`.
    pub fn from_node(bytes: &[u8], root: &Node) -> (r: Result<TorrentFile, DecodingError>)
        requires
            root.anchored(bytes@),
        ensures
            same(r, file_of(root@)),
    {
        match &root.value {
            StructuralValue::Dictionary(dict) => {
                let info = lookup(Field::Info, dict)?;
                let announce = lookup_string(Field::Announce, dict)?;
                let info = TorrentInfo::try_from(bytes, info)?;
                Ok(TorrentFile { announce, info })
            },
            _ => Err(
                DecodingError {
                    kind: ErrorKind::FieldTypeMismatch(Field::Root, Expected::Dictionary),
                },
            ),
        }
    }

    /// Decodes `bytes`, which must hold one dictionary and nothing else,
    /// and reads the descriptor in it.
    pub fn try_from(bytes: &[u8]) -> (r: Result<TorrentFile, DecodingError>)
        ensures
            same(
                r,
                match decoding(bytes@) {
                    None => Err(malformed()),
                    Some(root) => file_of(root),
                },
            ),
    {
        let root = bencode_from_bytes(bytes)?;
        TorrentFile::from_node(bytes, &root)
    }
}

impl BencodeTorrent {
    /// Puts the URL `url`, if there is one, in the place of the announce
    /// text of `file`.
    pub fn from_file(file: TorrentFile, url: Option<AnnounceUrl>) -> (r: Result<
        BencodeTorrent,
        DecodingError,
    >)
        ensures
            same(
                r,
                with_url(
                    file@,
                    match url {
                        Some(u) => Some(u@),
                        None => None,
                    },
                ),
            ),
    {
        match url {
            Some(announce) => Ok(BencodeTorrent { announce, info: file.info }),
            None => Err(
                DecodingError { kind: ErrorKind::ValidationFailed(Reason::InvalidAnnounceUrl) },
            ),
        }
    }

    /// Decodes `bytes` and reads the descriptor in it, with its tracker
    /// address as a URL.
    pub fn try_from(bytes: &[u8]) -> (r: Result<BencodeTorrent, DecodingError>)
        ensures
            same(
                r,
                match decoding(bytes@) {
                    None => Err(malformed()),
                    Some(root) => bencode_torrent_of(root),
                },
            ),
    {
        let file = TorrentFile::try_from(bytes)?;
        let url = parse_url(file.announce.as_str());
        BencodeTorrent::from_file(file, url)
    }
}

impl View for Torrent {
    type V = TorrentView;

    closed spec fn view(&self) -> TorrentView {
        TorrentView {
            announce: self.announce@,
            info_hash: self.info_hash@,
            hashes: self.hashes@,
            pieces_length: self.pieces_length as int,
            length: self.length as int,
            name: self.name@,
        }
    }
}

impl Torrent {
    /// Every `Torrent` is consistent.
    #[verifier::type_invariant]
    spec fn holds(self) -> bool {
        consistent(self@)
    }

    /// The tracker's address.
    pub fn announce(&self) -> (r: &AnnounceUrl)
        ensures
            r@ == self@.announce,
    {
        &self.announce
    }

    /// The content identifier: the digest of the info dictionary as the
    /// descriptor held it.
    pub fn info_hash(&self) -> (r: [u8; 20])
        ensures
            r@ == self@.info_hash,
    {
        self.info_hash
    }

    /// The hashes of the pieces, 20 bytes each, in the order of the pieces.
    pub fn hashes(&self) -> (r: &Vec<u8>)
        ensures
            r@ == self@.hashes,
    {
        &self.hashes
    }

    /// The number of bytes in each piece but the last.
    pub fn pieces_length(&self) -> (r: u64)
        ensures
            r == self@.pieces_length,
            r > 0,
    {
        proof {
            use_type_invariant(self);
        }
        self.pieces_length
    }

    /// The number of bytes of the content.
    pub fn length(&self) -> (r: u64)
        ensures
            r == self@.length,
            r > 0,
    {
        proof {
            use_type_invariant(self);
        }
        self.length
    }

    /// The suggested name of the content.
    pub fn name(&self) -> (r: &String)
        ensures
            r@ == self@.name,
    {
        &self.name
    }

    /// The number of pieces: as many as it takes to hold the content, and
    /// as many as there are hashes.
    pub fn piece_count(&self) -> (r: usize)
        ensures
            consistent(self@),
            r == pieces_needed(self@.length, self@.pieces_length),
            self@.hashes.len() == 20 * r,
    {
        proof {
            use_type_invariant(self);
        }
        self.hashes.len() / HASH_LENGTH
    }

    /// Validates the descriptor `t`.
    pub fn validate(t: BencodeTorrent) -> (r: Result<Torrent, DecodingError>)
        ensures
            same(r, checked(t@)),
            r matches Ok(torrent) ==> consistent(torrent@),
    {
        if t.info.pieces.len() % HASH_LENGTH != 0 {
            return Err(
                DecodingError {
                    kind: ErrorKind::ValidationFailed(Reason::PiecesNotMultipleOf20),
                },
            );
        }
        if t.info.pieces_length <= 0 {
            return Err(
                DecodingError {
                    kind: ErrorKind::ValidationFailed(Reason::NonPositivePieceLength),
                },
            );
        }
        if t.info.length <= 0 {
            return Err(
                DecodingError { kind: ErrorKind::ValidationFailed(Reason::NonPositiveLength) },
            );
        }
        let pieces_length: u64 = t.info.pieces_length as u64;
        let length: u64 = t.info.length as u64;
        let needed: u64 = (length - 1) / pieces_length + 1;
        proof {
            lemma_div_plus_one(length - 1, pieces_length as int);
        }
        if (t.info.pieces.len() / HASH_LENGTH) as u64 != needed {
            return Err(
                DecodingError { kind: ErrorKind::ValidationFailed(Reason::PieceCountMismatch) },
            );
        }
        Ok(
            Torrent {
                announce: t.announce,
                info_hash: t.info.hash,
                hashes: t.info.pieces,
                pieces_length,
                length,
                name: t.info.name,
            },
        )
    }

    /// Decodes a descriptor and validates it.
    ///
    /// Fails with `MalformedEncoding` where `bytes` are no encoding of one
    /// value, with the first missing or ill-typed field where there is one,
    /// and else with the first rule that the fields break.
    pub fn from_bytes(bytes: &[u8]) -> (r: Result<Torrent, DecodingError>)
        ensures
            same(r, descriptor(bytes@)),
            r matches Ok(torrent) ==> consistent(torrent@),
    {
        let bencode_torrent = BencodeTorrent::try_from(bytes)?;
        Torrent::validate(bencode_torrent)
    }
}

/// The info dictionary of the descriptor that the value `root` holds.
pub open spec fn info_value(root: Value) -> Option<Value> {
    match root {
        Value::Dictionary(entries) => value_at(entries, Field::Info.key()),
        _ => None,
    }
}

/// The bytes that hold the info dictionary in the descriptor `s`.
pub open spec fn info_bytes(s: Seq<u8>) -> Seq<u8> {
    encode(info_value(decoding(s).unwrap()).unwrap())
}

/// The content identifier of a descriptor is the digest of the bytes that
/// hold its info dictionary. So two descriptors that hold the same info
/// bytes have the same identifier, whatever else they hold; and so has one
/// descriptor each time it is decoded.
pub proof fn lemma_hash_determinism(a: Seq<u8>, b: Seq<u8>)
    requires
        descriptor(a).is_ok(),
        descriptor(b).is_ok(),
        info_bytes(a) == info_bytes(b),
    ensures
        descriptor(a).unwrap().info_hash == sha1(info_bytes(a)),
        descriptor(a).unwrap().info_hash == descriptor(b).unwrap().info_hash,
{
}

/// The info bytes of a descriptor are bytes of the descriptor: they stand
/// in it as they are, from some place up to another.
pub proof fn lemma_info_bytes_in_descriptor(s: Seq<u8>)
    requires
        s.len() <= usize::MAX,
        descriptor(s).is_ok(),
    ensures
        exists|from: int, to: int|
            0 <= from <= to <= s.len() && #[trigger] s.subrange(from, to) == info_bytes(s),
{
    let root = decoding(s).unwrap();
    let chosen = choose|v: Value| valid(v, MAX_DEPTH as nat) && #[trigger] encodes_at(s, 0, v);
    assert(root == chosen);
    let entries = root->Dictionary_0;
    let i = position(entries, Field::Info.key()).unwrap();
    let body = encode_entries(entries);
    lemma_text_at_concat(s, 0, seq![DICTIONARY_START] + body, seq![END]);
    lemma_text_at_concat(s, 0, seq![DICTIONARY_START], body);
    lemma_entry_position(s, 1, entries, i);
    let at: int = 1int + encode_entries(entries.take(i)).len();
    lemma_text_at_concat(s, at, encode_bytes(entries[i].0), encode(entries[i].1));
    let from: int = at + encode_bytes(entries[i].0).len();
    let to: int = from + encode(entries[i].1).len();
    assert(s.subrange(from, to) == info_bytes(s));
}

/// A descriptor that passes validation has exactly one hash of 20 bytes for
/// each piece of its content; and one whose fields are in order but for the
/// number of its hashes is rejected for that.
pub proof fn lemma_piece_count(t: BencodeTorrentView)
    ensures
        checked(t) matches Ok(v) ==> v.hashes.len() == 20 * pieces_needed(
            v.length,
            v.pieces_length,
        ),
        t.info.pieces.len() % 20 == 0 && t.info.pieces_length > 0 && t.info.length > 0
            && t.info.pieces.len() != 20 * pieces_needed(t.info.length, t.info.pieces_length)
            ==> checked(t) == Err::<TorrentView, DecodingError>(
            invalid(Reason::PieceCountMismatch),
        ),
{
}

/// Every descriptor that decodes to metadata holds one hash of 20 bytes
/// for each piece of its content.
pub proof fn lemma_descriptor_piece_count(s: Seq<u8>)
    ensures
        descriptor(s) matches Ok(v) ==> v.hashes.len() == 20 * pieces_needed(
            v.length,
            v.pieces_length,
        ),
{
    if descriptor(s).is_ok() {
        lemma_piece_count(bencode_torrent_of(decoding(s).unwrap()).unwrap());
    }
}

} // verus!
