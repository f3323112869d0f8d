//! The exchange with the tracker: the announce request that goes out, and
//! the reply that comes back.

use vstd::prelude::*;
use vstd::slice::slice_subrange;
use vstd::string::StringExecFns;
use vstd::utf8::is_ascii_chars;
use crate::announce::UrlParts;
use crate::decimal::{decimal, lemma_decimal_canonical, push_decimal};
use crate::decoder::{decode, decoding_at};
use crate::encoding::Value;
use crate::error::{
    invalid, malformed, mismatch, DecodingError, ErrorKind, Expected, Field, Reason,
};
use crate::fields::{bytes_field, integer_field, lookup_bytes, lookup_int};
use crate::metainfo::{same, Torrent};
use crate::percent::{lemma_percent_encode_ascii, percent_encode, push_percent_encoded};
use crate::text::{
    ascii_bytes, ascii_string, ascii_text, is_ascii_bytes, push_all, push_ascii,
};
use crate::value::{Node, StructuralValue};

verus! {

/// `=`, between a parameter's name and its value.
pub const EQUALS: u8 = 61;

/// `&`, between two parameters.
pub const AMPERSAND: u8 = 38;

/// The length of one record of a compact peer list: four bytes of address
/// and two of port.
pub const PEER_LENGTH: usize = 6;

/// One parameter of a query: its name, `=`, its value.
pub open spec fn parameter(name: Seq<char>, value: Seq<u8>) -> Seq<u8> {
    ascii_bytes(name) + seq![EQUALS] + value
}

/// A query with one more parameter after an `&`.
pub open spec fn with_parameter(query: Seq<u8>, name: Seq<char>, value: Seq<u8>) -> Seq<u8> {
    query + seq![AMPERSAND] + parameter(name, value)
}

/// The query of an announce request. The identifiers go out as raw bytes,
/// percent-encoded; the numbers in decimal; and `compact` asks for the
/// compact peer list.
pub open spec fn announce_query(
    info_hash: Seq<u8>,
    peer_id: Seq<u8>,
    port: u16,
    uploaded: u64,
    downloaded: u64,
    left: u64,
) -> Seq<u8> {
    let q = parameter("info_hash"@, percent_encode(info_hash));
    let q = with_parameter(q, "peer_id"@, percent_encode(peer_id));
    let q = with_parameter(q, "port"@, decimal(port as nat));
    let q = with_parameter(q, "uploaded"@, decimal(uploaded as nat));
    let q = with_parameter(q, "downloaded"@, decimal(downloaded as nat));
    let q = with_parameter(q, "compact"@, seq![49u8]);
    with_parameter(q, "left"@, decimal(left as nat))
}

/// The URL `url` with `query` added to its query: after a `?`, and after
/// the query that `url` has already, if it has one, and an `&`; the
/// fragment of `url` stays at the end.
pub open spec fn request_text(url: UrlParts, query: Seq<u8>) -> Seq<char> {
    url.head + "?"@ + (match url.query {
        Some(q) => if q.len() > 0 {
            q + "&"@
        } else {
            Seq::empty()
        },
        None => Seq::empty(),
    }) + ascii_text(query) + (match url.fragment {
        Some(f) => "#"@ + f,
        None => Seq::empty(),
    })
}

/// Two ASCII texts in a row are ASCII.
proof fn lemma_ascii_concat(a: Seq<u8>, b: Seq<u8>)
    requires
        is_ascii_bytes(a),
        is_ascii_bytes(b),
    ensures
        is_ascii_bytes(a + b),
{
    assert forall|i: int| 0 <= i < (a + b).len() implies #[trigger] (a + b)[i] < 128 by {
        if i < a.len() {
            assert(a[i] < 128);
        } else {
            assert(b[i - a.len()] < 128);
        }
    }
}

/// Appends to `out` the separator and the parameter's name with its `=`.
fn push_name(out: &mut Vec<u8>, name: &str)
    requires
        is_ascii_chars(name@),
        is_ascii_bytes(old(out)@),
    ensures
        final(out)@ == old(out)@ + seq![AMPERSAND] + ascii_bytes(name@) + seq![EQUALS],
        is_ascii_bytes(final(out)@),
{
    out.push(AMPERSAND);
    push_ascii(out, name);
    out.push(EQUALS);
    proof {
        assert(final(out)@ =~= old(out)@ + seq![AMPERSAND] + ascii_bytes(name@) + seq![EQUALS]);
        assert forall|i: int| 0 <= i < final(out)@.len() implies #[trigger] final(out)@[i]
            < 128 by {
            if i < old(out)@.len() {
                assert(old(out)@[i] < 128);
            } else if i > old(out)@.len() && i < final(out)@.len() - 1 {
                let j = i - old(out)@.len() - 1;
                assert(final(out)@[i] == ascii_bytes(name@)[j]);
                assert('\0' <= name@[j] <= '\u{7f}');
            }
        }
    }
}

/// Appends to `out` a parameter whose value is the number `n`.
fn push_number(out: &mut Vec<u8>, name: &str, n: u64)
    requires
        is_ascii_chars(name@),
        is_ascii_bytes(old(out)@),
    ensures
        final(out)@ == with_parameter(old(out)@, name@, decimal(n as nat)),
        is_ascii_bytes(final(out)@),
{
    push_name(out, name);
    let ghost named = out@;
    push_decimal(out, n);
    proof {
        lemma_decimal_canonical(n as nat);
        lemma_ascii_concat(named, decimal(n as nat));
        assert(final(out)@ =~= with_parameter(old(out)@, name@, decimal(n as nat)));
    }
}

/// Appends to `out` a parameter whose value is `bytes`, percent-encoded.
fn push_escaped(out: &mut Vec<u8>, name: &str, bytes: &[u8])
    requires
        is_ascii_chars(name@),
        is_ascii_bytes(old(out)@),
    ensures
        final(out)@ == with_parameter(old(out)@, name@, percent_encode(bytes@)),
        is_ascii_bytes(final(out)@),
{
    push_name(out, name);
    let ghost named = out@;
    push_percent_encoded(out, bytes);
    proof {
        lemma_percent_encode_ascii(bytes@);
        lemma_ascii_concat(named, percent_encode(bytes@));
        assert(final(out)@ =~= with_parameter(old(out)@, name@, percent_encode(bytes@)));
    }
}

/// Writes the first parameter of an announce request: the content
/// identifier.
fn first_parameter(info_hash: &[u8]) -> (out: Vec<u8>)
    ensures
        out@ == parameter("info_hash"@, percent_encode(info_hash@)),
        is_ascii_bytes(out@),
{
    proof {
        reveal_strlit("info_hash");
    }
    let mut out: Vec<u8> = Vec::new();
    push_ascii(&mut out, "info_hash");
    out.push(EQUALS);
    let ghost named = out@;
    proof {
        assert forall|i: int| 0 <= i < named.len() implies #[trigger] named[i] < 128 by {
            if i < named.len() - 1 {
                assert(named[i] == ascii_bytes("info_hash"@)[i]);
                assert('\0' <= "info_hash"@[i] <= '\u{7f}');
            }
        }
    }
    push_percent_encoded(&mut out, info_hash);
    proof {
        lemma_percent_encode_ascii(info_hash@);
        lemma_ascii_concat(named, percent_encode(info_hash@));
        assert(out@ =~= parameter("info_hash"@, percent_encode(info_hash@)));
    }
    out
}

/// Writes the query of an announce request.
pub fn build_query(
    info_hash: &[u8],
    peer_id: &[u8],
    port: u16,
    uploaded: u64,
    downloaded: u64,
    left: u64,
) -> (out: Vec<u8>)
    ensures
        out@ == announce_query(info_hash@, peer_id@, port, uploaded, downloaded, left),
        is_ascii_bytes(out@),
{
    proof {
        reveal_strlit("peer_id");
        reveal_strlit("port");
        reveal_strlit("uploaded");
        reveal_strlit("downloaded");
        reveal_strlit("compact");
        reveal_strlit("left");
    }
    let mut out = first_parameter(info_hash);
    push_escaped(&mut out, "peer_id", peer_id);
    push_number(&mut out, "port", port as u64);
    push_number(&mut out, "uploaded", uploaded);
    push_number(&mut out, "downloaded", downloaded);
    push_number(&mut out, "compact", 1);
    proof {
        assert(decimal(1) =~= seq![49u8]);
    }
    push_number(&mut out, "left", left);
    out
}

impl Torrent {
    /// The URL of an announce request for this torrent.
    pub fn announce_url(
        &self,
        peer_id: &[u8],
        port: u16,
        uploaded: u64,
        downloaded: u64,
        left: u64,
    ) -> (url: String)
        ensures
            url@ == request_text(
                self@.announce,
                announce_query(self@.info_hash, peer_id@, port, uploaded, downloaded, left),
            ),
    {
        let announce = self.announce();
        let info_hash = self.info_hash();
        let query = build_query(info_hash.as_slice(), peer_id, port, uploaded, downloaded, left);
        let query_text = ascii_string(query.as_slice());
        let mut url: String = announce.head.clone();
        url.append("?");
        match &announce.query {
            Some(q) => {
                if !q.as_str().is_empty() {
                    url.append(q.as_str());
                    url.append("&");
                }
            },
            None => {},
        }
        url.append(query_text.as_str());
        match &announce.fragment {
            Some(f) => {
                url.append("#");
                url.append(f.as_str());
            },
            None => {},
        }
        proof {
            assert(url@ =~= request_text(
                self@.announce,
                announce_query(self@.info_hash, peer_id@, port, uploaded, downloaded, left),
            ));
        }
        url
    }

    /// The URL of the first announce request for this torrent: nothing has
    /// gone either way yet, and all of the content is left to fetch.
    pub fn tracker_url(&self, peer_id: &[u8], port: u16) -> (url: String)
        ensures
            url@ == request_text(
                self@.announce,
                announce_query(self@.info_hash, peer_id@, port, 0, 0, self@.length as u64),
            ),
    {
        self.announce_url(peer_id, port, 0, 0, self.length())
    }
}

/// The address of a peer: four bytes of IPv4 address, most significant
/// first, and a port.
#[derive(Debug, Clone, Copy, PartialEq, Eq)]
pub struct Peer {
    pub ip: [u8; 4],
    pub port: u16,
}

/// A `Peer` as plain values.
pub struct PeerView {
    pub ip: Seq<u8>,
    pub port: int,
}

impl View for Peer {
    type V = PeerView;

    open spec fn view(&self) -> PeerView {
        PeerView { ip: self.ip@, port: self.port as int }
    }
}

/// The peer that a record of six bytes names: the first four are the
/// address, the last two the port, most significant byte first.
pub open spec fn peer_of(record: Seq<u8>) -> PeerView {
    PeerView { ip: record.subrange(0, 4), port: record[4] * 256 + record[5] }
}

/// The peers that a compact list names, in the order of its records.
pub open spec fn peers_of(blob: Seq<u8>) -> Seq<PeerView> {
    Seq::new((blob.len() / 6) as nat, |i: int| peer_of(blob.subrange(6 * i, 6 * i + 6)))
}

/// The views of a run of peers.
pub open spec fn peer_views(peers: Seq<Peer>) -> Seq<PeerView> {
    Seq::new(peers.len(), |i: int| peers[i]@)
}

/// Reads one record of a compact peer list. Fails, with `MalformedPeerList`,
/// exactly where `bytes` are not six.
pub fn peer_from_bytes(bytes: &[u8]) -> (r: Result<Peer, DecodingError>)
    ensures
        match r {
            Ok(peer) => bytes@.len() == 6 && peer@ == peer_of(bytes@),
            Err(e) => bytes@.len() != 6 && e == invalid(Reason::MalformedPeerList),
        },
{
    if bytes.len() != PEER_LENGTH {
        return Err(DecodingError { kind: ErrorKind::ValidationFailed(Reason::MalformedPeerList) });
    }
    let ip: [u8; 4] = [bytes[0], bytes[1], bytes[2], bytes[3]];
    let port: u16 = (bytes[4] as u16) * 256 + (bytes[5] as u16);
    proof {
        assert(ip@ =~= bytes@.subrange(0, 4));
    }
    Ok(Peer { ip, port })
}

/// A tracker's reply as it was written: the interval, and the peers as a
/// compact list.
#[derive(Debug)]
pub struct BencodeTrackerResponse {
    pub interval: u64,
    pub peers: Vec<u8>,
}

/// A `BencodeTrackerResponse` as plain values.
pub struct ReplyView {
    pub interval: int,
    pub peers: Seq<u8>,
}

impl View for BencodeTrackerResponse {
    type V = ReplyView;

    open spec fn view(&self) -> ReplyView {
        ReplyView { interval: self.interval as int, peers: self.peers@ }
    }
}

/// A tracker's reply: the seconds to wait before the next request, and the
/// peers in the order in which the reply named them.
#[derive(Debug)]
pub struct TrackerResponse {
    pub interval: u64,
    pub peers: Vec<Peer>,
}

/// A `TrackerResponse` as plain values.
pub struct ResponseView {
    pub interval: int,
    pub peers: Seq<PeerView>,
}

impl View for TrackerResponse {
    type V = ResponseView;

    open spec fn view(&self) -> ResponseView {
        ResponseView { interval: self.interval as int, peers: peer_views(self.peers@) }
    }
}

/// Why an exchange with the tracker came to nothing.
#[derive(Debug)]
pub enum ResponseError {
    /// The reply could not be decoded.
    Decoding(DecodingError),
    /// The request could not be made, or no reply came back.
    Failed(String),
}

/// The reply that the value `root` holds: its `interval`, which must be
/// positive, and its `peers`, which must be a compact list.
pub open spec fn reply_of(root: Value) -> Result<ReplyView, DecodingError> {
    match root {
        Value::Dictionary(entries) => match integer_field(Field::Interval, entries) {
            Err(e) => Err(e),
            Ok(interval) => match bytes_field(Field::Peers, entries) {
                Err(e) => Err(e),
                Ok(peers) => if interval <= 0 {
                    Err(invalid(Reason::NonPositiveInterval))
                } else {
                    Ok(ReplyView { interval, peers })
                },
            },
        },
        _ => Err(mismatch(Field::Root, Expected::Dictionary)),
    }
}

/// The reply that the bytes `s` hold at their beginning.
pub open spec fn reply(s: Seq<u8>) -> Result<ReplyView, DecodingError> {
    match decoding_at(s, 0) {
        None => Err(malformed()),
        Some((root, _)) => reply_of(root),
    }
}

/// The peers of the reply `r`, unpacked.
pub open spec fn unpacked(r: ReplyView) -> Result<ResponseView, DecodingError> {
    if r.peers.len() % 6 != 0 {
        Err(invalid(Reason::MalformedPeerList))
    } else {
        Ok(ResponseView { interval: r.interval, peers: peers_of(r.peers) })
    }
}

/// What the bytes `s` of a reply come to.
pub open spec fn response(s: Seq<u8>) -> Result<ResponseView, DecodingError> {
    match reply(s) {
        Err(e) => Err(e),
        Ok(r) => unpacked(r),
    }
}

/// Whether an exchange ended as the model says: with the same reply, or
/// with the same decoding failure.
pub open spec fn same_response(
    r: Result<TrackerResponse, ResponseError>,
    m: Result<ResponseView, DecodingError>,
) -> bool {
    match (r, m) {
        (Ok(x), Ok(y)) => x@ == y,
        (Err(ResponseError::Decoding(e)), Err(f)) => e == f,
        _ => false,
    }
}

impl BencodeTrackerResponse {
    /// Reads the reply that `root` holds.
    pub fn from_node(root: &Node) -> (r: Result<BencodeTrackerResponse, DecodingError>)
        ensures
            same(r, reply_of(root@)),
    {
        match &root.value {
            StructuralValue::Dictionary(dict) => {
                let interval: i64 = lookup_int(Field::Interval, dict)?;
                let peers = lookup_bytes(Field::Peers, dict)?;
                if interval <= 0 {
                    return Err(
                        DecodingError {
                            kind: ErrorKind::ValidationFailed(Reason::NonPositiveInterval),
                        },
                    );
                }
                let mut copy: Vec<u8> = Vec::new();
                push_all(&mut copy, peers.as_slice());
                Ok(BencodeTrackerResponse { interval: interval as u64, peers: copy })
            },
            _ => Err(
                DecodingError {
                    kind: ErrorKind::FieldTypeMismatch(Field::Root, Expected::Dictionary),
                },
            ),
        }
    }

    /// Decodes the value at the beginning of `bytes` and reads the reply in
    /// it. Bytes after the value are left alone.
    pub fn try_from(bytes: &[u8]) -> (r: Result<BencodeTrackerResponse, DecodingError>)
        ensures
            same(r, reply(bytes@)),
    {
        let (root, _) = decode(bytes, 0)?;
        BencodeTrackerResponse::from_node(&root)
    }
}

impl TrackerResponse {
    /// Unpacks the compact peer list of `bencode`. Fails, with
    /// `MalformedPeerList`, exactly where the list is not made of records of
    /// six bytes.
    pub fn try_from(bencode: BencodeTrackerResponse) -> (r: Result<TrackerResponse, ResponseError>)
        ensures
            same_response(r, unpacked(bencode@)),
    {
        let blob = bencode.peers.as_slice();
        if blob.len() % PEER_LENGTH != 0 {
            return Err(
                ResponseError::Decoding(
                    DecodingError { kind: ErrorKind::ValidationFailed(Reason::MalformedPeerList) },
                ),
            );
        }
        let count: usize = blob.len() / PEER_LENGTH;
        let mut peers: Vec<Peer> = Vec::new();
        let mut i: usize = 0;
        while i < count
            invariant
                blob@ == bencode.peers@,
                blob.len() % 6 == 0,
                count == blob.len() / 6,
                i <= count,
                peers.len() == i,
                forall|j: int| 0 <= j < i ==> (#[trigger] peers[j])@ == peers_of(blob@)[j],
            decreases count - i,
        {
            let record = slice_subrange(blob, i * PEER_LENGTH, i * PEER_LENGTH + PEER_LENGTH);
            match peer_from_bytes(record) {
                Ok(peer) => peers.push(peer),
                Err(e) => {
                    return Err(ResponseError::Decoding(e));
                },
            }
            i = i + 1;
        }
        proof {
            assert(peer_views(peers@) =~= peers_of(blob@));
        }
        Ok(TrackerResponse { interval: bencode.interval, peers })
    }

    /// What an exchange with the tracker comes to: the reply that the bytes
    /// hold where bytes came back, and else the failure that the transport
    /// gave as its reason, passed on as it is.
    pub fn from_exchange(outcome: Result<Vec<u8>, String>) -> (r: Result<
        TrackerResponse,
        ResponseError,
    >)
        ensures
            match outcome {
                Ok(bytes) => same_response(r, response(bytes@)),
                Err(reason) => r == Err::<TrackerResponse, ResponseError>(
                    ResponseError::Failed(reason),
                ),
            },
    {
        match outcome {
            Ok(bytes) => TrackerResponse::from_bytes(bytes.as_slice()),
            Err(reason) => Err(ResponseError::Failed(reason)),
        }
    }

    /// Decodes a tracker's reply from the bytes that came back.
    pub fn from_bytes(bytes: &[u8]) -> (r: Result<TrackerResponse, ResponseError>)
        ensures
            same_response(r, response(bytes@)),
    {
        match BencodeTrackerResponse::try_from(bytes) {
            Ok(bencode) => TrackerResponse::try_from(bencode),
            Err(e) => Err(ResponseError::Decoding(e)),
        }
    }
}

} // verus!
