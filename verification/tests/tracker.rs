use bittorrent_client::percent::push_percent_encoded;
use bittorrent_client::tracker::{build_query, peer_from_bytes};
use bittorrent_client::{
    BencodeTrackerResponse, DecodingError, ErrorKind, Expected, Field, Peer, Reason,
    ResponseError, Torrent, TrackerResponse,
};
use percent_encoding::percent_decode_str;
use url::Url;

const PEER_ID: &[u8; 20] = b"-RS0001-123456789012";

const SAMPLE_HASH: [u8; 20] = [
    184, 196, 97, 62, 129, 79, 19, 125, 6, 131, 51, 163, 117, 168, 136, 204, 154, 47, 53, 32,
];

fn torrent(announce: &str) -> Torrent {
    let mut bytes = format!("d8:announce{}:{}4:info", announce.len(), announce).into_bytes();
    bytes.extend(b"d6:lengthi32768e4:name6:sample12:piece lengthi16384e6:pieces40:");
    bytes.extend(0u8..40);
    bytes.extend(b"ee");
    Torrent::from_bytes(&bytes).unwrap()
}

/// The value of the parameter `name` in the query of `url`, still escaped.
fn raw_parameter(url: &str, name: &str) -> String {
    let query = url.split_once('?').unwrap().1;
    let query = query.split('#').next().unwrap();
    let prefix = format!("{}=", name);
    let found: Vec<&str> = query.split('&').filter(|p| p.starts_with(&prefix)).collect();
    assert_eq!(found.len(), 1, "{} in {}", name, url);
    found[0][prefix.len()..].to_string()
}

fn escaped(bytes: &[u8]) -> String {
    let mut out = Vec::new();
    push_percent_encoded(&mut out, bytes);
    String::from_utf8(out).unwrap()
}

fn decoding_failure(bytes: &[u8]) -> ErrorKind {
    match TrackerResponse::from_bytes(bytes) {
        Err(ResponseError::Decoding(e)) => e.kind,
        other => panic!("no decoding failure: {:?}", other),
    }
}

#[test]
fn the_request_names_what_is_left_and_asks_for_the_compact_list() {
    let url = torrent("http://tracker.example/announce").tracker_url(PEER_ID, 6881);
    assert_eq!(raw_parameter(&url, "left"), "32768");
    assert_eq!(raw_parameter(&url, "compact"), "1");
    let info_hash: Vec<u8> = percent_decode_str(&raw_parameter(&url, "info_hash")).collect();
    assert_eq!(info_hash, SAMPLE_HASH);
    let peer_id: Vec<u8> = percent_decode_str(&raw_parameter(&url, "peer_id")).collect();
    assert_eq!(peer_id, PEER_ID);
    assert_eq!(raw_parameter(&url, "port"), "6881");
    assert_eq!(raw_parameter(&url, "uploaded"), "0");
    assert_eq!(raw_parameter(&url, "downloaded"), "0");
}

#[test]
fn the_request_is_written_out_exactly() {
    let url = torrent("http://tracker.example/announce").tracker_url(PEER_ID, 6881);
    assert_eq!(
        url,
        "http://tracker.example/announce?info_hash=%B8%C4a%3E%81O%13%7D%06%833%A3u%A8%88%CC%9A%2F5%20\
         &peer_id=-RS0001-123456789012&port=6881&uploaded=0&downloaded=0&compact=1&left=32768"
    );
}

#[test]
fn the_request_is_a_url_with_the_parameters_in_it() {
    let url = torrent("http://tracker.example/announce").tracker_url(b"abcdefghij0123456789", 51413);
    let parsed = Url::parse(&url).unwrap();
    assert_eq!(parsed.host_str(), Some("tracker.example"));
    assert_eq!(parsed.path(), "/announce");
    let pairs: Vec<(String, String)> =
        parsed.query_pairs().map(|(k, v)| (k.into_owned(), v.into_owned())).collect();
    let names: Vec<&str> = pairs.iter().map(|(k, _)| k.as_str()).collect();
    assert_eq!(names, ["info_hash", "peer_id", "port", "uploaded", "downloaded", "compact", "left"]);
    assert_eq!(pairs[1].1, "abcdefghij0123456789");
    assert_eq!(pairs[2].1, "51413");
    assert_eq!(pairs[5].1, "1");
    assert_eq!(pairs[6].1, "32768");
}

#[test]
fn the_port_is_the_port_and_the_identity_the_identity() {
    let url = torrent("http://tracker.example/announce").tracker_url(PEER_ID, 1);
    assert_eq!(raw_parameter(&url, "port"), "1");
    assert_eq!(raw_parameter(&url, "peer_id"), "-RS0001-123456789012");
    let url = torrent("http://tracker.example/announce").tracker_url(PEER_ID, u16::MAX);
    assert_eq!(raw_parameter(&url, "port"), "65535");
}

#[test]
fn later_requests_carry_the_counters() {
    let url = torrent("http://tracker.example/announce").announce_url(PEER_ID, 6881, 10, 16384, 16384);
    assert_eq!(raw_parameter(&url, "uploaded"), "10");
    assert_eq!(raw_parameter(&url, "downloaded"), "16384");
    assert_eq!(raw_parameter(&url, "left"), "16384");
    let url = torrent("http://tracker.example/announce").announce_url(PEER_ID, 0, u64::MAX, 0, u64::MAX);
    assert_eq!(raw_parameter(&url, "uploaded"), "18446744073709551615");
    assert_eq!(raw_parameter(&url, "left"), "18446744073709551615");
    assert_eq!(raw_parameter(&url, "port"), "0");
}

#[test]
fn a_query_and_a_fragment_of_the_announce_url_stay() {
    let query = "info_hash=%B8%C4a%3E%81O%13%7D%06%833%A3u%A8%88%CC%9A%2F5%20\
                 &peer_id=-RS0001-123456789012&port=6881&uploaded=0&downloaded=0&compact=1&left=32768";
    let url = torrent("http://tracker.example/announce?passkey=abc").tracker_url(PEER_ID, 6881);
    assert_eq!(url, format!("http://tracker.example/announce?passkey=abc&{}", query));
    let url = torrent("http://tracker.example/announce?").tracker_url(PEER_ID, 6881);
    assert_eq!(url, format!("http://tracker.example/announce?{}", query));
    let url = torrent("http://tracker.example/announce#top").tracker_url(PEER_ID, 6881);
    assert_eq!(url, format!("http://tracker.example/announce?{}#top", query));
    let url = torrent("http://tracker.example/announce?a=1#top").tracker_url(PEER_ID, 6881);
    assert_eq!(url, format!("http://tracker.example/announce?a=1&{}#top", query));

    // What the url crate itself appends to the same URLs.
    for announce in ["http://tracker.example/announce?passkey=abc", "http://tracker.example/a#top"] {
        let mut theirs = Url::parse(announce).unwrap();
        theirs.query_pairs_mut().append_pair("port", "6881");
        let ours = torrent(announce).tracker_url(PEER_ID, 6881);
        let (before, after) = theirs.as_str().split_once("port=6881").unwrap();
        assert!(ours.starts_with(before.trim_end_matches("port=6881")), "{} / {}", ours, theirs);
        assert!(ours.ends_with(after), "{} / {}", ours, theirs);
    }
}

#[test]
fn query_is_built_from_raw_bytes() {
    let query = build_query(&[0x00, 0xff, b' ', b'a'], b"id", 80, 1, 2, 3);
    assert_eq!(
        String::from_utf8(query).unwrap(),
        "info_hash=%00%FF%20a&peer_id=id&port=80&uploaded=1&downloaded=2&compact=1&left=3"
    );
    let query = build_query(b"", b"", 0, 0, 0, 0);
    assert_eq!(
        String::from_utf8(query).unwrap(),
        "info_hash=&peer_id=&port=0&uploaded=0&downloaded=0&compact=1&left=0"
    );
}

#[test]
fn percent_encoding_escapes_all_but_unreserved_bytes() {
    assert_eq!(escaped(&[0x12, 0x34, b'a', b' ', b'~', 0xff, 0x00, b'%', b'+']), "%124a%20~%FF%00%25%2B");
    assert_eq!(escaped(b""), "");
    assert_eq!(
        escaped(b"ABCXYZabcxyz0123456789-._~"),
        "ABCXYZabcxyz0123456789-._~"
    );
    assert_eq!(escaped(b"*&=/?#@"), "%2A%26%3D%2F%3F%23%40");
}

#[test]
fn percent_decoding_gives_every_byte_back() {
    let all: Vec<u8> = (0..=255).collect();
    let text = escaped(&all);
    assert!(text.is_ascii());
    let back: Vec<u8> = percent_decode_str(&text).collect();
    assert_eq!(back, all);
    for b in 0..=255u8 {
        let back: Vec<u8> = percent_decode_str(&escaped(&[b, b'%', b])).collect();
        assert_eq!(back, [b, b'%', b]);
    }
}

#[test]
fn one_record_gives_one_peer_and_seven_bytes_none() {
    let response = TrackerResponse::try_from(BencodeTrackerResponse {
        interval: 900,
        peers: vec![192, 168, 1, 10, 0x1F, 0x90],
    })
    .unwrap();
    assert_eq!(response.interval, 900);
    assert_eq!(response.peers, [Peer { ip: [192, 168, 1, 10], port: 8080 }]);
    assert_eq!(response.peers[0].port, 0x1F90);

    let seven = TrackerResponse::try_from(BencodeTrackerResponse {
        interval: 900,
        peers: vec![192, 168, 1, 10, 0x1F, 0x90, 7],
    });
    match seven {
        Err(ResponseError::Decoding(e)) => {
            assert_eq!(e.kind, ErrorKind::ValidationFailed(Reason::MalformedPeerList))
        }
        other => panic!("not rejected: {:?}", other),
    }
}

#[test]
fn peers_keep_their_order_and_their_duplicates() {
    let blob = vec![
        10, 0, 0, 1, 0, 1, //
        255, 255, 255, 255, 255, 255, //
        10, 0, 0, 1, 0, 1, //
        0, 0, 0, 0, 0, 0, //
        1, 2, 3, 4, 1, 0,
    ];
    let response = TrackerResponse::try_from(BencodeTrackerResponse { interval: 1, peers: blob }).unwrap();
    assert_eq!(
        response.peers,
        [
            Peer { ip: [10, 0, 0, 1], port: 1 },
            Peer { ip: [255, 255, 255, 255], port: 65535 },
            Peer { ip: [10, 0, 0, 1], port: 1 },
            Peer { ip: [0, 0, 0, 0], port: 0 },
            Peer { ip: [1, 2, 3, 4], port: 256 },
        ]
    );
    let none = TrackerResponse::try_from(BencodeTrackerResponse { interval: 1, peers: vec![] }).unwrap();
    assert!(none.peers.is_empty());
}

#[test]
fn peer_lists_must_be_whole_records() {
    for len in [1usize, 5, 7, 11, 13] {
        let result = TrackerResponse::try_from(BencodeTrackerResponse { interval: 1, peers: vec![0; len] });
        assert!(matches!(
            result,
            Err(ResponseError::Decoding(DecodingError {
                kind: ErrorKind::ValidationFailed(Reason::MalformedPeerList)
            }))
        ));
    }
}

#[test]
fn one_record_is_six_bytes() {
    assert_eq!(
        peer_from_bytes(&[192, 168, 1, 10, 0x1F, 0x90]).unwrap(),
        Peer { ip: [192, 168, 1, 10], port: 8080 }
    );
    assert_eq!(peer_from_bytes(&[1, 2, 3, 4, 0xAB, 0xCD]).unwrap().port, 0xABCD);
    for len in [0usize, 1, 5, 7, 12] {
        assert_eq!(
            peer_from_bytes(&vec![0; len]).unwrap_err().kind,
            ErrorKind::ValidationFailed(Reason::MalformedPeerList)
        );
    }
}

#[test]
fn replies_are_decoded() {
    let mut bytes = b"d8:intervali1800e5:peers12:".to_vec();
    bytes.extend([192, 168, 1, 10, 0x1F, 0x90, 10, 0, 0, 2, 0x1A, 0xE1]);
    bytes.push(b'e');
    let response = TrackerResponse::from_bytes(&bytes).unwrap();
    assert_eq!(response.interval, 1800);
    assert_eq!(
        response.peers,
        [Peer { ip: [192, 168, 1, 10], port: 8080 }, Peer { ip: [10, 0, 0, 2], port: 6881 }]
    );

    let first = BencodeTrackerResponse::try_from(&bytes).unwrap();
    assert_eq!(first.interval, 1800);
    assert_eq!(first.peers.len(), 12);

    // Other keys do no harm, nor do bytes after the value.
    let mut more = b"d8:completei5e10:incompletei3e8:intervali60e5:peers6:".to_vec();
    more.extend([1, 2, 3, 4, 0, 80]);
    more.extend(b"e\r\n");
    let response = TrackerResponse::from_bytes(&more).unwrap();
    assert_eq!(response.interval, 60);
    assert_eq!(response.peers, [Peer { ip: [1, 2, 3, 4], port: 80 }]);
}

#[test]
fn replies_that_are_not_in_order_are_rejected() {
    let mismatch = |field, expected| ErrorKind::FieldTypeMismatch(field, expected);
    assert_eq!(decoding_failure(b""), ErrorKind::MalformedEncoding);
    assert_eq!(decoding_failure(b"d8:intervali1800e5:peers12:abce"), ErrorKind::MalformedEncoding);
    assert_eq!(decoding_failure(b"<html>"), ErrorKind::MalformedEncoding);
    assert_eq!(decoding_failure(b"i1e"), mismatch(Field::Root, Expected::Dictionary));
    assert_eq!(decoding_failure(b"de"), ErrorKind::FieldMissing(Field::Interval));
    assert_eq!(
        decoding_failure(b"d14:failure reason5:nopese"),
        ErrorKind::FieldMissing(Field::Interval)
    );
    assert_eq!(decoding_failure(b"d8:intervali1ee"), ErrorKind::FieldMissing(Field::Peers));
    assert_eq!(
        decoding_failure(b"d8:interval1:15:peers0:e"),
        mismatch(Field::Interval, Expected::Integer)
    );
    assert_eq!(
        decoding_failure(b"d8:intervali1e5:peersld2:ip7:1.2.3.44:porti80eeee"),
        mismatch(Field::Peers, Expected::ByteString)
    );
    assert_eq!(
        decoding_failure(b"d8:intervali0e5:peers0:e"),
        ErrorKind::ValidationFailed(Reason::NonPositiveInterval)
    );
    assert_eq!(
        decoding_failure(b"d8:intervali-1e5:peers0:e"),
        ErrorKind::ValidationFailed(Reason::NonPositiveInterval)
    );
    assert_eq!(
        decoding_failure(b"d8:intervali1e5:peers7:abcdefge"),
        ErrorKind::ValidationFailed(Reason::MalformedPeerList)
    );
}

#[test]
fn reply_failures_say_what_went_wrong() {
    let say = |bytes: &[u8]| match TrackerResponse::from_bytes(bytes) {
        Err(ResponseError::Decoding(e)) => e.to_string(),
        other => panic!("no decoding failure: {:?}", other),
    };
    assert_eq!(say(b"de"), "interval field not found");
    assert_eq!(say(b"d8:intervali1ee"), "peers field not found");
    assert_eq!(say(b"d8:intervali0e5:peers0:e"), "interval is not positive");
    assert_eq!(say(b"d8:intervali1e5:peers7:abcdefge"), "peers is not a multiple of 6 bytes long");
}

#[test]
fn a_failed_exchange_is_passed_on() {
    match TrackerResponse::from_exchange(Err("connection refused".to_string())) {
        Err(ResponseError::Failed(reason)) => assert_eq!(reason, "connection refused"),
        other => panic!("not passed on: {:?}", other),
    }
    let mut bytes = b"d8:intervali1800e5:peers6:".to_vec();
    bytes.extend([192, 168, 1, 10, 0x1F, 0x90]);
    bytes.push(b'e');
    let response = TrackerResponse::from_exchange(Ok(bytes)).unwrap();
    assert_eq!(response.interval, 1800);
    assert_eq!(response.peers, [Peer { ip: [192, 168, 1, 10], port: 8080 }]);
    match TrackerResponse::from_exchange(Ok(b"d8:intervali1800ee".to_vec())) {
        Err(ResponseError::Decoding(e)) => assert_eq!(e.kind, ErrorKind::FieldMissing(Field::Peers)),
        other => panic!("no decoding failure: {:?}", other),
    }
}
