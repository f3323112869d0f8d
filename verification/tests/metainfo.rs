use bittorrent_client::{
    BencodeTorrent, DecodingError, ErrorKind, Expected, Field, Reason, Torrent, TorrentFile,
};

const SAMPLE_HASH: [u8; 20] = [
    184, 196, 97, 62, 129, 79, 19, 125, 6, 131, 51, 163, 117, 168, 136, 204, 154, 47, 53, 32,
];

fn byte_string(bytes: &[u8]) -> Vec<u8> {
    let mut out = bytes.len().to_string().into_bytes();
    out.push(b':');
    out.extend_from_slice(bytes);
    out
}

fn info(length: i64, name: &[u8], piece_length: i64, pieces: &[u8]) -> Vec<u8> {
    let mut out = b"d6:lengthi".to_vec();
    out.extend(length.to_string().into_bytes());
    out.extend(b"e4:name");
    out.extend(byte_string(name));
    out.extend(b"12:piece lengthi");
    out.extend(piece_length.to_string().into_bytes());
    out.extend(b"e6:pieces");
    out.extend(byte_string(pieces));
    out.push(b'e');
    out
}

fn descriptor(announce: &[u8], info: &[u8]) -> Vec<u8> {
    let mut out = b"d8:announce".to_vec();
    out.extend(byte_string(announce));
    out.extend(b"4:info");
    out.extend_from_slice(info);
    out.push(b'e');
    out
}

fn sample_pieces() -> Vec<u8> {
    (0u8..40).collect()
}

fn sample() -> Vec<u8> {
    descriptor(b"http://tracker.example/announce", &info(32768, b"sample", 16384, &sample_pieces()))
}

fn kind(bytes: &[u8]) -> ErrorKind {
    Torrent::from_bytes(bytes).unwrap_err().kind
}

#[test]
fn a_descriptor_with_two_pieces_is_accepted() {
    let torrent = Torrent::from_bytes(&sample()).unwrap();
    assert_eq!(torrent.hashes().len() / 20, 2);
    assert_eq!(torrent.piece_count(), 2);
    assert_eq!(torrent.pieces_length(), 16384);
    assert_eq!(torrent.length(), 32768);
    assert_eq!(torrent.name(), "sample");
    assert_eq!(torrent.hashes(), &sample_pieces());
    assert_eq!(torrent.announce().head, "http://tracker.example/announce");
    assert_eq!(torrent.announce().query, None);
    assert_eq!(torrent.announce().fragment, None);
    assert_eq!(torrent.announce().text(), "http://tracker.example/announce");
}

#[test]
fn info_hash_is_the_sha1_of_the_info_bytes() {
    let torrent = Torrent::from_bytes(&sample()).unwrap();
    assert_eq!(torrent.info_hash(), SAMPLE_HASH);

    let small = descriptor(b"http://t.example/", &info(1, b"a", 1, &[b'x'; 20]));
    let torrent = Torrent::from_bytes(&small).unwrap();
    assert_eq!(
        torrent.info_hash(),
        [119, 108, 132, 100, 224, 134, 120, 235, 10, 191, 59, 142, 193, 108, 114, 198, 15, 154, 210, 171]
    );
}

#[test]
fn info_hash_is_the_same_each_time() {
    let first = Torrent::from_bytes(&sample()).unwrap();
    let second = Torrent::from_bytes(&sample()).unwrap();
    assert_eq!(first.info_hash(), second.info_hash());
}

#[test]
fn info_hash_ignores_what_is_outside_info() {
    let info = info(32768, b"sample", 16384, &sample_pieces());
    let one = Torrent::from_bytes(&descriptor(b"http://tracker.example/announce", &info)).unwrap();
    let other = Torrent::from_bytes(&descriptor(b"https://other.example:8080/a?key=1", &info)).unwrap();
    assert_eq!(one.info_hash(), other.info_hash());

    // A further key outside info, and info not the last entry.
    let mut bytes = b"d8:announce17:http://t.example/7:comment5:hello4:info".to_vec();
    bytes.extend_from_slice(&info);
    bytes.extend(b"5:zzzzzi1ee");
    let third = Torrent::from_bytes(&bytes).unwrap();
    assert_eq!(third.info_hash(), SAMPLE_HASH);
}

#[test]
fn info_hash_changes_with_one_byte_of_info() {
    let one = Torrent::from_bytes(&sample()).unwrap();
    let renamed = descriptor(
        b"http://tracker.example/announce",
        &info(32768, b"sbmple", 16384, &sample_pieces()),
    );
    let other = Torrent::from_bytes(&renamed).unwrap();
    assert_ne!(one.info_hash(), other.info_hash());
}

#[test]
fn info_hash_follows_the_bytes_and_not_the_order_of_keys() {
    // The same fields in another order are other bytes, and another digest.
    let reordered = b"d4:name6:sample6:lengthi32768e12:piece lengthi16384e6:pieces40:";
    let mut info = reordered.to_vec();
    info.extend(sample_pieces());
    info.push(b'e');
    let torrent = Torrent::from_bytes(&descriptor(b"http://tracker.example/announce", &info)).unwrap();
    assert_eq!(torrent.length(), 32768);
    assert_ne!(torrent.info_hash(), SAMPLE_HASH);
}

#[test]
fn piece_count_must_match() {
    let pieces = sample_pieces();
    for (length, piece_length) in [(32768, 16384), (16385, 16384), (32767, 16384), (2, 1), (40, 39)] {
        let bytes = descriptor(b"http://t.example/", &info(length, b"n", piece_length, &pieces));
        let torrent = Torrent::from_bytes(&bytes).unwrap();
        assert_eq!(torrent.hashes().len() as u64, 20 * ((length as u64 + piece_length as u64 - 1) / piece_length as u64));
        assert_eq!(torrent.piece_count(), 2);
    }
    for (length, piece_length) in [(32769, 16384), (16384, 16384), (1, 1), (3, 1), (i64::MAX, 1), (i64::MAX, i64::MAX)] {
        let bytes = descriptor(b"http://t.example/", &info(length, b"n", piece_length, &pieces));
        assert_eq!(kind(&bytes), ErrorKind::ValidationFailed(Reason::PieceCountMismatch));
    }
    let largest = descriptor(b"http://t.example/", &info(i64::MAX, b"n", i64::MAX, &[7; 20]));
    assert_eq!(Torrent::from_bytes(&largest).unwrap().piece_count(), 1);
}

#[test]
fn pieces_must_be_whole_hashes() {
    for len in [1usize, 19, 21, 39, 41] {
        let bytes = descriptor(b"http://t.example/", &info(1, b"n", 1, &vec![0; len]));
        assert_eq!(kind(&bytes), ErrorKind::ValidationFailed(Reason::PiecesNotMultipleOf20));
    }
    let empty = descriptor(b"http://t.example/", &info(1, b"n", 1, b""));
    assert_eq!(kind(&empty), ErrorKind::ValidationFailed(Reason::PieceCountMismatch));
}

#[test]
fn lengths_must_be_positive() {
    for piece_length in [0, -1, i64::MIN] {
        let bytes = descriptor(b"http://t.example/", &info(1, b"n", piece_length, &[0; 20]));
        assert_eq!(kind(&bytes), ErrorKind::ValidationFailed(Reason::NonPositivePieceLength));
    }
    for length in [0, -1, i64::MIN] {
        let bytes = descriptor(b"http://t.example/", &info(length, b"n", 1, &[0; 20]));
        assert_eq!(kind(&bytes), ErrorKind::ValidationFailed(Reason::NonPositiveLength));
    }
}

#[test]
fn announce_must_be_an_absolute_url() {
    for announce in [&b"not a url"[..], b"", b"/announce", b"tracker.example/announce", b"http://"] {
        let bytes = descriptor(announce, &info(1, b"n", 1, &[0; 20]));
        assert_eq!(
            kind(&bytes),
            ErrorKind::ValidationFailed(Reason::InvalidAnnounceUrl),
            "{:?}",
            announce
        );
    }
}

#[test]
fn announce_is_kept_as_the_url_crate_writes_it() {
    let bytes = descriptor(b"HTTP://Tracker.Example:80/a/../b?x=1&y=2#frag", &info(1, b"n", 1, &[0; 20]));
    let torrent = Torrent::from_bytes(&bytes).unwrap();
    assert_eq!(torrent.announce().head, "http://tracker.example/b");
    assert_eq!(torrent.announce().query.as_deref(), Some("x=1&y=2"));
    assert_eq!(torrent.announce().fragment.as_deref(), Some("frag"));
    assert_eq!(torrent.announce().text(), "http://tracker.example/b?x=1&y=2#frag");

    let udp = descriptor(b"udp://tracker.example:6969", &info(1, b"n", 1, &[0; 20]));
    let torrent = Torrent::from_bytes(&udp).unwrap();
    assert_eq!(torrent.announce().head, "udp://tracker.example:6969");
}

#[test]
fn reports_the_first_missing_field() {
    assert_eq!(kind(b"de"), ErrorKind::FieldMissing(Field::Info));
    assert_eq!(kind(b"d8:announce1:ae"), ErrorKind::FieldMissing(Field::Info));
    assert_eq!(kind(b"d4:infodee"), ErrorKind::FieldMissing(Field::Announce));
    let announce = b"http://t.example/";
    assert_eq!(kind(&descriptor(announce, b"de")), ErrorKind::FieldMissing(Field::Pieces));
    assert_eq!(
        kind(&descriptor(announce, b"d6:pieces0:e")),
        ErrorKind::FieldMissing(Field::PieceLength)
    );
    assert_eq!(
        kind(&descriptor(announce, b"d12:piece lengthi1e6:pieces0:e")),
        ErrorKind::FieldMissing(Field::Length)
    );
    assert_eq!(
        kind(&descriptor(announce, b"d6:lengthi1e12:piece lengthi1e6:pieces0:e")),
        ErrorKind::FieldMissing(Field::Name)
    );
    // The key is `piece length`, with a space.
    assert_eq!(
        kind(&descriptor(announce, b"d6:lengthi1e4:name1:n13:pieces_lengthi1e6:pieces0:e")),
        ErrorKind::FieldMissing(Field::PieceLength)
    );
}

#[test]
fn reports_the_first_ill_typed_field() {
    let mismatch = |field, expected| ErrorKind::FieldTypeMismatch(field, expected);
    assert_eq!(kind(b"i1e"), mismatch(Field::Root, Expected::Dictionary));
    assert_eq!(kind(b"le"), mismatch(Field::Root, Expected::Dictionary));
    assert_eq!(kind(b"4:spam"), mismatch(Field::Root, Expected::Dictionary));
    assert_eq!(kind(b"d8:announcei1e4:infodee"), mismatch(Field::Announce, Expected::Text));
    assert_eq!(kind(b"d8:announce2:\xff\xfe4:infodee"), mismatch(Field::Announce, Expected::Text));
    let announce = b"http://t.example/";
    assert_eq!(kind(&descriptor(announce, b"i1e")), mismatch(Field::Info, Expected::Dictionary));
    assert_eq!(kind(&descriptor(announce, b"le")), mismatch(Field::Info, Expected::Dictionary));
    assert_eq!(
        kind(&descriptor(announce, b"d6:piecesi1ee")),
        mismatch(Field::Pieces, Expected::ByteString)
    );
    assert_eq!(
        kind(&descriptor(announce, b"d12:piece length1:16:pieces0:e")),
        mismatch(Field::PieceLength, Expected::Integer)
    );
    assert_eq!(
        kind(&descriptor(announce, b"d6:lengthle12:piece lengthi1e6:pieces0:e")),
        mismatch(Field::Length, Expected::Integer)
    );
    assert_eq!(
        kind(&descriptor(announce, b"d6:lengthi1e4:namei1e12:piece lengthi1e6:pieces0:e")),
        mismatch(Field::Name, Expected::Text)
    );
    assert_eq!(
        kind(&descriptor(announce, &info(1, b"\xc3\x28", 1, &[0; 20]))),
        mismatch(Field::Name, Expected::Text)
    );
}

#[test]
fn fields_come_before_rules() {
    // An ill-typed name is reported although the announce text is no URL
    // and the lengths are not positive.
    let bytes = descriptor(b"nonsense", b"d6:lengthi0e4:namei1e12:piece lengthi0e6:pieces1:xe");
    assert_eq!(kind(&bytes), ErrorKind::FieldTypeMismatch(Field::Name, Expected::Text));
    let bytes = descriptor(b"nonsense", &info(0, b"n", 0, b"x"));
    assert_eq!(kind(&bytes), ErrorKind::ValidationFailed(Reason::InvalidAnnounceUrl));
    let bytes = descriptor(b"http://t.example/", &info(0, b"n", 0, b"x"));
    assert_eq!(kind(&bytes), ErrorKind::ValidationFailed(Reason::PiecesNotMultipleOf20));
    let bytes = descriptor(b"http://t.example/", &info(0, b"n", 0, b""));
    assert_eq!(kind(&bytes), ErrorKind::ValidationFailed(Reason::NonPositivePieceLength));
}

#[test]
fn name_is_read_as_utf8() {
    let bytes = descriptor(b"http://t.example/", &info(1, "caf\u{e9} \u{1F600}".as_bytes(), 1, &[0; 20]));
    assert_eq!(Torrent::from_bytes(&bytes).unwrap().name(), "caf\u{e9} \u{1F600}");
}

#[test]
fn malformed_descriptors_are_rejected() {
    let malformed = ErrorKind::MalformedEncoding;
    assert_eq!(kind(b""), malformed);
    assert_eq!(kind(b"d"), malformed);
    assert_eq!(kind(b"d8:announce"), malformed);
    assert_eq!(kind(b"d8:announce31:http://tracker"), malformed);
    assert_eq!(kind(b"d8:announce999999:a4:infodee"), malformed);
    let mut trailing = sample();
    trailing.push(b'\n');
    assert_eq!(kind(&trailing), malformed);
    let mut cut = sample();
    cut.pop();
    assert_eq!(kind(&cut), malformed);
    for len in 0..sample().len() {
        assert_eq!(kind(&sample()[..len]), malformed, "cut at {}", len);
    }
}

#[test]
fn the_steps_can_be_taken_one_by_one() {
    let file = TorrentFile::try_from(&sample()).unwrap();
    assert_eq!(file.announce, "http://tracker.example/announce");
    assert_eq!(file.info.length, 32768);
    assert_eq!(file.info.pieces_length, 16384);
    assert_eq!(file.info.name, "sample");
    assert_eq!(file.info.pieces, sample_pieces());
    assert_eq!(file.info.hash, SAMPLE_HASH);

    // The file keeps the announce text as it was written; the URL is
    // looked at in the next step.
    let odd = descriptor(b"nonsense", &info(-5, b"n", 0, b"x"));
    let file = TorrentFile::try_from(&odd).unwrap();
    assert_eq!(file.announce, "nonsense");
    assert_eq!(file.info.length, -5);
    assert_eq!(
        BencodeTorrent::try_from(&odd).unwrap_err(),
        DecodingError { kind: ErrorKind::ValidationFailed(Reason::InvalidAnnounceUrl) }
    );

    let unchecked = descriptor(b"http://t.example/x", &info(-5, b"n", 0, b"x"));
    let torrent = BencodeTorrent::try_from(&unchecked).unwrap();
    assert_eq!(torrent.announce.head, "http://t.example/x");
    assert_eq!(torrent.info.length, -5);
    assert_eq!(
        Torrent::validate(torrent).unwrap_err().kind,
        ErrorKind::ValidationFailed(Reason::PiecesNotMultipleOf20)
    );
}

#[test]
fn failures_say_what_went_wrong() {
    let say = |bytes: &[u8]| Torrent::from_bytes(bytes).unwrap_err().to_string();
    assert_eq!(say(b""), "malformed encoding");
    assert_eq!(say(b"de"), "info field not found");
    assert_eq!(say(b"d4:infodee"), "announce field not found");
    assert_eq!(say(b"i1e"), "failed to parse root field into dict");
    assert_eq!(say(b"d8:announcei1e4:infodee"), "failed to parse announce field into string");
    let announce = b"http://t.example/";
    assert_eq!(say(&descriptor(announce, b"le")), "failed to parse info field into dict");
    assert_eq!(
        say(&descriptor(announce, b"d6:piecesi1ee")),
        "failed to parse pieces field into bytes"
    );
    assert_eq!(
        say(&descriptor(announce, b"d12:piece length1:16:pieces0:e")),
        "failed to parse piece length field into integer"
    );
    assert_eq!(say(&descriptor(b"x", &info(1, b"n", 1, &[0; 20]))), "announce is not an absolute URL");
    assert_eq!(
        say(&descriptor(announce, &info(1, b"n", 1, &[0; 21]))),
        "pieces is not a multiple of 20 bytes long"
    );
    assert_eq!(say(&descriptor(announce, &info(1, b"n", 0, &[0; 20]))), "piece length is not positive");
    assert_eq!(say(&descriptor(announce, &info(0, b"n", 1, &[0; 20]))), "length is not positive");
    assert_eq!(
        say(&descriptor(announce, &info(2, b"n", 1, &[0; 20]))),
        "pieces does not hold one hash for each piece"
    );
}
