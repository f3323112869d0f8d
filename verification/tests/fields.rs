use bittorrent_client::fields::{find, lookup, lookup_bytes, lookup_int, lookup_string};
use bittorrent_client::{
    bencode_from_bytes, BencodeTorrent, Entry, ErrorKind, Expected, Field, Reason, StructuralValue,
    TorrentFile, TorrentInfo,
};

fn entries(bytes: &[u8]) -> Vec<Entry> {
    match bencode_from_bytes(bytes).unwrap().value {
        StructuralValue::Dictionary(entries) => entries,
        other => panic!("not a dictionary: {:?}", other),
    }
}

#[test]
fn find_gives_the_place_of_a_key() {
    let dict = entries(b"d4:name1:a6:lengthi5e0:i0ee");
    assert_eq!(find(&dict, b"name"), Some(0));
    assert_eq!(find(&dict, b"length"), Some(1));
    assert_eq!(find(&dict, b""), Some(2));
    assert_eq!(find(&dict, b"nam"), None);
    assert_eq!(find(&dict, b"names"), None);
    assert_eq!(find(&Vec::new(), b"name"), None);
}

#[test]
fn lookup_finds_a_field_by_its_key() {
    let dict = entries(b"d4:infoli1ee6:lengthi5e4:name3:bobe");
    let info = lookup(Field::Info, &dict).unwrap();
    assert_eq!((info.start, info.end), (7, 12));
    assert!(matches!(&info.value, StructuralValue::List(items) if items.len() == 1));
    assert_eq!(lookup(Field::Pieces, &dict).unwrap_err().kind, ErrorKind::FieldMissing(Field::Pieces));
    assert_eq!(
        lookup(Field::PieceLength, &dict).unwrap_err().kind,
        ErrorKind::FieldMissing(Field::PieceLength)
    );
}

#[test]
fn typed_lookups_ask_for_the_right_shape() {
    let dict = entries(b"d4:infoli1ee6:lengthi-5e4:name3:bob6:pieces2:\xff\xfee");
    assert_eq!(lookup_int(Field::Length, &dict).unwrap(), -5);
    assert_eq!(
        lookup_int(Field::Name, &dict).unwrap_err().kind,
        ErrorKind::FieldTypeMismatch(Field::Name, Expected::Integer)
    );
    assert_eq!(
        lookup_int(Field::Interval, &dict).unwrap_err().kind,
        ErrorKind::FieldMissing(Field::Interval)
    );
    assert_eq!(lookup_bytes(Field::Name, &dict).unwrap(), b"bob");
    assert_eq!(lookup_bytes(Field::Pieces, &dict).unwrap(), &[0xff, 0xfe]);
    assert_eq!(
        lookup_bytes(Field::Length, &dict).unwrap_err().kind,
        ErrorKind::FieldTypeMismatch(Field::Length, Expected::ByteString)
    );
    assert_eq!(lookup_string(Field::Name, &dict).unwrap(), "bob");
    assert_eq!(
        lookup_string(Field::Pieces, &dict).unwrap_err().kind,
        ErrorKind::FieldTypeMismatch(Field::Pieces, Expected::Text)
    );
    assert_eq!(
        lookup_string(Field::Info, &dict).unwrap_err().kind,
        ErrorKind::FieldTypeMismatch(Field::Info, Expected::Text)
    );
    assert_eq!(
        lookup_string(Field::Announce, &dict).unwrap_err().kind,
        ErrorKind::FieldMissing(Field::Announce)
    );
}

#[test]
fn fields_are_known_by_their_keys() {
    assert_eq!(Field::Announce.key_bytes(), b"announce");
    assert_eq!(Field::Info.key_bytes(), b"info");
    assert_eq!(Field::Name.key_bytes(), b"name");
    assert_eq!(Field::PieceLength.key_bytes(), b"piece length");
    assert_eq!(Field::Pieces.key_bytes(), b"pieces");
    assert_eq!(Field::Length.key_bytes(), b"length");
    assert_eq!(Field::Interval.key_bytes(), b"interval");
    assert_eq!(Field::Peers.key_bytes(), b"peers");
    assert_eq!(Field::Root.label(), "root");
    assert_eq!(Field::PieceLength.label(), "piece length");
}

#[test]
fn info_takes_the_hash_that_it_is_given() {
    let node = bencode_from_bytes(b"d6:lengthi9e4:name1:n12:piece lengthi4e6:pieces3:abce").unwrap();
    let info = TorrentInfo::with_hash(&node, [7; 20]).unwrap();
    assert_eq!(info.hash, [7; 20]);
    assert_eq!(info.length, 9);
    assert_eq!(info.pieces_length, 4);
    assert_eq!(info.name, "n");
    assert_eq!(info.pieces, b"abc");

    let list = bencode_from_bytes(b"le").unwrap();
    assert_eq!(
        TorrentInfo::with_hash(&list, [7; 20]).unwrap_err().kind,
        ErrorKind::FieldTypeMismatch(Field::Info, Expected::Dictionary)
    );
    let bare = bencode_from_bytes(b"d6:pieces0:e").unwrap();
    assert_eq!(
        TorrentInfo::with_hash(&bare, [7; 20]).unwrap_err().kind,
        ErrorKind::FieldMissing(Field::PieceLength)
    );
}

#[test]
fn a_file_takes_the_url_that_it_is_given() {
    let bytes = b"d8:announce1:x4:infod6:lengthi9e4:name1:n12:piece lengthi4e6:pieces3:abcee";
    let file = TorrentFile::try_from(bytes).unwrap();
    assert_eq!(
        BencodeTorrent::from_file(file, None).unwrap_err().kind,
        ErrorKind::ValidationFailed(Reason::InvalidAnnounceUrl)
    );
    let file = TorrentFile::try_from(bytes).unwrap();
    let url = bittorrent_client::AnnounceUrl {
        head: "http://t.example/a".to_string(),
        query: Some("k=v".to_string()),
        fragment: None,
    };
    let torrent = BencodeTorrent::from_file(file, Some(url)).unwrap();
    assert_eq!(torrent.announce.text(), "http://t.example/a?k=v");
    assert_eq!(torrent.info.name, "n");
}
