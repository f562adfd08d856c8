use bittorrent_starter_rust::codec::encode_bencoded_value;
use bittorrent_starter_rust::error::{Field, FormatError};
use bittorrent_starter_rust::metainfo::{piece_count_of, Metainfo, MetainfoInfo};
use bittorrent_starter_rust::value::Value;
use sha1::Digest;

fn key(s: &str) -> Vec<u8> {
    s.as_bytes().to_vec()
}

fn info_entries(length: i64, piece_length: i64, pieces: usize) -> Vec<(Vec<u8>, Value)> {
    vec![
        (key("length"), Value::Integer(length)),
        (key("name"), Value::Bytes(key("sample.txt"))),
        (key("piece length"), Value::Integer(piece_length)),
        (key("pieces"), Value::Bytes((0..pieces).map(|i| i as u8).collect())),
    ]
}

fn torrent(info: Value) -> Value {
    Value::Dictionary(vec![
        (key("announce"), Value::Bytes(key("http://tracker.example/announce"))),
        (key("info"), info),
    ])
}

fn sha1(data: &[u8]) -> [u8; 20] {
    sha1::Sha1::digest(data).into()
}

#[test]
fn single_file_metainfo() {
    let info = Value::Dictionary(info_entries(1024, 512, 40));
    let expected_hash = sha1(&encode_bencoded_value(&info));
    let metainfo = Metainfo::decode(torrent(info)).unwrap();
    assert_eq!(metainfo.announce(), "http://tracker.example/announce");
    assert_eq!(metainfo.info().length(), 1024);
    assert_eq!(metainfo.info().name(), "sample.txt");
    assert_eq!(metainfo.info().piece_length(), 512);
    assert_eq!(metainfo.info().hash(), &expected_hash);
    let hashes = metainfo.info().piece_hashes();
    assert_eq!(hashes.len(), 2);
    assert_eq!(hashes[0], (0..20).collect::<Vec<u8>>());
    assert_eq!(hashes[1], (20..40).collect::<Vec<u8>>());
}

#[test]
fn info_hash_covers_unknown_entries() {
    let mut entries = info_entries(1024, 512, 40);
    entries.push((key("private"), Value::Integer(1)));
    let info = Value::Dictionary(entries);
    let full = sha1(&encode_bencoded_value(&info));
    let bare = sha1(&encode_bencoded_value(&Value::Dictionary(info_entries(1024, 512, 40))));
    assert_ne!(full, bare);
    let decoded = MetainfoInfo::decode(info).unwrap();
    assert_eq!(decoded.hash(), &full);
}

#[test]
fn info_with_given_hash() {
    let info = Value::Dictionary(info_entries(1000, 512, 40));
    let decoded = MetainfoInfo::decode_with_hash(&info, [7; 20]).unwrap();
    assert_eq!(decoded.hash(), &[7; 20]);
    assert_eq!(decoded.length(), 1000);
    assert_eq!(decoded.piece_hashes().len(), 2);
}

#[test]
fn empty_file_has_no_pieces() {
    let info = Value::Dictionary(info_entries(0, 512, 0));
    let decoded = MetainfoInfo::decode(info).unwrap();
    assert_eq!(decoded.piece_hashes().len(), 0);
}

fn field_of(v: Value) -> Field {
    match Metainfo::decode(v) {
        Err(FormatError { field }) => field,
        Ok(_) => panic!("decoded a malformed descriptor"),
    }
}

#[test]
fn metainfo_errors_name_the_field() {
    assert_eq!(field_of(Value::Integer(1)), Field::Root);
    assert_eq!(field_of(Value::Dictionary(vec![])), Field::Announce);
    assert_eq!(
        field_of(Value::Dictionary(vec![(key("announce"), Value::Bytes(vec![0xff, 0xfe]))])),
        Field::Announce
    );
    assert_eq!(
        field_of(Value::Dictionary(vec![(key("announce"), Value::Bytes(key("u")))])),
        Field::Info
    );
    assert_eq!(field_of(torrent(Value::List(vec![]))), Field::Info);
    assert_eq!(field_of(torrent(Value::Dictionary(info_entries(-1, 512, 40)))), Field::Length);
    let mut no_name = info_entries(1024, 512, 40);
    no_name.remove(1);
    assert_eq!(field_of(torrent(Value::Dictionary(no_name))), Field::Name);
    assert_eq!(field_of(torrent(Value::Dictionary(info_entries(1024, 0, 40)))), Field::PieceLength);
    assert_eq!(field_of(torrent(Value::Dictionary(info_entries(1024, 512, 41)))), Field::Pieces);
    assert_eq!(field_of(torrent(Value::Dictionary(info_entries(1025, 512, 40)))), Field::Pieces);
}

#[test]
fn piece_count_rounds_up() {
    assert_eq!(piece_count_of(1024, 512), 2);
    assert_eq!(piece_count_of(1025, 512), 3);
    assert_eq!(piece_count_of(0, 512), 0);
    assert_eq!(piece_count_of(1, 1), 1);
}
