use bittorrent_starter_rust::error::{Field, FormatError};
use bittorrent_starter_rust::metainfo::Metainfo;
use bittorrent_starter_rust::tracker::{
    compact_peers, percent_encode, PeerAddress, TrackerRequest, TrackerResponse,
};
use bittorrent_starter_rust::value::Value;

fn key(s: &str) -> Vec<u8> {
    s.as_bytes().to_vec()
}

fn sample_metainfo() -> Metainfo {
    let info = Value::Dictionary(vec![
        (key("length"), Value::Integer(1024)),
        (key("name"), Value::Bytes(key("f"))),
        (key("piece length"), Value::Integer(512)),
        (key("pieces"), Value::Bytes(vec![0; 40])),
    ]);
    Metainfo::decode(Value::Dictionary(vec![
        (key("announce"), Value::Bytes(key("http://t.example/announce"))),
        (key("info"), info),
    ]))
    .unwrap()
}

fn escaped(data: &[u8]) -> String {
    let mut out = String::new();
    for &b in data {
        out.push_str(&format!("%{:02X}", b));
    }
    out
}

#[test]
fn announce_url_lists_parameters_in_order() {
    let metainfo = sample_metainfo();
    let hash = *metainfo.info().hash();
    let request = TrackerRequest {
        info_hash: &hash,
        peer_id: b"00112233445566778899",
        port: 6881,
        uploaded: 0,
        downloaded: 0,
        left: 1024,
        compact: true,
    };
    let expected = format!(
        "http://t.example/announce?info_hash={}&peer_id=%30%30%31%31%32%32%33%33%34%34%35%35%36%36%37%37%38%38%39%39&port=6881&uploaded=0&downloaded=0&left=1024&compact=1",
        escaped(&hash)
    );
    assert_eq!(request.url(&metainfo), expected);
}

#[test]
fn announce_url_escapes_peer_id_bytes() {
    let metainfo = sample_metainfo();
    let request = TrackerRequest {
        info_hash: &[0; 20],
        peer_id: &[0x00, 0x2f, b'a', b'~', 0xff],
        port: 1,
        uploaded: 18446744073709551615,
        downloaded: 7,
        left: 0,
        compact: false,
    };
    let url = request.url(&metainfo);
    assert!(url.contains("&peer_id=%00%2F%61%7E%FF&"));
    assert!(url.ends_with("&port=1&uploaded=18446744073709551615&downloaded=7&left=0&compact=0"));
}

#[test]
fn compact_peers_decode() {
    let peers = vec![192, 168, 1, 2, 0x1a, 0xe1, 10, 0, 0, 1, 0xc8, 0xd5];
    let value = Value::Dictionary(vec![
        (key("interval"), Value::Integer(1800)),
        (key("peers"), Value::Bytes(peers)),
    ]);
    let response = TrackerResponse::decode(value).unwrap();
    assert_eq!(response.interval(), 1800);
    assert_eq!(
        response.peers(),
        &vec![
            PeerAddress { ip: [192, 168, 1, 2], port: 6881 },
            PeerAddress { ip: [10, 0, 0, 1], port: 51413 },
        ]
    );
}

#[test]
fn compact_peers_of_empty_list() {
    assert_eq!(compact_peers(&[]), vec![]);
}

fn tracker_field(v: Value) -> Field {
    match TrackerResponse::decode(v) {
        Err(FormatError { field }) => field,
        Ok(_) => panic!("decoded a malformed response"),
    }
}

#[test]
fn tracker_errors_name_the_field() {
    assert_eq!(tracker_field(Value::List(vec![])), Field::Root);
    assert_eq!(tracker_field(Value::Dictionary(vec![])), Field::Interval);
    assert_eq!(
        tracker_field(Value::Dictionary(vec![(key("interval"), Value::Integer(-5))])),
        Field::Interval
    );
    assert_eq!(
        tracker_field(Value::Dictionary(vec![(key("interval"), Value::Integer(5))])),
        Field::Peers
    );
    assert_eq!(
        tracker_field(Value::Dictionary(vec![
            (key("interval"), Value::Integer(5)),
            (key("peers"), Value::Bytes(vec![1, 2, 3, 4, 5])),
        ])),
        Field::Peers
    );
}

#[test]
fn percent_encoding_covers_every_byte() {
    let encoded = percent_encode(b"00112233445566778899");
    assert_eq!(encoded.len(), 60);
    assert_eq!(&encoded[..6], b"%30%30");
    assert_eq!(percent_encode(&[0xab, b'-', b'~']), b"%AB%2D%7E".to_vec());
    assert_eq!(percent_encode(&[]), Vec::<u8>::new());
}
