//! The announce to the tracker: the request URL and the compact peer list of
//! its response.

use vstd::prelude::*;
use vstd::string::StringSliceAdditionalSpecFns;
use vstd::utf8::{decode_utf8, encode_utf8, valid_utf8};

use crate::codec::push_all;
use crate::decimal::{decimal, lemma_decimal_digits, push_decimal};
use crate::error::{Field, FormatError};
use crate::metainfo::{bytes_field, integer_field, string_from_utf8, Metainfo};
use crate::value::{bytes_entry, entry_models, integer_entry, Bencode, Value};

verus! {

/// An upper-case hexadecimal digit.
pub open spec fn hex_digit(d: u8) -> u8 {
    if d < 10 {
        (48 + d) as u8
    } else {
        (55 + d) as u8
    }
}

/// Percent-encoding of raw bytes: every byte, whatever it is, becomes `%`
/// and two upper-case hexadecimal digits.
pub open spec fn url_escape(data: Seq<u8>) -> Seq<u8>
    decreases data.len(),
{
    if data.len() == 0 {
        Seq::empty()
    } else {
        let c = data.last();
        url_escape(data.drop_last()) + seq![37u8, hex_digit(c / 16), hex_digit(c % 16)]
    }
}

/// Percent-encodes every byte of `data`.
pub fn percent_encode(data: &[u8]) -> (r: Vec<u8>)
    ensures
        r@ == url_escape(data@),
        r@.len() == 3 * data@.len(),
{
    let mut out: Vec<u8> = Vec::new();
    let mut k: usize = 0;
    assert(data@.subrange(0, 0) =~= Seq::<u8>::empty());
    while k < data.len()
        invariant
            k <= data@.len(),
            out@ == url_escape(data@.subrange(0, k as int)),
            out@.len() == 3 * k,
        decreases data.len() - k,
    {
        let c = data[k];
        let high: u8 = c / 16;
        let low: u8 = c % 16;
        out.push(37);
        out.push(if high < 10 { 48 + high } else { 55 + high });
        out.push(if low < 10 { 48 + low } else { 55 + low });
        assert(data@.subrange(0, k + 1).drop_last() =~= data@.subrange(0, k as int));
        k = k + 1;
        assert(out@ =~= url_escape(data@.subrange(0, k as int)));
    }
    assert(data@.subrange(0, k as int) =~= data@);
    out
}

/// Bytes below 128 are valid UTF-8 on their own.
pub proof fn lemma_ascii_valid_utf8(s: Seq<u8>)
    requires
        forall|k: int| 0 <= k < s.len() ==> #[trigger] s[k] < 128,
    ensures
        valid_utf8(s),
    decreases s.len(),
{
    if s.len() > 0 {
        let rest = s.subrange(1, s.len() as int);
        assert forall|k: int| 0 <= k < rest.len() implies #[trigger] rest[k] < 128 by {
            assert(rest[k] == s[k + 1]);
        }
        lemma_ascii_valid_utf8(rest);
    }
}

proof fn lemma_url_escape_ascii(data: Seq<u8>)
    ensures
        forall|k: int| 0 <= k < url_escape(data).len() ==> #[trigger] url_escape(data)[k] < 128,
    decreases data.len(),
{
    if data.len() > 0 {
        lemma_url_escape_ascii(data.drop_last());
        let c = data.last();
        let init = url_escape(data.drop_last());
        let tail = seq![37u8, hex_digit(c / 16), hex_digit(c % 16)];
        assert forall|k: int| 0 <= k < (init + tail).len() implies #[trigger] (init + tail)[k]
            < 128 by {
            if k >= init.len() {
                assert((init + tail)[k] == tail[k - init.len()]);
            }
        }
    }
}

proof fn lemma_decimal_ascii(n: nat)
    ensures
        forall|k: int| 0 <= k < decimal(n).len() ==> #[trigger] decimal(n)[k] < 128,
{
    lemma_decimal_digits(n);
}

/// The text of an announce URL: the tracker URL, then the query with the
/// parameters in the order info_hash, peer_id, port, uploaded, downloaded,
/// left, compact.
pub open spec fn announce_url(
    announce: Seq<u8>,
    info_hash: Seq<u8>,
    peer_id: Seq<u8>,
    port: nat,
    uploaded: nat,
    downloaded: nat,
    left: nat,
    compact: bool,
) -> Seq<u8> {
    announce + "?info_hash=".spec_bytes() + url_escape(info_hash) + "&peer_id=".spec_bytes()
        + url_escape(peer_id) + "&port=".spec_bytes() + decimal(port) + "&uploaded=".spec_bytes()
        + decimal(uploaded) + "&downloaded=".spec_bytes() + decimal(downloaded)
        + "&left=".spec_bytes() + decimal(left) + "&compact=".spec_bytes() + if compact {
        "1".spec_bytes()
    } else {
        "0".spec_bytes()
    }
}

/// The parameters of an announce to the tracker.
pub struct TrackerRequest<'caller> {
    pub info_hash: &'caller [u8],
    pub peer_id: &'caller [u8],
    pub port: u16,
    pub uploaded: u64,
    pub downloaded: u64,
    pub left: u64,
    pub compact: bool,
}

impl<'a> TrackerRequest<'a> {
    /// The announce URL for this torrent; the info hash is the torrent's own.
    pub fn url(&'a self, metainfo: &'a Metainfo) -> (r: String)
        ensures
            r@ == decode_utf8(
                announce_url(
                    encode_utf8(metainfo@.announce),
                    metainfo@.info.hash,
                    self.peer_id@,
                    self.port as nat,
                    self.uploaded as nat,
                    self.downloaded as nat,
                    self.left as nat,
                    self.compact,
                ),
            ),
    {
        let mut url: Vec<u8> = Vec::new();
        push_all(&mut url, metainfo.announce().as_str().as_bytes());
        push_all(&mut url, "?info_hash=".as_bytes());
        push_all(&mut url, percent_encode(metainfo.info().hash().as_slice()).as_slice());
        push_all(&mut url, "&peer_id=".as_bytes());
        push_all(&mut url, percent_encode(self.peer_id).as_slice());
        push_all(&mut url, "&port=".as_bytes());
        push_decimal(&mut url, self.port as u64);
        push_all(&mut url, "&uploaded=".as_bytes());
        push_decimal(&mut url, self.uploaded);
        push_all(&mut url, "&downloaded=".as_bytes());
        push_decimal(&mut url, self.downloaded);
        push_all(&mut url, "&left=".as_bytes());
        push_decimal(&mut url, self.left);
        push_all(&mut url, "&compact=".as_bytes());
        if self.compact {
            push_all(&mut url, "1".as_bytes());
        } else {
            push_all(&mut url, "0".as_bytes());
        }
        proof {
            vstd::utf8::encode_utf8_valid_utf8(metainfo@.announce);
            vstd::utf8::encode_utf8_valid_utf8("?info_hash="@);
            vstd::utf8::encode_utf8_valid_utf8("&peer_id="@);
            vstd::utf8::encode_utf8_valid_utf8("&port="@);
            vstd::utf8::encode_utf8_valid_utf8("&uploaded="@);
            vstd::utf8::encode_utf8_valid_utf8("&downloaded="@);
            vstd::utf8::encode_utf8_valid_utf8("&left="@);
            vstd::utf8::encode_utf8_valid_utf8("&compact="@);
            vstd::utf8::encode_utf8_valid_utf8("1"@);
            vstd::utf8::encode_utf8_valid_utf8("0"@);
            lemma_url_escape_ascii(metainfo@.info.hash);
            lemma_ascii_valid_utf8(url_escape(metainfo@.info.hash));
            lemma_url_escape_ascii(self.peer_id@);
            lemma_ascii_valid_utf8(url_escape(self.peer_id@));
            lemma_decimal_ascii(self.port as nat);
            lemma_ascii_valid_utf8(decimal(self.port as nat));
            lemma_decimal_ascii(self.uploaded as nat);
            lemma_ascii_valid_utf8(decimal(self.uploaded as nat));
            lemma_decimal_ascii(self.downloaded as nat);
            lemma_ascii_valid_utf8(decimal(self.downloaded as nat));
            lemma_decimal_ascii(self.left as nat);
            lemma_ascii_valid_utf8(decimal(self.left as nat));
            assert(url@ == announce_url(
                encode_utf8(metainfo@.announce),
                metainfo@.info.hash,
                self.peer_id@,
                self.port as nat,
                self.uploaded as nat,
                self.downloaded as nat,
                self.left as nat,
                self.compact,
            ));
            let mut acc = encode_utf8(metainfo@.announce);
            vstd::utf8::valid_utf8_concat(acc, "?info_hash=".spec_bytes());
            acc = acc + "?info_hash=".spec_bytes();
            vstd::utf8::valid_utf8_concat(acc, url_escape(metainfo@.info.hash));
            acc = acc + url_escape(metainfo@.info.hash);
            vstd::utf8::valid_utf8_concat(acc, "&peer_id=".spec_bytes());
            acc = acc + "&peer_id=".spec_bytes();
            vstd::utf8::valid_utf8_concat(acc, url_escape(self.peer_id@));
            acc = acc + url_escape(self.peer_id@);
            vstd::utf8::valid_utf8_concat(acc, "&port=".spec_bytes());
            acc = acc + "&port=".spec_bytes();
            vstd::utf8::valid_utf8_concat(acc, decimal(self.port as nat));
            acc = acc + decimal(self.port as nat);
            vstd::utf8::valid_utf8_concat(acc, "&uploaded=".spec_bytes());
            acc = acc + "&uploaded=".spec_bytes();
            vstd::utf8::valid_utf8_concat(acc, decimal(self.uploaded as nat));
            acc = acc + decimal(self.uploaded as nat);
            vstd::utf8::valid_utf8_concat(acc, "&downloaded=".spec_bytes());
            acc = acc + "&downloaded=".spec_bytes();
            vstd::utf8::valid_utf8_concat(acc, decimal(self.downloaded as nat));
            acc = acc + decimal(self.downloaded as nat);
            vstd::utf8::valid_utf8_concat(acc, "&left=".spec_bytes());
            acc = acc + "&left=".spec_bytes();
            vstd::utf8::valid_utf8_concat(acc, decimal(self.left as nat));
            acc = acc + decimal(self.left as nat);
            vstd::utf8::valid_utf8_concat(acc, "&compact=".spec_bytes());
            acc = acc + "&compact=".spec_bytes();
            vstd::utf8::valid_utf8_concat(acc, if self.compact { "1".spec_bytes() } else { "0".spec_bytes() });
            acc = acc + if self.compact { "1".spec_bytes() } else { "0".spec_bytes() };
            assert(acc == url@);
            assert(valid_utf8(url@));
        }
        string_from_utf8(url).unwrap()
    }
}

/// The key `interval`.
pub open spec fn interval_key() -> Seq<u8> {
    seq![105u8, 110, 116, 101, 114, 118, 97, 108]
}

/// The key `peers`.
pub open spec fn peers_key() -> Seq<u8> {
    seq![112u8, 101, 101, 114, 115]
}

/// An IPv4 peer: four address octets and a port.
#[derive(Debug, Clone, Copy, PartialEq, Eq)]
pub struct PeerAddress {
    pub ip: [u8; 4],
    pub port: u16,
}

/// The first problem with a tracker response: it must be a dictionary with
/// a non-negative `interval` and a compact `peers` byte string whose length
/// is a multiple of 6.
pub open spec fn tracker_problem(v: Bencode) -> Option<Field> {
    match v {
        Bencode::Dictionary(e) => {
            if !(integer_entry(e, interval_key()) matches Some(n) && n >= 0) {
                Some(Field::Interval)
            } else if !(bytes_entry(e, peers_key()) matches Some(b) && b.len() % 6 == 0) {
                Some(Field::Peers)
            } else {
                None
            }
        },
        _ => Some(Field::Root),
    }
}

/// The `j`-th peer of a compact peer list: four octets, then a big-endian
/// port.
pub open spec fn compact_peer_at(b: Seq<u8>, j: int, peer: PeerAddress) -> bool {
    &&& peer.ip@ == b.subrange(6 * j, 6 * j + 4)
    &&& peer.port == b[6 * j + 4] * 256 + b[6 * j + 5]
}

/// What a tracker response says.
pub struct TrackerModel {
    pub interval: nat,
    pub peers: Seq<PeerAddress>,
}

/// A tracker's answer to an announce.
#[derive(Debug)]
pub struct TrackerResponse {
    interval: u64,
    peers: Vec<PeerAddress>,
}

impl View for TrackerResponse {
    type V = TrackerModel;

    closed spec fn view(&self) -> TrackerModel {
        TrackerModel { interval: self.interval as nat, peers: self.peers@ }
    }
}

/// Reads a compact peer list whose length is a multiple of 6.
pub fn compact_peers(b: &[u8]) -> (r: Vec<PeerAddress>)
    requires
        b@.len() % 6 == 0,
    ensures
        r@.len() == b@.len() / 6,
        forall|j: int| 0 <= j < r@.len() ==> compact_peer_at(b@, j, #[trigger] r@[j]),
{
    let total: usize = b.len();
    let count: usize = total / 6;
    let mut peers: Vec<PeerAddress> = Vec::new();
    let mut j: usize = 0;
    while j < count
        invariant
            total == b@.len(),
            count == total / 6,
            b@.len() % 6 == 0,
            j <= count,
            peers@.len() == j,
            forall|k: int| 0 <= k < j ==> compact_peer_at(b@, k, #[trigger] peers@[k]),
        decreases count - j,
    {
        proof {
            let len = total as int;
            vstd::arithmetic::div_mod::lemma_fundamental_div_mod(len, 6);
            assert(6 * j + 6 <= len) by (nonlinear_arith)
                requires
                    j < count,
                    count == len / 6,
                    len == 6 * (len / 6) + len % 6,
                    len % 6 == 0,
            ;
        }
        let at: usize = 6 * j;
        let ip: [u8; 4] = [b[at], b[at + 1], b[at + 2], b[at + 3]];
        let port: u16 = (b[at + 4] as u16) * 256 + (b[at + 5] as u16);
        let peer = PeerAddress { ip, port };
        assert(peer.ip@ =~= b@.subrange(6 * j, 6 * j + 4));
        peers.push(peer);
        j = j + 1;
    }
    peers
}

impl TrackerResponse {
    /// Reads a tracker response; only the compact peer list is understood.
    pub fn decode(value: Value) -> (r: Result<TrackerResponse, FormatError>)
        ensures
            match r {
                Ok(t) => {
                    &&& tracker_problem(value@) is None
                    &&& t@.interval == integer_entry(value@->Dictionary_0, interval_key()).unwrap()
                    &&& t@.peers.len() == bytes_entry(value@->Dictionary_0, peers_key()).unwrap().len()
                        / 6
                    &&& forall|j: int|
                        0 <= j < t@.peers.len() ==> compact_peer_at(
                            bytes_entry(value@->Dictionary_0, peers_key()).unwrap(),
                            j,
                            #[trigger] t@.peers[j],
                        )
                },
                Err(e) => tracker_problem(value@) == Some(e.field),
            },
    {
        let entries = match value {
            Value::Dictionary(entries) => {
                proof {
                    crate::codec::lemma_dictionary_model(entries);
                }
                entries
            },
            _ => {
                return Err(FormatError { field: Field::Root });
            },
        };
        let interval_key: [u8; 8] = [105, 110, 116, 101, 114, 118, 97, 108];
        let peers_key: [u8; 5] = [112, 101, 101, 114, 115];
        assert(interval_key@ == crate::tracker::interval_key());
        assert(peers_key@ == crate::tracker::peers_key());
        let interval: u64 = match integer_field(&entries, interval_key.as_slice()) {
            Some(n) if n >= 0 => n as u64,
            _ => {
                return Err(FormatError { field: Field::Interval });
            },
        };
        let peers = match bytes_field(&entries, peers_key.as_slice()) {
            Some(b) if b.len() % 6 == 0 => compact_peers(b.as_slice()),
            _ => {
                return Err(FormatError { field: Field::Peers });
            },
        };
        Ok(TrackerResponse { interval, peers })
    }

    /// Seconds to wait between announces.
    pub fn interval(&self) -> (r: u64)
        ensures
            r == self@.interval,
    {
        self.interval
    }

    /// The peers, in the order the tracker listed them.
    pub fn peers(&self) -> (r: &Vec<PeerAddress>)
        ensures
            r@ == self@.peers,
    {
        &self.peers
    }
}

} // verus!
