//! The torrent descriptor (metainfo) and its identity digest.

use vstd::prelude::*;
use vstd::utf8::{decode_utf8, valid_utf8};

use crate::codec::{encode_bencoded_value, encoding};
use crate::error::{Field, FormatError};
use crate::hashing::{sha1_digest, sha1_of};
use crate::value::{bytes_entry, entry_models, find_key, integer_entry, lookup, Bencode, Value};

verus! {

/// The key `announce`.
pub open spec fn announce_key() -> Seq<u8> {
    seq![97u8, 110, 110, 111, 117, 110, 99, 101]
}

/// The key `info`.
pub open spec fn info_key() -> Seq<u8> {
    seq![105u8, 110, 102, 111]
}

/// The key `length`.
pub open spec fn length_key() -> Seq<u8> {
    seq![108u8, 101, 110, 103, 116, 104]
}

/// The key `name`.
pub open spec fn name_key() -> Seq<u8> {
    seq![110u8, 97, 109, 101]
}

/// The key `piece length`.
pub open spec fn piece_length_key() -> Seq<u8> {
    seq![112u8, 105, 101, 99, 101, 32, 108, 101, 110, 103, 116, 104]
}

/// The key `pieces`.
pub open spec fn pieces_key() -> Seq<u8> {
    seq![112u8, 105, 101, 99, 101, 115]
}

/// The number of pieces that `length` bytes make in pieces of `piece_length`.
pub open spec fn piece_count(length: int, piece_length: int) -> int {
    (length + piece_length - 1) / piece_length
}

/// The first problem with an `info` dictionary, checked in the order
/// length, name, piece length, pieces; `None` when there is none.
pub open spec fn info_problem(info: Bencode) -> Option<Field> {
    match info {
        Bencode::Dictionary(e) => {
            let length = integer_entry(e, length_key());
            let piece_length = integer_entry(e, piece_length_key());
            let pieces = bytes_entry(e, pieces_key());
            if !(length matches Some(n) && 0 <= n <= usize::MAX) {
                Some(Field::Length)
            } else if !(bytes_entry(e, name_key()) matches Some(b) && valid_utf8(b)) {
                Some(Field::Name)
            } else if !(piece_length matches Some(p) && 0 < p <= usize::MAX) {
                Some(Field::PieceLength)
            } else if !(pieces matches Some(b) && b.len() % 20 == 0 && b.len() / 20 == piece_count(
                length.unwrap(),
                piece_length.unwrap(),
            )) {
                Some(Field::Pieces)
            } else {
                None
            }
        },
        _ => Some(Field::Info),
    }
}

/// The first problem with a torrent descriptor: it must be a dictionary with
/// a UTF-8 `announce` byte string and an `info` entry without problems.
pub open spec fn metainfo_problem(v: Bencode) -> Option<Field> {
    match v {
        Bencode::Dictionary(e) => {
            if !(bytes_entry(e, announce_key()) matches Some(a) && valid_utf8(a)) {
                Some(Field::Announce)
            } else {
                match lookup(e, info_key()) {
                    Some(info) => info_problem(info),
                    None => Some(Field::Info),
                }
            }
        },
        _ => Some(Field::Root),
    }
}

/// What a torrent's `info` dictionary says.
pub struct InfoModel {
    pub length: nat,
    pub name: Seq<char>,
    pub piece_length: nat,
    pub pieces: Seq<u8>,
    pub hash: Seq<u8>,
}

impl InfoModel {
    /// At least one byte per piece, one 20-byte digest per piece.
    pub open spec fn wf(self) -> bool {
        &&& self.piece_length > 0
        &&& self.pieces.len() % 20 == 0
        &&& self.pieces.len() / 20 == piece_count(self.length as int, self.piece_length as int)
        &&& self.hash.len() == 20
    }
}

/// What a problem-free `info` dictionary describes, with `hash` as its
/// identity digest.
pub open spec fn info_model_of(info: Bencode, hash: Seq<u8>) -> InfoModel
    recommends
        info_problem(info) is None,
{
    let e = info->Dictionary_0;
    InfoModel {
        length: integer_entry(e, length_key()).unwrap() as nat,
        name: decode_utf8(bytes_entry(e, name_key()).unwrap()),
        piece_length: integer_entry(e, piece_length_key()).unwrap() as nat,
        pieces: bytes_entry(e, pieces_key()).unwrap(),
        hash,
    }
}

/// Relies on `String::from_utf8`: it accepts exactly the valid UTF-8 byte
/// strings, and the string then holds the characters those bytes encode.
#[verifier::external_body]
pub(crate) fn string_from_utf8(bytes: Vec<u8>) -> (r: Option<String>)
    ensures
        r is Some <==> valid_utf8(bytes@),
        r matches Some(s) ==> s@ == decode_utf8(bytes@),
{
    String::from_utf8(bytes).ok()
}

/// The bytes of the entry under `key`, where it is a byte string.
pub(crate) fn bytes_field(entries: &Vec<(Vec<u8>, Value)>, key: &[u8]) -> (r: Option<Vec<u8>>)
    ensures
        match r {
            Some(b) => bytes_entry(entry_models(entries@), key@) == Some(b@),
            None => bytes_entry(entry_models(entries@), key@) is None,
        },
{
    match find_key(entries, key) {
        Some(k) => match &entries[k].1 {
            Value::Bytes(b) => Some(vstd::slice::slice_to_vec(b.as_slice())),
            _ => None,
        },
        None => None,
    }
}

/// The number of the entry under `key`, where it is an integer.
pub(crate) fn integer_field(entries: &Vec<(Vec<u8>, Value)>, key: &[u8]) -> (r: Option<i64>)
    ensures
        match r {
            Some(i) => integer_entry(entry_models(entries@), key@) == Some(i as int),
            None => integer_entry(entry_models(entries@), key@) is None,
        },
{
    match find_key(entries, key) {
        Some(k) => match &entries[k].1 {
            Value::Integer(i) => Some(*i),
            _ => None,
        },
        None => None,
    }
}

/// The `info` part of a single-file torrent descriptor.
#[derive(Debug)]
pub struct MetainfoInfo {
    length: usize,
    name: String,
    piece_length: usize,
    pieces: Vec<u8>,
    hash: [u8; 20],
}

impl View for MetainfoInfo {
    type V = InfoModel;

    closed spec fn view(&self) -> InfoModel {
        InfoModel {
            length: self.length as nat,
            name: self.name@,
            piece_length: self.piece_length as nat,
            pieces: self.pieces@,
            hash: self.hash@,
        }
    }
}

impl MetainfoInfo {
    #[verifier::type_invariant]
    spec fn inv(self) -> bool {
        self@.wf()
    }

    /// Reads an `info` dictionary, taking `hash` as its identity digest.
    /// The digest is not checked here: `decode` passes the SHA-1 of the
    /// dictionary's bencoding, which is what a torrent's identity must be.
    pub fn decode_with_hash(value: &Value, hash: [u8; 20]) -> (r: Result<MetainfoInfo, FormatError>)
        ensures
            match r {
                Ok(info) => {
                    &&& info_problem(value@) is None
                    &&& info@ == info_model_of(value@, hash@)
                    &&& info@.wf()
                },
                Err(e) => info_problem(value@) == Some(e.field),
            },
    {
        let entries = match value {
            Value::Dictionary(entries) => entries,
            _ => {
                return Err(FormatError { field: Field::Info });
            },
        };
        proof {
            crate::codec::lemma_dictionary_model(*entries);
        }
        let length_key: [u8; 6] = [108, 101, 110, 103, 116, 104];
        let name_key: [u8; 4] = [110, 97, 109, 101];
        let piece_length_key: [u8; 12] = [112, 105, 101, 99, 101, 32, 108, 101, 110, 103, 116, 104];
        let pieces_key: [u8; 6] = [112, 105, 101, 99, 101, 115];
        assert(length_key@ == crate::metainfo::length_key());
        assert(name_key@ == crate::metainfo::name_key());
        assert(piece_length_key@ == crate::metainfo::piece_length_key());
        assert(pieces_key@ == crate::metainfo::pieces_key());
        let length: usize = match integer_field(entries, length_key.as_slice()) {
            Some(n) if n >= 0 && (n as u64) <= (usize::MAX as u64) => n as usize,
            _ => {
                return Err(FormatError { field: Field::Length });
            },
        };
        let name = match bytes_field(entries, name_key.as_slice()) {
            Some(b) => match string_from_utf8(b) {
                Some(s) => s,
                None => {
                    return Err(FormatError { field: Field::Name });
                },
            },
            None => {
                return Err(FormatError { field: Field::Name });
            },
        };
        let piece_length: usize = match integer_field(entries, piece_length_key.as_slice()) {
            Some(p) if p > 0 && (p as u64) <= (usize::MAX as u64) => p as usize,
            _ => {
                return Err(FormatError { field: Field::PieceLength });
            },
        };
        let pieces = match bytes_field(entries, pieces_key.as_slice()) {
            Some(b) => b,
            None => {
                return Err(FormatError { field: Field::Pieces });
            },
        };
        if pieces.len() % 20 != 0 || pieces.len() / 20 != piece_count_of(length, piece_length) {
            return Err(FormatError { field: Field::Pieces });
        }
        Ok(MetainfoInfo { length, name, piece_length, pieces, hash })
    }

    /// Reads an `info` dictionary; its identity digest is the SHA-1 of its
    /// bencoding, which holds every entry it has, known or not.
    pub fn decode(value: Value) -> (r: Result<MetainfoInfo, FormatError>)
        ensures
            match r {
                Ok(info) => {
                    &&& info_problem(value@) is None
                    &&& info@ == info_model_of(value@, sha1_of(encoding(value@)))
                    &&& info@.wf()
                },
                Err(e) => info_problem(value@) == Some(e.field),
            },
    {
        let bencoded = encode_bencoded_value(&value);
        let hash = sha1_digest(bencoded.as_slice());
        MetainfoInfo::decode_with_hash(&value, hash)
    }

    /// The digests of the pieces, in order, 20 bytes each.
    pub fn piece_hashes(&self) -> (r: Vec<Vec<u8>>)
        ensures
            r@.len() == self@.pieces.len() / 20,
            forall|j: int|
                0 <= j < r@.len() ==> (#[trigger] r@[j])@ == self@.pieces.subrange(
                    20 * j,
                    20 * j + 20,
                ),
    {
        proof {
            use_type_invariant(self);
        }
        let total: usize = self.pieces.len();
        let count: usize = total / 20;
        let mut out: Vec<Vec<u8>> = Vec::new();
        let mut j: usize = 0;
        while j < count
            invariant
                total == self.pieces@.len(),
                count == total / 20,
                self.pieces@.len() % 20 == 0,
                j <= count,
                out@.len() == j,
                forall|k: int|
                    0 <= k < j ==> (#[trigger] out@[k])@ == self.pieces@.subrange(
                        20 * k,
                        20 * k + 20,
                    ),
            decreases count - j,
        {
            proof {
                let len = total as int;
                vstd::arithmetic::div_mod::lemma_fundamental_div_mod(len, 20);
                assert(20 * j + 20 <= len) by (nonlinear_arith)
                    requires
                        j < count,
                        count == len / 20,
                        len == 20 * (len / 20) + len % 20,
                        len % 20 == 0,
                ;
            }
            let chunk = vstd::slice::slice_to_vec(
                vstd::slice::slice_subrange(self.pieces.as_slice(), 20 * j, 20 * j + 20),
            );
            out.push(chunk);
            j = j + 1;
        }
        out
    }

    /// The total number of bytes of the file.
    pub fn length(&self) -> (r: usize)
        ensures
            r == self@.length,
    {
        self.length
    }

    /// The suggested file name.
    pub fn name(&self) -> (r: &String)
        ensures
            r@ == self@.name,
    {
        &self.name
    }

    /// The number of bytes in each piece but possibly the last.
    pub fn piece_length(&self) -> (r: usize)
        ensures
            r == self@.piece_length,
    {
        self.piece_length
    }

    /// The identity digest of the torrent.
    pub fn hash(&self) -> (r: &[u8; 20])
        ensures
            r@ == self@.hash,
    {
        &self.hash
    }
}

/// The number of pieces, `ceil(length / piece_length)`.
pub fn piece_count_of(length: usize, piece_length: usize) -> (r: usize)
    requires
        piece_length > 0,
    ensures
        r == piece_count(length as int, piece_length as int),
{
    let whole = length / piece_length;
    let rest = length % piece_length;
    proof {
        let (n, p, q, m) = (length as int, piece_length as int, whole as int, rest as int);
        vstd::arithmetic::div_mod::lemma_fundamental_div_mod(n, p);
        assert(n + p - 1 == (q + 1) * p + (m - 1) && n + p - 1 == q * p + (m + p - 1))
            by (nonlinear_arith)
            requires
                n == p * q + m,
        ;
        if m == 0 {
            vstd::arithmetic::div_mod::lemma_fundamental_div_mod_converse(n + p - 1, p, q, p - 1);
        } else {
            vstd::arithmetic::div_mod::lemma_fundamental_div_mod_converse(
                n + p - 1,
                p,
                q + 1,
                m - 1,
            );
            assert(q * p <= n - m) by (nonlinear_arith)
                requires
                    n == p * q + m,
                    p > 0,
            ;
            assert(q + 1 <= n) by (nonlinear_arith)
                requires
                    q * p <= n - m,
                    0 < m < p,
                    q >= 0,
            ;
        }
    }
    if rest == 0 {
        whole
    } else {
        whole + 1
    }
}

} // verus!

verus! {

/// The `announce` bytes of a problem-free torrent descriptor.
pub open spec fn announce_of(v: Bencode) -> Seq<u8> {
    bytes_entry(v->Dictionary_0, announce_key()).unwrap()
}

/// The `info` value of a problem-free torrent descriptor.
pub open spec fn info_of(v: Bencode) -> Bencode {
    lookup(v->Dictionary_0, info_key()).unwrap()
}

/// What a torrent descriptor says.
pub struct MetainfoModel {
    pub announce: Seq<char>,
    pub info: InfoModel,
}

/// A single-file torrent descriptor.
#[derive(Debug)]
pub struct Metainfo {
    announce: String,
    info: MetainfoInfo,
}

impl View for Metainfo {
    type V = MetainfoModel;

    closed spec fn view(&self) -> MetainfoModel {
        MetainfoModel { announce: self.announce@, info: self.info@ }
    }
}

impl Metainfo {
    /// Reads a torrent descriptor. The identity digest is that of the
    /// bencoding of its `info` value, every entry of it included.
    pub fn decode(value: Value) -> (r: Result<Metainfo, FormatError>)
        ensures
            match r {
                Ok(m) => {
                    &&& metainfo_problem(value@) is None
                    &&& m@.announce == decode_utf8(announce_of(value@))
                    &&& m@.info == info_model_of(info_of(value@), sha1_of(encoding(info_of(value@))))
                    &&& m@.info.wf()
                },
                Err(e) => metainfo_problem(value@) == Some(e.field),
            },
    {
        let mut entries = match value {
            Value::Dictionary(entries) => {
                proof {
                    crate::codec::lemma_dictionary_model(entries);
                }
                entries
            },
            _ => {
                return Err(FormatError { field: Field::Root });
            },
        };
        let announce_key: [u8; 8] = [97, 110, 110, 111, 117, 110, 99, 101];
        let info_key: [u8; 4] = [105, 110, 102, 111];
        assert(announce_key@ == crate::metainfo::announce_key());
        assert(info_key@ == crate::metainfo::info_key());
        let announce = match bytes_field(&entries, announce_key.as_slice()) {
            Some(b) => match string_from_utf8(b) {
                Some(s) => s,
                None => {
                    return Err(FormatError { field: Field::Announce });
                },
            },
            None => {
                return Err(FormatError { field: Field::Announce });
            },
        };
        let k = match find_key(&entries, info_key.as_slice()) {
            Some(k) => k,
            None => {
                return Err(FormatError { field: Field::Info });
            },
        };
        let (_, info_value) = entries.remove(k);
        let info = MetainfoInfo::decode(info_value)?;
        Ok(Metainfo { announce, info })
    }

    /// The tracker URL.
    pub fn announce(&self) -> (r: &String)
        ensures
            r@ == self@.announce,
    {
        &self.announce
    }

    /// The `info` part.
    pub fn info(&self) -> (r: &MetainfoInfo)
        ensures
            r@ == self@.info,
    {
        &self.info
    }
}

} // verus!
