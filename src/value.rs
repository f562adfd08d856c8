//! Bencoded values, their mathematical model and dictionary lookup.

use vstd::prelude::*;

use crate::order::{bytes_lt, compare_bytes};

verus! {

/// The mathematical model of a bencoded value.
///
/// A dictionary is an association list; a well-formed one has its keys in
/// strictly ascending byte-lexicographic order (see `Bencode::wf`).
pub enum Bencode {
    Bytes(Seq<u8>),
    Integer(int),
    List(Seq<Bencode>),
    Dictionary(Seq<(Seq<u8>, Bencode)>),
}

/// Keys in strictly ascending order (and so pairwise distinct).
pub open spec fn keys_ascending<V>(entries: Seq<(Seq<u8>, V)>) -> bool {
    forall|i: int, j: int|
        0 <= i < j < entries.len() ==> #[trigger] bytes_lt(entries[i].0, entries[j].0)
}

/// The value of the first entry with this key.
pub open spec fn lookup(entries: Seq<(Seq<u8>, Bencode)>, key: Seq<u8>) -> Option<Bencode>
    decreases entries.len(),
{
    if entries.len() == 0 {
        None
    } else if entries[0].0 == key {
        Some(entries[0].1)
    } else {
        lookup(entries.drop_first(), key)
    }
}

/// The bytes of the entry with this key, where it is a byte string.
pub open spec fn bytes_entry(entries: Seq<(Seq<u8>, Bencode)>, key: Seq<u8>) -> Option<Seq<u8>> {
    match lookup(entries, key) {
        Some(Bencode::Bytes(b)) => Some(b),
        _ => None,
    }
}

/// The number of the entry with this key, where it is an integer.
pub open spec fn integer_entry(entries: Seq<(Seq<u8>, Bencode)>, key: Seq<u8>) -> Option<int> {
    match lookup(entries, key) {
        Some(Bencode::Integer(i)) => Some(i),
        _ => None,
    }
}

impl Bencode {
    /// Integers fit in `i64` and every dictionary, at every depth, has its
    /// keys in strictly ascending order.
    pub open spec fn wf(self) -> bool
        decreases self,
    {
        match self {
            Bencode::Bytes(_) => true,
            Bencode::Integer(i) => i64::MIN <= i <= i64::MAX,
            Bencode::List(items) => forall|j: int|
                0 <= j < items.len() ==> (#[trigger] items[j]).wf(),
            Bencode::Dictionary(entries) => {
                &&& keys_ascending(entries)
                &&& forall|j: int| 0 <= j < entries.len() ==> (#[trigger] entries[j]).1.wf()
            },
        }
    }
}

/// A bencoded value.
///
/// A dictionary holds its entries as `(key, value)` pairs; the decoder
/// always produces them in strictly ascending key order.
#[derive(Debug, PartialEq, Eq)]
pub enum Value {
    Bytes(Vec<u8>),
    Integer(i64),
    List(Vec<Value>),
    Dictionary(Vec<(Vec<u8>, Value)>),
}

impl Value {
    /// The model of this value.
    pub open spec fn model(self) -> Bencode
        decreases self,
    {
        match self {
            Value::Bytes(b) => Bencode::Bytes(b@),
            Value::Integer(i) => Bencode::Integer(i as int),
            Value::List(items) => Bencode::List(
                Seq::new(
                    items.len() as nat,
                    |j: int|
                        if 0 <= j < items.len() {
                            items[j].model()
                        } else {
                            Bencode::Integer(0)
                        },
                ),
            ),
            Value::Dictionary(entries) => Bencode::Dictionary(
                Seq::new(
                    entries.len() as nat,
                    |j: int|
                        if 0 <= j < entries.len() {
                            (entries[j].0@, entries[j].1.model())
                        } else {
                            (Seq::empty(), Bencode::Integer(0))
                        },
                ),
            ),
        }
    }
}

impl Value {
    /// The bytes of a byte string; `None` for any other kind.
    pub fn into_bytes(self) -> (r: Option<Vec<u8>>)
        ensures
            match self {
                Value::Bytes(b) => r == Some(b),
                _ => r is None,
            },
    {
        match self {
            Value::Bytes(bytes) => Some(bytes),
            _ => None,
        }
    }

    /// The number of an integer; `None` for any other kind.
    pub fn into_integer(self) -> (r: Option<i64>)
        ensures
            match self {
                Value::Integer(i) => r == Some(i),
                _ => r is None,
            },
    {
        match self {
            Value::Integer(integer) => Some(integer),
            _ => None,
        }
    }

    /// The items of a list; `None` for any other kind.
    pub fn into_list(self) -> (r: Option<Vec<Value>>)
        ensures
            match self {
                Value::List(items) => r == Some(items),
                _ => r is None,
            },
    {
        match self {
            Value::List(list) => Some(list),
            _ => None,
        }
    }

    /// The entries of a dictionary; `None` for any other kind.
    pub fn into_dictionary(self) -> (r: Option<Vec<(Vec<u8>, Value)>>)
        ensures
            match self {
                Value::Dictionary(entries) => r == Some(entries),
                _ => r is None,
            },
    {
        match self {
            Value::Dictionary(dictionary) => Some(dictionary),
            _ => None,
        }
    }
}

/// The models of a sequence of dictionary entries.
pub open spec fn entry_models(entries: Seq<(Vec<u8>, Value)>) -> Seq<(Seq<u8>, Bencode)> {
    Seq::new(entries.len(), |j: int| (entries[j].0@, entries[j].1@))
}

/// The position of the first entry with this key.
pub fn find_key(entries: &Vec<(Vec<u8>, Value)>, key: &[u8]) -> (r: Option<usize>)
    ensures
        match r {
            Some(k) => k < entries.len() && lookup(entry_models(entries@), key@) == Some(
                entries@[k as int].1@,
            ),
            None => lookup(entry_models(entries@), key@) is None,
        },
{
    let ghost models = entry_models(entries@);
    let mut p: usize = 0;
    assert(models.skip(0) =~= models);
    while p < entries.len()
        invariant
            p <= entries.len(),
            models == entry_models(entries@),
            lookup(models, key@) == lookup(models.skip(p as int), key@),
        decreases entries.len() - p,
    {
        assert(models.skip(p as int)[0] == models[p as int]);
        if compare_bytes(entries[p].0.as_slice(), key) == 0 {
            return Some(p);
        }
        assert(models.skip(p as int).drop_first() =~= models.skip(p + 1));
        p = p + 1;
    }
    None
}

impl View for Value {
    type V = Bencode;

    open spec fn view(&self) -> Bencode {
        self.model()
    }
}

} // verus!
