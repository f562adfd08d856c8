//! The bencode codec: the grammar and the canonical encoding as spec
//! functions, and the decoder and encoder proved against them.

use vstd::prelude::*;

use crate::decimal::{
    canonical_digits, decimal, digits_value, is_digit, lemma_digits_value_prefix, push_decimal,
    read_digits,
};
use crate::order::{bytes_lt, compare_bytes, lemma_bytes_lt_asymmetric, lemma_bytes_lt_irreflexive};
use crate::value::{entry_models, Bencode, Value};

verus! {

// ---------------------------------------------------------------------------
// Encoding

/// The text of an integer: an optional minus sign, then its shortest decimal
/// spelling.
pub open spec fn integer_text(i: int) -> Seq<u8> {
    if i < 0 {
        seq![45u8] + decimal((-i) as nat)
    } else {
        decimal(i as nat)
    }
}

/// The bencoding of a byte string: `<length>:<bytes>`.
pub open spec fn bytes_encoding(b: Seq<u8>) -> Seq<u8> {
    decimal(b.len()) + seq![58u8] + b
}

/// The canonical bencoding of a value.
pub open spec fn encoding(v: Bencode) -> Seq<u8>
    decreases v,
{
    match v {
        Bencode::Bytes(b) => bytes_encoding(b),
        Bencode::Integer(i) => seq![105u8] + integer_text(i) + seq![101u8],
        Bencode::List(items) => seq![108u8] + items_encoding(items) + seq![101u8],
        Bencode::Dictionary(entries) => seq![100u8] + entries_encoding(entries) + seq![101u8],
    }
}

/// The list items' encodings, one after another.
pub open spec fn items_encoding(items: Seq<Bencode>) -> Seq<u8>
    decreases items,
{
    if items.len() == 0 {
        Seq::empty()
    } else {
        encoding(items[0]) + items_encoding(items.drop_first())
    }
}

/// Each entry's key and value encodings, one entry after another.
pub open spec fn entries_encoding(entries: Seq<(Seq<u8>, Bencode)>) -> Seq<u8>
    decreases entries,
{
    if entries.len() == 0 {
        Seq::empty()
    } else {
        bytes_encoding(entries[0].0) + encoding(entries[0].1) + entries_encoding(
            entries.drop_first(),
        )
    }
}

// ---------------------------------------------------------------------------
// Decoding

/// The end of the run of digits that starts at `i`.
pub open spec fn digit_run_end(s: Seq<u8>, i: int) -> int
    decreases s.len() - i,
{
    if 0 <= i < s.len() && is_digit(s[i]) {
        digit_run_end(s, i + 1)
    } else {
        i
    }
}

/// A byte string at `i` (where a digit stands): `<length>:<bytes>`.
pub open spec fn parse_bytes_at(s: Seq<u8>, i: int) -> Option<(Bencode, int)> {
    let e = digit_run_end(s, i);
    if e < s.len() && s[e] == 58 {
        let n = digits_value(s.subrange(i, e));
        if e + 1 + n <= s.len() {
            Some((Bencode::Bytes(s.subrange(e + 1, e + 1 + n)), e + 1 + n))
        } else {
            None
        }
    } else {
        None
    }
}

/// An integer at `i` (where `i` stands): `i`, an optional `-`, canonical
/// digits (no leading zero, no negative zero), `e`; its value fits in `i64`.
pub open spec fn parse_integer_at(s: Seq<u8>, i: int) -> Option<(Bencode, int)> {
    let negative = i + 1 < s.len() && s[i + 1] == 45;
    let start = if negative {
        i + 2
    } else {
        i + 1
    };
    let e = digit_run_end(s, start);
    let digits = s.subrange(start, e);
    let magnitude = digits_value(digits);
    let value = if negative {
        -magnitude
    } else {
        magnitude as int
    };
    if e < s.len() && s[e] == 101 && canonical_digits(digits) && !(negative && magnitude == 0)
        && i64::MIN <= value <= i64::MAX {
        Some((Bencode::Integer(value), e + 1))
    } else {
        None
    }
}

/// The value that starts at `i`, and the position just past it.
pub open spec fn parse_value_at(s: Seq<u8>, i: int) -> Option<(Bencode, int)>
    decreases s.len() - i, 0int,
{
    if !(0 <= i < s.len()) {
        None
    } else if is_digit(s[i]) {
        parse_bytes_at(s, i)
    } else if s[i] == 105 {
        parse_integer_at(s, i)
    } else if s[i] == 108 {
        match parse_items_at(s, i + 1) {
            Some((items, j)) => Some((Bencode::List(items), j)),
            None => None,
        }
    } else if s[i] == 100 {
        match parse_entries_at(s, i + 1) {
            Some((entries, j)) => Some((Bencode::Dictionary(sorted_entries(entries)), j)),
            None => None,
        }
    } else {
        None
    }
}

/// List items from `i` up to and including the closing `e`.
pub open spec fn parse_items_at(s: Seq<u8>, i: int) -> Option<(Seq<Bencode>, int)>
    decreases s.len() - i, 1int,
{
    if !(0 <= i < s.len()) {
        None
    } else if s[i] == 101 {
        Some((Seq::empty(), i + 1))
    } else {
        match parse_value_at(s, i) {
            Some((v, j)) => if i < j <= s.len() {
                match parse_items_at(s, j) {
                    Some((rest, k)) => Some((seq![v] + rest, k)),
                    None => None,
                }
            } else {
                None
            },
            None => None,
        }
    }
}

/// Dictionary entries, in the order read, from `i` up to and including the
/// closing `e`; every key is a byte string.
pub open spec fn parse_entries_at(s: Seq<u8>, i: int) -> Option<(Seq<(Seq<u8>, Bencode)>, int)>
    decreases s.len() - i, 1int,
{
    if !(0 <= i < s.len()) {
        None
    } else if s[i] == 101 {
        Some((Seq::empty(), i + 1))
    } else {
        match parse_value_at(s, i) {
            Some((Bencode::Bytes(key), j)) => if i < j <= s.len() {
                match parse_value_at(s, j) {
                    Some((v, k)) => if j < k <= s.len() {
                        match parse_entries_at(s, k) {
                            Some((rest, m)) => Some((seq![(key, v)] + rest, m)),
                            None => None,
                        }
                    } else {
                        None
                    },
                    None => None,
                }
            } else {
                None
            },
            _ => None,
        }
    }
}

/// Puts an entry into a key-ordered association list: it replaces the entry
/// with an equal key, or goes in before the first greater key.
pub open spec fn insert_entry(d: Seq<(Seq<u8>, Bencode)>, key: Seq<u8>, v: Bencode) -> Seq<
    (Seq<u8>, Bencode),
>
    decreases d.len(),
{
    if d.len() == 0 {
        seq![(key, v)]
    } else if d[0].0 == key {
        seq![(key, v)] + d.drop_first()
    } else if bytes_lt(key, d[0].0) {
        seq![(key, v)] + d
    } else {
        seq![d[0]] + insert_entry(d.drop_first(), key, v)
    }
}

/// The dictionary that entries read in this order make: keys ascending, and
/// of equal keys the last one read wins.
pub open spec fn sorted_entries(raw: Seq<(Seq<u8>, Bencode)>) -> Seq<(Seq<u8>, Bencode)>
    decreases raw.len(),
{
    if raw.len() == 0 {
        Seq::empty()
    } else {
        insert_entry(sorted_entries(raw.drop_last()), raw.last().0, raw.last().1)
    }
}

/// The models of a sequence of values.
pub open spec fn item_models(items: Seq<Value>) -> Seq<Bencode> {
    Seq::new(items.len(), |j: int| items[j]@)
}

pub proof fn lemma_list_model(items: Vec<Value>)
    ensures
        Value::List(items)@ == Bencode::List(item_models(items@)),
{
    assert(item_models(items@) =~= Value::List(items)@->List_0);
}

pub proof fn lemma_dictionary_model(entries: Vec<(Vec<u8>, Value)>)
    ensures
        Value::Dictionary(entries)@ == Bencode::Dictionary(entry_models(entries@)),
{
    assert(entry_models(entries@) =~= Value::Dictionary(entries)@->Dictionary_0);
}

/// Appends the bytes of `b`.
pub fn push_all(out: &mut Vec<u8>, b: &[u8])
    ensures
        final(out)@ == old(out)@ + b@,
{
    let mut k: usize = 0;
    while k < b.len()
        invariant
            k <= b.len(),
            out@ == old(out)@ + b@.subrange(0, k as int),
        decreases b.len() - k,
    {
        out.push(b[k]);
        k = k + 1;
        assert(out@ =~= old(out)@ + b@.subrange(0, k as int));
    }
    assert(b@.subrange(0, k as int) =~= b@);
}

fn push_bytes_encoding(out: &mut Vec<u8>, b: &[u8])
    ensures
        final(out)@ == old(out)@ + bytes_encoding(b@),
{
    push_decimal(out, b.len() as u64);
    out.push(58);
    push_all(out, b);
    assert(final(out)@ =~= old(out)@ + bytes_encoding(b@));
}

fn push_integer_encoding(out: &mut Vec<u8>, i: i64)
    ensures
        final(out)@ == old(out)@ + seq![105u8] + integer_text(i as int) + seq![101u8],
{
    out.push(105);
    let ghost mid = out@;
    if i < 0 {
        out.push(45);
        let magnitude: u64 = if i == i64::MIN {
            9223372036854775808
        } else {
            (-i) as u64
        };
        push_decimal(out, magnitude);
    } else {
        push_decimal(out, i as u64);
    }
    out.push(101);
    assert(out@ =~= old(out)@ + seq![105u8] + integer_text(i as int) + seq![101u8]);
}

fn encode_into(out: &mut Vec<u8>, v: &Value)
    ensures
        final(out)@ == old(out)@ + encoding(v@),
    decreases v,
{
    match v {
        Value::Bytes(b) => {
            push_bytes_encoding(out, b.as_slice());
        },
        Value::Integer(i) => {
            push_integer_encoding(out, *i);
        },
        Value::List(items) => {
            let ghost ms = item_models(items@);
            proof {
                lemma_list_model(*items);
            }
            out.push(108);
            let ghost target = out@ + items_encoding(ms);
            let mut k: usize = 0;
            assert(ms.skip(0) =~= ms);
            while k < items.len()
                invariant
                    k <= items.len(),
                    ms == item_models(items@),
                    *v == Value::List(*items),
                    out@ + items_encoding(ms.skip(k as int)) == target,
                decreases items.len() - k,
            {
                proof {
                    assert(ms.skip(k as int).drop_first() =~= ms.skip(k + 1));
                    assert(ms.skip(k as int)[0] == items@[k as int]@);
                }
                let ghost before = out@;
                proof {
                    assert(decreases_to!(*v => (*v)->List_0));
                    assert(decreases_to!(*items => items@));
                    assert(decreases_to!(items@ => items@[k as int]));
                }
                encode_into(out, &items[k]);
                assert(out@ + items_encoding(ms.skip(k + 1)) =~= before + items_encoding(
                    ms.skip(k as int),
                ));
                k = k + 1;
            }
            assert(ms.skip(k as int) =~= Seq::<Bencode>::empty());
            out.push(101);
            assert(out@ =~= old(out)@ + encoding(v@));
        },
        Value::Dictionary(entries) => {
            let ghost ms = entry_models(entries@);
            proof {
                lemma_dictionary_model(*entries);
            }
            out.push(100);
            let ghost target = out@ + entries_encoding(ms);
            let mut k: usize = 0;
            assert(ms.skip(0) =~= ms);
            while k < entries.len()
                invariant
                    k <= entries.len(),
                    ms == entry_models(entries@),
                    *v == Value::Dictionary(*entries),
                    out@ + entries_encoding(ms.skip(k as int)) == target,
                decreases entries.len() - k,
            {
                proof {
                    assert(ms.skip(k as int).drop_first() =~= ms.skip(k + 1));
                    assert(ms.skip(k as int)[0] == (entries@[k as int].0@, entries@[k as int].1@));
                }
                let ghost before = out@;
                push_bytes_encoding(out, entries[k].0.as_slice());
                proof {
                    assert(decreases_to!(*v => (*v)->Dictionary_0));
                    assert(decreases_to!(*entries => entries@));
                    assert(decreases_to!(entries@ => entries@[k as int]));
                    assert(decreases_to!(entries@[k as int] => entries@[k as int].1));
                }
                encode_into(out, &entries[k].1);
                assert(out@ + entries_encoding(ms.skip(k + 1)) =~= before + entries_encoding(
                    ms.skip(k as int),
                ));
                k = k + 1;
            }
            assert(ms.skip(k as int) =~= Seq::<(Seq<u8>, Bencode)>::empty());
            out.push(101);
            assert(out@ =~= old(out)@ + encoding(v@));
        },
    }
}

/// The bencoding of a value. Dictionary entries are written in the order in
/// which they are held, so the bytes are canonical when the value is
/// well-formed (keys ascending, as the decoder always produces them); then,
/// and only then, decoding them gives back the value.
pub fn encode_bencoded_value(decoded_value: &Value) -> (r: Vec<u8>)
    ensures
        r@ == encoding(decoded_value@),
        decoded_value@.wf() ==> parse_value_at(r@, 0) == Some(
            (decoded_value@, r@.len() as int),
        ),
{
    let mut out: Vec<u8> = Vec::new();
    encode_into(&mut out, decoded_value);
    assert(out@ =~= encoding(decoded_value@));
    proof {
        if decoded_value@.wf() {
            crate::roundtrip::lemma_round_trip(decoded_value@);
        }
    }
    out
}

/// The input does not follow the bencode grammar (see `parse_value_at`).
#[derive(Debug, PartialEq, Eq)]
pub struct DecodeError;

/// The entry for `key` goes at the first position whose key is not below it.
pub proof fn lemma_insert_entry_at(
    d: Seq<(Seq<u8>, Bencode)>,
    key: Seq<u8>,
    v: Bencode,
    p: int,
)
    requires
        0 <= p <= d.len(),
        forall|j: int| 0 <= j < p ==> bytes_lt(#[trigger] d[j].0, key),
        p < d.len() ==> d[p].0 == key || bytes_lt(key, d[p].0),
    ensures
        insert_entry(d, key, v) == if p < d.len() && d[p].0 == key {
            d.update(p, (key, v))
        } else {
            d.insert(p, (key, v))
        },
    decreases p,
{
    if p == 0 {
        if d.len() == 0 {
            assert(d.insert(0, (key, v)) =~= seq![(key, v)]);
        } else if d[0].0 == key {
            assert(d.update(0, (key, v)) =~= seq![(key, v)] + d.drop_first());
        } else {
            assert(d.insert(0, (key, v)) =~= seq![(key, v)] + d);
        }
    } else {
        lemma_bytes_lt_irreflexive(key);
        lemma_bytes_lt_asymmetric(d[0].0, key);
        assert(bytes_lt(d[0].0, key));
        let rest = d.drop_first();
        assert forall|j: int| 0 <= j < p - 1 implies bytes_lt(#[trigger] rest[j].0, key) by {
            assert(rest[j] == d[j + 1]);
        }
        lemma_insert_entry_at(rest, key, v, p - 1);
        if p < d.len() && d[p].0 == key {
            assert(d.update(p, (key, v)) =~= seq![d[0]] + rest.update(p - 1, (key, v)));
        } else {
            assert(d.insert(p, (key, v)) =~= seq![d[0]] + rest.insert(p - 1, (key, v)));
        }
    }
}

/// Puts `(key, v)` into a key-ordered dictionary, as `insert_entry` says.
fn insert_sorted(d: &mut Vec<(Vec<u8>, Value)>, key: Vec<u8>, v: Value)
    ensures
        entry_models(final(d)@) == insert_entry(entry_models(old(d)@), key@, v@),
{
    let ghost model = entry_models(d@);
    let mut p: usize = 0;
    let mut order: i8 = 1;
    while p < d.len()
        invariant_except_break
            p <= d.len(),
            model == entry_models(d@),
            forall|j: int| 0 <= j < p ==> bytes_lt(#[trigger] model[j].0, key@),
        ensures
            p <= d.len(),
            model == entry_models(d@),
            forall|j: int| 0 <= j < p ==> bytes_lt(#[trigger] model[j].0, key@),
            p < d.len() ==> (order == 0 && model[p as int].0 == key@) || (order == 1 && bytes_lt(
                key@,
                model[p as int].0,
            )),
        decreases d.len() - p,
    {
        order = compare_bytes(d[p].0.as_slice(), key.as_slice());
        if order != -1 {
            break;
        }
        p = p + 1;
    }
    proof {
        lemma_bytes_lt_irreflexive(key@);
        lemma_insert_entry_at(model, key@, v@, p as int);
    }
    let ghost entry = (key@, v@);
    if p < d.len() && order == 0 {
        d.set(p, (key, v));
        assert(entry_models(d@) =~= model.update(p as int, entry));
    } else {
        d.insert(p, (key, v));
        assert(entry_models(d@) =~= model.insert(p as int, entry));
    }
}

/// The end of the run of digits in `b` that starts at `start`.
fn scan_digits(b: &[u8], start: usize) -> (e: usize)
    requires
        start <= b.len(),
    ensures
        start <= e <= b.len(),
        e == digit_run_end(b@, start as int),
        forall|k: int| start <= k < e ==> is_digit(#[trigger] b@[k]),
{
    let mut e: usize = start;
    while e < b.len() && 48 <= b[e] && b[e] <= 57
        invariant
            start <= e <= b.len(),
            digit_run_end(b@, e as int) == digit_run_end(b@, start as int),
            forall|k: int| start <= k < e ==> is_digit(#[trigger] b@[k]),
        decreases b.len() - e,
    {
        e = e + 1;
    }
    e
}

fn decode_bytes_at(b: &[u8], i: usize) -> (r: Result<(Value, usize), DecodeError>)
    requires
        i < b.len(),
        is_digit(b@[i as int]),
    ensures
        match r {
            Ok((v, j)) => parse_bytes_at(b@, i as int) == Some((v@, j as int)) && i < j <= b.len(),
            Err(_) => parse_bytes_at(b@, i as int) is None,
        },
{
    let e = scan_digits(b, i);
    if e >= b.len() || b[e] != 58 {
        return Err(DecodeError);
    }
    let room: usize = b.len() - (e + 1);
    match read_digits(b, i, e, room as u64) {
        None => Err(DecodeError),
        Some(n) => {
            let end: usize = e + 1 + n as usize;
            let bytes = vstd::slice::slice_to_vec(vstd::slice::slice_subrange(b, e + 1, end));
            Ok((Value::Bytes(bytes), end))
        },
    }
}

fn decode_integer_at(b: &[u8], i: usize) -> (r: Result<(Value, usize), DecodeError>)
    requires
        i < b.len(),
        b@[i as int] == 105,
    ensures
        match r {
            Ok((v, j)) => parse_integer_at(b@, i as int) == Some((v@, j as int)) && i < j <= b.len(),
            Err(_) => parse_integer_at(b@, i as int) is None,
        },
{
    let negative = i + 1 < b.len() && b[i + 1] == 45;
    let start: usize = if negative {
        i + 2
    } else {
        i + 1
    };
    let e = scan_digits(b, start);
    let ghost digits = b@.subrange(start as int, e as int);
    proof {
        if e > start {
            lemma_digits_value_prefix(digits, 1);
            assert(digits.subrange(0, 1).drop_last() =~= Seq::<u8>::empty());
            assert(digits_value(Seq::<u8>::empty()) == 0);
            if digits.len() == 1 {
                assert(digits.subrange(0, 1) =~= digits);
            }
        }
    }
    if e >= b.len() || b[e] != 101 || e == start {
        return Err(DecodeError);
    }
    if b[start] == 48 && (e - start > 1 || negative) {
        return Err(DecodeError);
    }
    let cap: u64 = if negative {
        9223372036854775808
    } else {
        9223372036854775807
    };
    match read_digits(b, start, e, cap) {
        None => Err(DecodeError),
        Some(m) => {
            let value: i64 = if !negative {
                m as i64
            } else if m == 9223372036854775808 {
                i64::MIN
            } else {
                -(m as i64)
            };
            Ok((Value::Integer(value), e + 1))
        },
    }
}

/// What a list of items read so far and the rest of the list make.
pub open spec fn prepend_items(prefix: Seq<Bencode>, rest: Option<(Seq<Bencode>, int)>) -> Option<
    (Seq<Bencode>, int),
> {
    match rest {
        Some((items, k)) => Some((prefix + items, k)),
        None => None,
    }
}

/// What dictionary entries read so far and the rest of the entries make.
pub open spec fn prepend_entries(
    prefix: Seq<(Seq<u8>, Bencode)>,
    rest: Option<(Seq<(Seq<u8>, Bencode)>, int)>,
) -> Option<(Seq<(Seq<u8>, Bencode)>, int)> {
    match rest {
        Some((entries, k)) => Some((prefix + entries, k)),
        None => None,
    }
}

fn decode_at(b: &[u8], i: usize) -> (r: Result<(Value, usize), DecodeError>)
    requires
        i <= b.len(),
    ensures
        match r {
            Ok((v, j)) => parse_value_at(b@, i as int) == Some((v@, j as int)) && i < j <= b.len(),
            Err(_) => parse_value_at(b@, i as int) is None,
        },
    decreases b.len() - i,
{
    if i >= b.len() {
        return Err(DecodeError);
    }
    let first = b[i];
    if 48 <= first && first <= 57 {
        decode_bytes_at(b, i)
    } else if first == 105 {
        decode_integer_at(b, i)
    } else if first == 108 {
        let mut items: Vec<Value> = Vec::new();
        let mut pos: usize = i + 1;
        assert(item_models(items@) + Seq::<Bencode>::empty() =~= Seq::<Bencode>::empty());
        assert(prepend_items(Seq::empty(), parse_items_at(b@, pos as int)) == parse_items_at(
            b@,
            pos as int,
        )) by {
            assert(forall|t: Seq<Bencode>| Seq::<Bencode>::empty() + t =~= t);
        }
        loop
            invariant
                i < pos <= b.len(),
                b@[i as int] == 108,
                parse_items_at(b@, i + 1) == prepend_items(
                    item_models(items@),
                    parse_items_at(b@, pos as int),
                ),
            decreases b.len() - pos,
        {
            if pos >= b.len() {
                return Err(DecodeError);
            }
            if b[pos] == 101 {
                proof {
                    lemma_list_model(items);
                    assert(item_models(items@) + Seq::<Bencode>::empty() =~= item_models(items@));
                }
                return Ok((Value::List(items), pos + 1));
            }
            match decode_at(b, pos) {
                Err(_) => {
                    return Err(DecodeError);
                },
                Ok((v, j)) => {
                    let ghost before = item_models(items@);
                    let ghost vm = v@;
                    items.push(v);
                    proof {
                        assert(item_models(items@) =~= before.push(vm));
                        match parse_items_at(b@, j as int) {
                            Some((rest, k)) => {
                                assert(before + (seq![vm] + rest) =~= before.push(vm) + rest);
                            },
                            None => {},
                        }
                    }
                    pos = j;
                },
            }
        }
    } else if first == 100 {
        let mut entries: Vec<(Vec<u8>, Value)> = Vec::new();
        let ghost raw: Seq<(Seq<u8>, Bencode)> = Seq::empty();
        let mut pos: usize = i + 1;
        assert(prepend_entries(raw, parse_entries_at(b@, pos as int)) == parse_entries_at(
            b@,
            pos as int,
        )) by {
            assert(forall|t: Seq<(Seq<u8>, Bencode)>| raw + t =~= t);
        }
        assert(entry_models(entries@) =~= sorted_entries(raw));
        loop
            invariant
                i < pos <= b.len(),
                b@[i as int] == 100,
                parse_entries_at(b@, i + 1) == prepend_entries(
                    raw,
                    parse_entries_at(b@, pos as int),
                ),
                entry_models(entries@) == sorted_entries(raw),
            decreases b.len() - pos,
        {
            if pos >= b.len() {
                return Err(DecodeError);
            }
            if b[pos] == 101 {
                proof {
                    lemma_dictionary_model(entries);
                    assert(raw + Seq::<(Seq<u8>, Bencode)>::empty() =~= raw);
                }
                return Ok((Value::Dictionary(entries), pos + 1));
            }
            let key = match decode_at(b, pos) {
                Ok((Value::Bytes(key), j)) => {
                    pos = j;
                    key
                },
                _ => {
                    return Err(DecodeError);
                },
            };
            let ghost key_at = pos;
            match decode_at(b, pos) {
                Err(_) => {
                    return Err(DecodeError);
                },
                Ok((v, k)) => {
                    let ghost entry = (key@, v@);
                    insert_sorted(&mut entries, key, v);
                    proof {
                        let grown = raw.push(entry);
                        assert(grown.drop_last() =~= raw);
                        match parse_entries_at(b@, k as int) {
                            Some((rest, m)) => {
                                assert(raw + (seq![entry] + rest) =~= grown + rest);
                            },
                            None => {},
                        }
                        raw = grown;
                    }
                    pos = k;
                },
            }
        }
    } else {
        Err(DecodeError)
    }
}

/// Decodes the value at the start of `encoded_value`, and says how many
/// bytes it takes. Bytes after it are not looked at.
pub fn decode_bencoded_value(encoded_value: &[u8]) -> (r: Result<(Value, usize), DecodeError>)
    ensures
        match r {
            Ok((v, n)) => parse_value_at(encoded_value@, 0) == Some((v@, n as int)) && v@.wf(),
            Err(_) => parse_value_at(encoded_value@, 0) is None,
        },
{
    proof {
        crate::roundtrip::lemma_parse_value_wf(encoded_value@, 0);
    }
    decode_at(encoded_value, 0)
}

} // verus!
