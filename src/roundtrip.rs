//! Laws of the codec: decoding undoes encoding, canonical input is stable,
//! and decoded values are well-formed.

use vstd::prelude::*;

use crate::codec::{
    bytes_encoding, digit_run_end, encoding, entries_encoding, insert_entry, integer_text,
    items_encoding, lemma_insert_entry_at, parse_bytes_at, parse_entries_at, parse_integer_at,
    parse_items_at, parse_value_at, sorted_entries,
};
use crate::decimal::{decimal, digits_value, is_digit, lemma_decimal_digits};
use crate::order::{bytes_lt, lemma_bytes_lt_total, lemma_bytes_lt_transitive};
use crate::value::{keys_ascending, Bencode};

verus! {

/// `t` stands in `s` from position `i` on.
pub open spec fn occurs_at(s: Seq<u8>, t: Seq<u8>, i: int) -> bool {
    0 <= i && i + t.len() <= s.len() && s.subrange(i, i + t.len()) == t
}

proof fn lemma_occurs_split(s: Seq<u8>, x: Seq<u8>, y: Seq<u8>, i: int)
    requires
        occurs_at(s, x + y, i),
    ensures
        occurs_at(s, x, i),
        occurs_at(s, y, i + x.len()),
{
    let whole = s.subrange(i, i + x.len() + y.len());
    assert(whole == x + y);
    assert forall|k: int| 0 <= k < x.len() implies #[trigger] s.subrange(i, i + x.len())[k]
        == x[k] by {
        assert(whole[k] == s[i + k]);
        assert((x + y)[k] == x[k]);
    }
    assert(s.subrange(i, i + x.len()) =~= x);
    assert forall|k: int| 0 <= k < y.len() implies #[trigger] s.subrange(
        i + x.len(),
        i + x.len() + y.len(),
    )[k] == y[k] by {
        assert(whole[x.len() + k] == s[i + x.len() + k]);
        assert((x + y)[x.len() + k] == y[k]);
    }
    assert(s.subrange(i + x.len(), i + x.len() + y.len()) =~= y);
}

proof fn lemma_occurs_index(s: Seq<u8>, t: Seq<u8>, i: int, k: int)
    requires
        occurs_at(s, t, i),
        0 <= k < t.len(),
    ensures
        s[i + k] == t[k],
{
    assert(s.subrange(i, i + t.len())[k] == s[i + k]);
}

proof fn lemma_digit_run(s: Seq<u8>, i: int, e: int)
    requires
        0 <= i <= e <= s.len(),
        forall|k: int| i <= k < e ==> is_digit(#[trigger] s[k]),
        e < s.len() ==> !is_digit(s[e]),
    ensures
        digit_run_end(s, i) == e,
    decreases e - i,
{
    if i < e {
        lemma_digit_run(s, i + 1, e);
    }
}

/// A run of decimal digits at `i`, ended by the byte `stop`.
proof fn lemma_decimal_at(s: Seq<u8>, n: nat, stop: u8, i: int)
    requires
        occurs_at(s, decimal(n) + seq![stop], i),
        !is_digit(stop),
    ensures
        digit_run_end(s, i) == i + decimal(n).len(),
        s.subrange(i, i + decimal(n).len()) == decimal(n),
        s[i + decimal(n).len()] == stop,
        is_digit(s[i]),
{
    let d = decimal(n);
    lemma_decimal_digits(n);
    lemma_occurs_split(s, d, seq![stop], i);
    lemma_occurs_index(s, seq![stop], i + d.len(), 0);
    lemma_occurs_index(s, d, i, 0);
    assert forall|k: int| i <= k < i + d.len() implies is_digit(#[trigger] s[k]) by {
        lemma_occurs_index(s, d, i, k - i);
    }
    lemma_digit_run(s, i, i + d.len());
}

proof fn lemma_parse_bytes_encoding(b: Seq<u8>, s: Seq<u8>, i: int)
    requires
        occurs_at(s, bytes_encoding(b), i),
    ensures
        parse_value_at(s, i) == Some((Bencode::Bytes(b), i + bytes_encoding(b).len())),
{
    let d = decimal(b.len());
    assert(bytes_encoding(b) == (d + seq![58u8]) + b);
    lemma_occurs_split(s, d + seq![58u8], b, i);
    lemma_decimal_at(s, b.len(), 58, i);
    lemma_decimal_digits(b.len());
    assert(parse_bytes_at(s, i) == Some((Bencode::Bytes(b), i + bytes_encoding(b).len())));
}

proof fn lemma_parse_integer_encoding(x: int, s: Seq<u8>, i: int)
    requires
        i64::MIN <= x <= i64::MAX,
        occurs_at(s, seq![105u8] + integer_text(x) + seq![101u8], i),
    ensures
        parse_value_at(s, i) == Some(
            (Bencode::Integer(x), i + (seq![105u8] + integer_text(x) + seq![101u8]).len()),
        ),
{
    let t = integer_text(x);
    lemma_occurs_index(s, seq![105u8] + t + seq![101u8], i, 0);
    if x < 0 {
        let d = decimal((-x) as nat);
        assert(seq![105u8] + t + seq![101u8] == seq![105u8, 45u8] + (d + seq![101u8]));
        lemma_occurs_split(s, seq![105u8, 45u8], d + seq![101u8], i);
        lemma_occurs_index(s, seq![105u8, 45u8], i, 1);
        lemma_decimal_at(s, (-x) as nat, 101, i + 2);
        lemma_decimal_digits((-x) as nat);
    } else {
        let d = decimal(x as nat);
        assert(seq![105u8] + t + seq![101u8] == seq![105u8] + (d + seq![101u8]));
        lemma_occurs_split(s, seq![105u8], d + seq![101u8], i);
        lemma_decimal_at(s, x as nat, 101, i + 1);
        lemma_decimal_digits(x as nat);
    }
    assert(parse_integer_at(s, i) == Some(
        (Bencode::Integer(x), i + (seq![105u8] + integer_text(x) + seq![101u8]).len()),
    ));
}

/// No encoding starts with the byte that closes a list or dictionary.
proof fn lemma_encoding_first_byte(v: Bencode)
    ensures
        encoding(v).len() > 0,
        encoding(v)[0] != 101,
{
    match v {
        Bencode::Bytes(b) => {
            lemma_decimal_digits(b.len());
        },
        _ => {},
    }
}

/// Entries given in ascending key order are kept as they are.
pub proof fn lemma_sorted_entries_ascending(entries: Seq<(Seq<u8>, Bencode)>)
    requires
        keys_ascending(entries),
    ensures
        sorted_entries(entries) == entries,
    decreases entries.len(),
{
    if entries.len() > 0 {
        let init = entries.drop_last();
        assert(keys_ascending(init)) by {
            assert forall|a: int, b: int| 0 <= a < b < init.len() implies #[trigger] crate::order::bytes_lt(
                init[a].0,
                init[b].0,
            ) by {
                assert(init[a] == entries[a] && init[b] == entries[b]);
            }
        }
        lemma_sorted_entries_ascending(init);
        let last = entries.last();
        assert forall|j: int| 0 <= j < init.len() implies crate::order::bytes_lt(
            #[trigger] init[j].0,
            last.0,
        ) by {
            assert(init[j] == entries[j]);
        }
        lemma_insert_entry_at(init, last.0, last.1, init.len() as int);
        assert(init.insert(init.len() as int, (last.0, last.1)) =~= entries);
    }
}

proof fn lemma_parse_encoding(v: Bencode, s: Seq<u8>, i: int)
    requires
        v.wf(),
        occurs_at(s, encoding(v), i),
    ensures
        parse_value_at(s, i) == Some((v, i + encoding(v).len())),
    decreases v,
{
    match v {
        Bencode::Bytes(b) => {
            lemma_parse_bytes_encoding(b, s, i);
        },
        Bencode::Integer(x) => {
            lemma_parse_integer_encoding(x, s, i);
        },
        Bencode::List(items) => {
            let body = items_encoding(items);
            assert(encoding(v) == seq![108u8] + (body + seq![101u8]));
            lemma_occurs_split(s, seq![108u8], body + seq![101u8], i);
            lemma_occurs_index(s, seq![108u8], i, 0);
            lemma_parse_items(items, s, i + 1);
        },
        Bencode::Dictionary(entries) => {
            let body = entries_encoding(entries);
            assert(encoding(v) == seq![100u8] + (body + seq![101u8]));
            lemma_occurs_split(s, seq![100u8], body + seq![101u8], i);
            lemma_occurs_index(s, seq![100u8], i, 0);
            lemma_parse_entries(entries, s, i + 1);
            lemma_sorted_entries_ascending(entries);
        },
    }
}

proof fn lemma_parse_items(items: Seq<Bencode>, s: Seq<u8>, i: int)
    requires
        forall|j: int| 0 <= j < items.len() ==> (#[trigger] items[j]).wf(),
        occurs_at(s, items_encoding(items) + seq![101u8], i),
    ensures
        parse_items_at(s, i) == Some((items, i + items_encoding(items).len() + 1)),
    decreases items,
{
    if items.len() == 0 {
        assert(items_encoding(items) + seq![101u8] =~= seq![101u8]);
        lemma_occurs_index(s, seq![101u8], i, 0);
        assert(items =~= Seq::<Bencode>::empty());
    } else {
        let first = encoding(items[0]);
        let rest = items.drop_first();
        assert(items_encoding(items) + seq![101u8] =~= first + (items_encoding(rest) + seq![101u8]));
        lemma_occurs_split(s, first, items_encoding(rest) + seq![101u8], i);
        lemma_encoding_first_byte(items[0]);
        lemma_occurs_index(s, first, i, 0);
        lemma_parse_encoding(items[0], s, i);
        assert forall|j: int| 0 <= j < rest.len() implies (#[trigger] rest[j]).wf() by {
            assert(rest[j] == items[j + 1]);
        }
        lemma_parse_items(rest, s, i + first.len());
        assert(seq![items[0]] + rest =~= items);
    }
}

proof fn lemma_parse_entries(entries: Seq<(Seq<u8>, Bencode)>, s: Seq<u8>, i: int)
    requires
        forall|j: int| 0 <= j < entries.len() ==> (#[trigger] entries[j]).1.wf(),
        occurs_at(s, entries_encoding(entries) + seq![101u8], i),
    ensures
        parse_entries_at(s, i) == Some((entries, i + entries_encoding(entries).len() + 1)),
    decreases entries,
{
    if entries.len() == 0 {
        assert(entries_encoding(entries) + seq![101u8] =~= seq![101u8]);
        lemma_occurs_index(s, seq![101u8], i, 0);
        assert(entries =~= Seq::<(Seq<u8>, Bencode)>::empty());
    } else {
        let key = bytes_encoding(entries[0].0);
        let val = encoding(entries[0].1);
        let rest = entries.drop_first();
        assert(entries_encoding(entries) + seq![101u8] =~= key + (val + (entries_encoding(rest)
            + seq![101u8])));
        lemma_occurs_split(s, key, val + (entries_encoding(rest) + seq![101u8]), i);
        lemma_occurs_split(s, val, entries_encoding(rest) + seq![101u8], i + key.len());
        lemma_encoding_first_byte(Bencode::Bytes(entries[0].0));
        lemma_occurs_index(s, key, i, 0);
        lemma_parse_bytes_encoding(entries[0].0, s, i);
        assert(decreases_to!(entries => entries[0]));
        lemma_parse_encoding(entries[0].1, s, i + key.len());
        assert forall|j: int| 0 <= j < rest.len() implies (#[trigger] rest[j]).1.wf() by {
            assert(rest[j] == entries[j + 1]);
        }
        lemma_parse_entries(rest, s, i + key.len() + val.len());
        assert(seq![(entries[0].0, entries[0].1)] + rest =~= entries);
    }
}

/// Decoding the encoding of a well-formed value gives back that value, and
/// takes exactly the encoded bytes.
pub proof fn lemma_round_trip(v: Bencode)
    requires
        v.wf(),
    ensures
        parse_value_at(encoding(v), 0) == Some((v, encoding(v).len() as int)),
{
    assert(encoding(v).subrange(0, encoding(v).len() as int) =~= encoding(v));
    lemma_parse_encoding(v, encoding(v), 0);
}

/// A canonical byte string (the encoding of a well-formed value) decodes in
/// full to a value whose encoding is that same byte string.
pub proof fn lemma_canonical_stable(b: Seq<u8>, v: Bencode)
    requires
        v.wf(),
        b == encoding(v),
    ensures
        parse_value_at(b, 0) matches Some((w, n)) && n == b.len() && encoding(w) == b,
{
    lemma_round_trip(v);
}

/// Inserting keeps every key above a bound that the new key is above too.
proof fn lemma_insert_entry_bounded(d: Seq<(Seq<u8>, Bencode)>, k: Seq<u8>, v: Bencode, lo: Seq<u8>)
    requires
        forall|j: int| 0 <= j < d.len() ==> bytes_lt(lo, #[trigger] d[j].0),
        bytes_lt(lo, k),
    ensures
        forall|j: int|
            0 <= j < insert_entry(d, k, v).len() ==> bytes_lt(lo, #[trigger] insert_entry(d, k, v)[j].0),
    decreases d.len(),
{
    let r = insert_entry(d, k, v);
    if d.len() > 0 && d[0].0 != k && !bytes_lt(k, d[0].0) {
        let rest = d.drop_first();
        assert forall|j: int| 0 <= j < rest.len() implies bytes_lt(lo, #[trigger] rest[j].0) by {
            assert(rest[j] == d[j + 1]);
        }
        lemma_insert_entry_bounded(rest, k, v, lo);
        assert forall|j: int| 0 <= j < r.len() implies bytes_lt(lo, #[trigger] r[j].0) by {
            if j > 0 {
                assert(r[j] == insert_entry(rest, k, v)[j - 1]);
            }
        }
    } else if d.len() > 0 {
        assert forall|j: int| 0 <= j < r.len() implies bytes_lt(lo, #[trigger] r[j].0) by {
            if j > 0 && d[0].0 == k {
                assert(r[j] == d[j]);
            } else if j > 0 {
                assert(r[j] == d[j - 1]);
            }
        }
    }
}

/// Inserting keeps the keys ascending and the values well-formed.
proof fn lemma_insert_entry_wf(d: Seq<(Seq<u8>, Bencode)>, k: Seq<u8>, v: Bencode)
    requires
        keys_ascending(d),
        forall|j: int| 0 <= j < d.len() ==> (#[trigger] d[j]).1.wf(),
        v.wf(),
    ensures
        keys_ascending(insert_entry(d, k, v)),
        forall|j: int| 0 <= j < insert_entry(d, k, v).len() ==> (#[trigger] insert_entry(d, k, v)[j]).1.wf(),
    decreases d.len(),
{
    let r = insert_entry(d, k, v);
    if d.len() == 0 {
    } else if d[0].0 == k {
        assert forall|a: int, b: int| 0 <= a < b < r.len() implies #[trigger] bytes_lt(r[a].0, r[b].0) by {
            assert(r[b] == d[b]);
            if a > 0 {
                assert(r[a] == d[a]);
            }
        }
        assert forall|j: int| 0 <= j < r.len() implies (#[trigger] r[j]).1.wf() by {
            if j > 0 {
                assert(r[j] == d[j]);
            }
        }
    } else if bytes_lt(k, d[0].0) {
        assert forall|a: int, b: int| 0 <= a < b < r.len() implies #[trigger] bytes_lt(r[a].0, r[b].0) by {
            assert(r[b] == d[b - 1]);
            if a > 0 {
                assert(r[a] == d[a - 1]);
            } else if b > 1 {
                assert(bytes_lt(d[0].0, d[b - 1].0));
                lemma_bytes_lt_transitive(k, d[0].0, d[b - 1].0);
            }
        }
        assert forall|j: int| 0 <= j < r.len() implies (#[trigger] r[j]).1.wf() by {
            if j > 0 {
                assert(r[j] == d[j - 1]);
            }
        }
    } else {
        lemma_bytes_lt_total(k, d[0].0);
        let rest = d.drop_first();
        assert(keys_ascending(rest)) by {
            assert forall|a: int, b: int| 0 <= a < b < rest.len() implies #[trigger] bytes_lt(
                rest[a].0,
                rest[b].0,
            ) by {
                assert(rest[a] == d[a + 1] && rest[b] == d[b + 1]);
            }
        }
        assert forall|j: int| 0 <= j < rest.len() implies (#[trigger] rest[j]).1.wf() by {
            assert(rest[j] == d[j + 1]);
        }
        assert forall|j: int| 0 <= j < rest.len() implies bytes_lt(d[0].0, #[trigger] rest[j].0) by {
            assert(rest[j] == d[j + 1]);
        }
        lemma_insert_entry_wf(rest, k, v);
        lemma_insert_entry_bounded(rest, k, v, d[0].0);
        let ir = insert_entry(rest, k, v);
        assert forall|a: int, b: int| 0 <= a < b < r.len() implies #[trigger] bytes_lt(r[a].0, r[b].0) by {
            assert(r[b] == ir[b - 1]);
            if a > 0 {
                assert(r[a] == ir[a - 1]);
            }
        }
        assert forall|j: int| 0 <= j < r.len() implies (#[trigger] r[j]).1.wf() by {
            if j > 0 {
                assert(r[j] == ir[j - 1]);
            }
        }
    }
}

/// A dictionary made from entries read in any order has ascending keys.
proof fn lemma_sorted_entries_wf(raw: Seq<(Seq<u8>, Bencode)>)
    requires
        forall|j: int| 0 <= j < raw.len() ==> (#[trigger] raw[j]).1.wf(),
    ensures
        keys_ascending(sorted_entries(raw)),
        forall|j: int| 0 <= j < sorted_entries(raw).len() ==> (#[trigger] sorted_entries(raw)[j]).1.wf(),
    decreases raw.len(),
{
    if raw.len() > 0 {
        let init = raw.drop_last();
        assert forall|j: int| 0 <= j < init.len() implies (#[trigger] init[j]).1.wf() by {
            assert(init[j] == raw[j]);
        }
        lemma_sorted_entries_wf(init);
        lemma_insert_entry_wf(sorted_entries(init), raw.last().0, raw.last().1);
    }
}

/// What the decoder produces is well-formed: integers fit in `i64` and
/// every dictionary has its keys in ascending order.
pub proof fn lemma_parse_value_wf(s: Seq<u8>, i: int)
    ensures
        parse_value_at(s, i) matches Some((v, _)) ==> v.wf(),
    decreases s.len() - i, 0int,
{
    if 0 <= i < s.len() && !is_digit(s[i]) && s[i] != 105 {
        if s[i] == 108 {
            lemma_parse_items_wf(s, i + 1);
        } else if s[i] == 100 {
            lemma_parse_entries_wf(s, i + 1);
            if let Some((entries, _)) = parse_entries_at(s, i + 1) {
                lemma_sorted_entries_wf(entries);
            }
        }
    }
}

proof fn lemma_parse_items_wf(s: Seq<u8>, i: int)
    ensures
        parse_items_at(s, i) matches Some((items, _)) ==> forall|j: int|
            0 <= j < items.len() ==> (#[trigger] items[j]).wf(),
    decreases s.len() - i, 1int,
{
    if 0 <= i < s.len() && s[i] != 101 {
        lemma_parse_value_wf(s, i);
        if let Some((v, j)) = parse_value_at(s, i) {
            if i < j <= s.len() {
                lemma_parse_items_wf(s, j);
                if let Some((rest, _)) = parse_items_at(s, j) {
                    let items = seq![v] + rest;
                    assert forall|k: int| 0 <= k < items.len() implies (#[trigger] items[k]).wf() by {
                        if k > 0 {
                            assert(items[k] == rest[k - 1]);
                        }
                    }
                }
            }
        }
    }
}

proof fn lemma_parse_entries_wf(s: Seq<u8>, i: int)
    ensures
        parse_entries_at(s, i) matches Some((entries, _)) ==> forall|j: int|
            0 <= j < entries.len() ==> (#[trigger] entries[j]).1.wf(),
    decreases s.len() - i, 1int,
{
    if 0 <= i < s.len() && s[i] != 101 {
        if let Some((Bencode::Bytes(key), j)) = parse_value_at(s, i) {
            if i < j <= s.len() {
                lemma_parse_value_wf(s, j);
                if let Some((v, k)) = parse_value_at(s, j) {
                    if j < k <= s.len() {
                        lemma_parse_entries_wf(s, k);
                        if let Some((rest, _)) = parse_entries_at(s, k) {
                            let entries = seq![(key, v)] + rest;
                            assert forall|m: int| 0 <= m < entries.len() implies (
                            #[trigger] entries[m]).1.wf() by {
                                if m > 0 {
                                    assert(entries[m] == rest[m - 1]);
                                }
                            }
                        }
                    }
                }
            }
        }
    }
}

} // verus!
