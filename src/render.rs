//! The display text of a bencoded value.

use vstd::prelude::*;
use vstd::utf8::{decode_utf8, valid_utf8, valid_utf8_concat};

use crate::codec::{integer_text, item_models, lemma_dictionary_model, lemma_list_model, push_all};
use crate::decimal::{decimal, lemma_decimal_digits, push_decimal};
use crate::metainfo::string_from_utf8;
use crate::tracker::lemma_ascii_valid_utf8;
use crate::value::{entry_models, Bencode, Value};

verus! {

/// The UTF-8 bytes of the text that `String::from_utf8_lossy` makes of `b`.
pub uninterp spec fn lossy_text(b: Seq<u8>) -> Seq<u8>;

/// Relies on `String::from_utf8_lossy`: its text depends on the bytes alone,
/// is valid UTF-8 (it is a `str`), and is the bytes unchanged when they are
/// valid UTF-8 already.
#[verifier::external_body]
fn lossy_utf8(b: &[u8]) -> (r: Vec<u8>)
    ensures
        r@ == lossy_text(b@),
        valid_utf8(r@),
        valid_utf8(b@) ==> r@ == b@,
{
    String::from_utf8_lossy(b).into_owned().into_bytes()
}

/// The display text of a value: a byte string as `r#"<text>"#`, an integer
/// in decimal, a list as `[a,b]`, a dictionary as `{"key":value,...}`.
pub open spec fn rendering(v: Bencode) -> Seq<u8>
    decreases v,
{
    match v {
        Bencode::Bytes(b) => seq![114u8, 35, 34] + lossy_text(b) + seq![34u8, 35],
        Bencode::Integer(i) => integer_text(i),
        Bencode::List(items) => seq![91u8] + items_rendering(items, true) + seq![93u8],
        Bencode::Dictionary(entries) => seq![123u8] + entries_rendering(entries, true) + seq![125u8],
    }
}

/// A comma, unless this comes first.
pub open spec fn separator(first: bool) -> Seq<u8> {
    if first {
        Seq::empty()
    } else {
        seq![44u8]
    }
}

/// List items' display texts, separated by commas.
pub open spec fn items_rendering(items: Seq<Bencode>, first: bool) -> Seq<u8>
    decreases items,
{
    if items.len() == 0 {
        Seq::empty()
    } else {
        separator(first) + rendering(items[0]) + items_rendering(items.drop_first(), false)
    }
}

/// Dictionary entries as `"key":value`, separated by commas.
pub open spec fn entries_rendering(entries: Seq<(Seq<u8>, Bencode)>, first: bool) -> Seq<u8>
    decreases entries,
{
    if entries.len() == 0 {
        Seq::empty()
    } else {
        separator(first) + seq![34u8] + lossy_text(entries[0].0) + seq![34u8, 58] + rendering(
            entries[0].1,
        ) + entries_rendering(entries.drop_first(), false)
    }
}

/// Appends ASCII bytes to UTF-8 text.
fn push_ascii(out: &mut Vec<u8>, piece: &[u8])
    requires
        valid_utf8(old(out)@),
        forall|k: int| 0 <= k < piece@.len() ==> #[trigger] piece@[k] < 128,
    ensures
        final(out)@ == old(out)@ + piece@,
        valid_utf8(final(out)@),
{
    proof {
        lemma_ascii_valid_utf8(piece@);
        valid_utf8_concat(out@, piece@);
    }
    push_all(out, piece);
}

/// Appends the lossy text of `b` to UTF-8 text.
fn push_lossy(out: &mut Vec<u8>, b: &[u8])
    requires
        valid_utf8(old(out)@),
    ensures
        final(out)@ == old(out)@ + lossy_text(b@),
        valid_utf8(final(out)@),
{
    let text = lossy_utf8(b);
    proof {
        valid_utf8_concat(out@, text@);
    }
    push_all(out, text.as_slice());
}

fn render_into(out: &mut Vec<u8>, v: &Value)
    requires
        valid_utf8(old(out)@),
    ensures
        final(out)@ == old(out)@ + rendering(v@),
        valid_utf8(final(out)@),
    decreases v,
{
    match v {
        Value::Bytes(b) => {
            let open: [u8; 3] = [114, 35, 34];
            let close: [u8; 2] = [34, 35];
            push_ascii(out, open.as_slice());
            push_lossy(out, b.as_slice());
            push_ascii(out, close.as_slice());
            assert(out@ =~= old(out)@ + rendering(v@));
        },
        Value::Integer(i) => {
            let mut text: Vec<u8> = Vec::new();
            if *i < 0 {
                text.push(45);
                let magnitude: u64 = if *i == i64::MIN {
                    9223372036854775808
                } else {
                    (-*i) as u64
                };
                push_decimal(&mut text, magnitude);
                proof {
                    lemma_decimal_digits(magnitude as nat);
                    assert forall|k: int| 0 <= k < text@.len() implies #[trigger] text@[k] < 128 by {
                        if k > 0 {
                            assert(text@[k] == decimal(magnitude as nat)[k - 1]);
                        }
                    }
                }
            } else {
                push_decimal(&mut text, *i as u64);
                proof {
                    lemma_decimal_digits(*i as nat);
                }
            }
            assert(text@ =~= integer_text(*i as int));
            push_ascii(out, text.as_slice());
        },
        Value::List(items) => {
            let ghost ms = item_models(items@);
            proof {
                lemma_list_model(*items);
            }
            let open: [u8; 1] = [91];
            let comma: [u8; 1] = [44];
            let close: [u8; 1] = [93];
            push_ascii(out, open.as_slice());
            let ghost target = out@ + items_rendering(ms, true);
            let mut k: usize = 0;
            assert(ms.skip(0) =~= ms);
            while k < items.len()
                invariant
                    k <= items.len(),
                    ms == item_models(items@),
                    *v == Value::List(*items),
                    comma@ == seq![44u8],
                    valid_utf8(out@),
                    out@ + items_rendering(ms.skip(k as int), k == 0) == target,
                decreases items.len() - k,
            {
                proof {
                    assert(ms.skip(k as int).drop_first() =~= ms.skip(k + 1));
                    assert(ms.skip(k as int)[0] == items@[k as int]@);
                }
                let ghost before = out@;
                if k > 0 {
                    push_ascii(out, comma.as_slice());
                }
                proof {
                    assert(decreases_to!(*v => (*v)->List_0));
                    assert(decreases_to!(*items => items@));
                    assert(decreases_to!(items@ => items@[k as int]));
                }
                render_into(out, &items[k]);
                assert(out@ + items_rendering(ms.skip(k + 1), false) =~= before + items_rendering(
                    ms.skip(k as int),
                    k == 0,
                ));
                k = k + 1;
            }
            assert(ms.skip(k as int) =~= Seq::<Bencode>::empty());
            push_ascii(out, close.as_slice());
            assert(out@ =~= old(out)@ + rendering(v@));
        },
        Value::Dictionary(entries) => {
            let ghost ms = entry_models(entries@);
            proof {
                lemma_dictionary_model(*entries);
            }
            let open: [u8; 1] = [123];
            let comma: [u8; 1] = [44];
            let quote: [u8; 1] = [34];
            let quote_colon: [u8; 2] = [34, 58];
            let close: [u8; 1] = [125];
            push_ascii(out, open.as_slice());
            let ghost target = out@ + entries_rendering(ms, true);
            let mut k: usize = 0;
            assert(ms.skip(0) =~= ms);
            while k < entries.len()
                invariant
                    k <= entries.len(),
                    ms == entry_models(entries@),
                    *v == Value::Dictionary(*entries),
                    comma@ == seq![44u8],
                    quote@ == seq![34u8],
                    quote_colon@ == seq![34u8, 58],
                    valid_utf8(out@),
                    out@ + entries_rendering(ms.skip(k as int), k == 0) == target,
                decreases entries.len() - k,
            {
                proof {
                    assert(ms.skip(k as int).drop_first() =~= ms.skip(k + 1));
                    assert(ms.skip(k as int)[0] == (entries@[k as int].0@, entries@[k as int].1@));
                }
                let ghost before = out@;
                if k > 0 {
                    push_ascii(out, comma.as_slice());
                }
                push_ascii(out, quote.as_slice());
                push_lossy(out, entries[k].0.as_slice());
                push_ascii(out, quote_colon.as_slice());
                proof {
                    assert(decreases_to!(*v => (*v)->Dictionary_0));
                    assert(decreases_to!(*entries => entries@));
                    assert(decreases_to!(entries@ => entries@[k as int]));
                    assert(decreases_to!(entries@[k as int] => entries@[k as int].1));
                }
                render_into(out, &entries[k].1);
                assert(out@ + entries_rendering(ms.skip(k + 1), false) =~= before
                    + entries_rendering(ms.skip(k as int), k == 0));
                k = k + 1;
            }
            assert(ms.skip(k as int) =~= Seq::<(Seq<u8>, Bencode)>::empty());
            push_ascii(out, close.as_slice());
            assert(out@ =~= old(out)@ + rendering(v@));
        },
    }
}

impl Value {
    /// The display text of this value (see `rendering`).
    pub fn to_string(&self) -> (r: String)
        ensures
            r@ == decode_utf8(rendering(self@)),
    {
        let mut out: Vec<u8> = Vec::new();
        assert(valid_utf8(out@));
        render_into(&mut out, self);
        assert(out@ =~= rendering(self@));
        string_from_utf8(out).unwrap()
    }
}

} // verus!
