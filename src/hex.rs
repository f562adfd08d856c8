//! Bytes shown as hexadecimal text.

use vstd::prelude::*;
use vstd::utf8::{decode_utf8, valid_utf8};

use crate::metainfo::string_from_utf8;
use crate::tracker::lemma_ascii_valid_utf8;

verus! {

/// A lower-case hexadecimal digit.
pub open spec fn lower_hex_digit(d: u8) -> u8 {
    if d < 10 {
        (48 + d) as u8
    } else {
        (87 + d) as u8
    }
}

/// Two lower-case hexadecimal digits for each byte, most significant first.
pub open spec fn hex_text(b: Seq<u8>) -> Seq<u8>
    decreases b.len(),
{
    if b.len() == 0 {
        Seq::empty()
    } else {
        hex_text(b.drop_last()).push(lower_hex_digit(b.last() / 16)).push(
            lower_hex_digit(b.last() % 16),
        )
    }
}

proof fn lemma_hex_text_ascii(b: Seq<u8>)
    ensures
        hex_text(b).len() == 2 * b.len(),
        forall|k: int| 0 <= k < hex_text(b).len() ==> #[trigger] hex_text(b)[k] < 128,
    decreases b.len(),
{
    if b.len() > 0 {
        lemma_hex_text_ascii(b.drop_last());
    }
}

/// Bytes shown as lower-case hexadecimal.
pub struct DisplayHex<'buf> {
    pub buf: &'buf [u8],
}

impl<'buf> From<&'buf [u8]> for DisplayHex<'buf> {
    fn from(value: &'buf [u8]) -> DisplayHex<'buf> {
        DisplayHex { buf: value }
    }
}

impl<'buf> vstd::std_specs::convert::FromSpecImpl<&'buf [u8]> for DisplayHex<'buf> {
    open spec fn obeys_from_spec() -> bool {
        true
    }

    open spec fn from_spec(v: &'buf [u8]) -> DisplayHex<'buf> {
        DisplayHex { buf: v }
    }
}

impl DisplayHex<'_> {
    /// The bytes as text, two lower-case hexadecimal digits each.
    pub fn to_string(&self) -> (r: String)
        ensures
            r@ == decode_utf8(hex_text(self.buf@)),
    {
        let mut out: Vec<u8> = Vec::new();
        let mut k: usize = 0;
        while k < self.buf.len()
            invariant
                k <= self.buf@.len(),
                out@ == hex_text(self.buf@.subrange(0, k as int)),
            decreases self.buf.len() - k,
        {
            let b = self.buf[k];
            let high: u8 = b / 16;
            let low: u8 = b % 16;
            out.push(if high < 10 { 48 + high } else { 87 + high });
            out.push(if low < 10 { 48 + low } else { 87 + low });
            assert(self.buf@.subrange(0, k + 1).drop_last() =~= self.buf@.subrange(0, k as int));
            k = k + 1;
        }
        assert(self.buf@.subrange(0, k as int) =~= self.buf@);
        proof {
            lemma_hex_text_ascii(self.buf@);
            lemma_ascii_valid_utf8(out@);
        }
        string_from_utf8(out).unwrap()
    }
}

} // verus!
