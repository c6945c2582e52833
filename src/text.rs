//! Text: its UTF-8 byte length as a big-endian `u64`, then the UTF-8 bytes.
use vstd::prelude::*;
use vstd::utf8::{
    decode_utf8, encode_utf8, encode_utf8_decode_utf8, encode_utf8_valid_utf8, valid_utf8,
};

use crate::buffer::{Codec, DeSerialize, SBI, Serialize};
use crate::bytes::{
    be_bytes, lemma_be_value_bound, lemma_byte_modulus_values, lemma_parse_fixed_prefix,
    lemma_parse_fixed_round_trip, parse_fixed,
};

verus! {

/// What lossy UTF-8 decoding makes of `b`: each invalid subsequence becomes U+FFFD.
pub uninterp spec fn lossy_utf8(b: Seq<u8>) -> Seq<char>;

/// The text that `b` spells: its UTF-8 decoding where it is valid, its lossy decoding otherwise.
pub open spec fn text_of(b: Seq<u8>) -> Seq<char> {
    if valid_utf8(b) {
        decode_utf8(b)
    } else {
        lossy_utf8(b)
    }
}

/// Relies on `String::from_utf8_lossy`: the bytes decoded as UTF-8, with invalid sequences
/// replaced by U+FFFD; valid UTF-8 is decoded as it stands.
#[verifier::external_body]
fn from_utf8_lossy(b: &[u8]) -> (r: String)
    ensures
        valid_utf8(b@) ==> r@ == decode_utf8(b@),
        !valid_utf8(b@) ==> r@ == lossy_utf8(b@),
{
    String::from_utf8_lossy(b).into_owned()
}

impl Serialize for String {
    open spec fn encoding(v: Seq<char>) -> Seq<u8> {
        be_bytes(encode_utf8(v).len() as u64 as nat, 8) + encode_utf8(v)
    }

    fn serialize(&self, sbi: &mut SBI) {
        let b = self.as_str().as_bytes();
        (b.len() as u64).serialize(sbi);
        let ghost start = sbi.data@;
        let mut i: usize = 0;
        while i < b.len()
            invariant
                i <= b@.len(),
                sbi.data@ == start + b@.take(i as int),
            decreases b@.len() - i,
        {
            sbi.data.push(b[i]);
            i = i + 1;
            assert(sbi.data@ =~= start + b@.take(i as int));
        }
        assert(b@.take(b@.len() as int) =~= b@);
        assert(final(sbi).data@ =~= old(sbi).data@ + Self::encoding(self.deep_view()));
    }
}

impl DeSerialize for String {
    open spec fn parse(bytes: Seq<u8>) -> Option<(Seq<char>, nat)> {
        match parse_fixed(bytes, 8) {
            Some(n) => if bytes.len() - 8 < n {
                None
            } else {
                Some((text_of(bytes.subrange(8, 8 + n as int)), 8 + n))
            },
            None => None,
        }
    }

    proof fn lemma_parse_prefix(bytes: Seq<u8>, extra: Seq<u8>) {
        lemma_parse_fixed_prefix(bytes, extra, 8);
        if let Some(n) = parse_fixed(bytes, 8) {
            if bytes.len() - 8 >= n {
                assert((bytes + extra).subrange(8, 8 + n as int) =~= bytes.subrange(8, 8 + n as int));
            }
        }
    }

    fn deserialize(sbi: &mut SBI, offset: &mut usize) -> (r: Result<String, ()>) {
        let ghost data = sbi.data@;
        let ghost o = *offset;
        let len = match u64::deserialize(sbi, offset) {
            Ok(n) => n,
            Err(()) => {
                return Err(());
            },
        };
        let start = *offset;
        let remaining = sbi.data.len() - start;
        if len > remaining as u64 {
            return Err(());
        }
        let end = start + len as usize;
        let bytes = &sbi.data.as_slice()[start..end];
        assert(bytes@ == data.subrange(start as int, end as int));
        let s = from_utf8_lossy(bytes);
        *offset = end;
        proof {
            lemma_byte_modulus_values();
            lemma_be_value_bound(data.skip(o as int).take(8));
            assert(parse_fixed(data.skip(o as int), 8) == Some(len as nat));
            assert(s@ == text_of(data.subrange(start as int, end as int)));
            assert(data.skip(o as int).subrange(8, 8 + len as int) =~= data.subrange(
                start as int,
                end as int,
            ));
        }
        Ok(s)
    }
}

impl Codec for String {
    open spec fn encodable(v: Seq<char>) -> bool {
        encode_utf8(v).len() <= u64::MAX
    }

    proof fn lemma_round_trip(v: Seq<char>, rest: Seq<u8>) {
        let b = encode_utf8(v);
        let len = b.len() as u64 as nat;
        lemma_byte_modulus_values();
        lemma_parse_fixed_round_trip(len, 8, b + rest);
        let bytes = Self::encoding(v) + rest;
        assert(bytes =~= be_bytes(len, 8) + (b + rest));
        assert(bytes.subrange(8, 8 + len as int) =~= b);
        encode_utf8_valid_utf8(v);
        encode_utf8_decode_utf8(v);
    }
}

} // verus!
