//! Properties of the wire format that hold across encoding and decoding.
use vstd::prelude::*;

use crate::buffer::{Codec, DeSerialize, Serialize};
use crate::bytes::{
    be_bytes, lemma_byte_modulus_values, lemma_parse_fixed_round_trip,
};
use crate::sequence::{
    encode_items, lemma_parse_items_round_trip, lemma_parse_items_stays_none, parse_items,
};

verus! {

/// Decoding the encoding of an encodable value gives that value back, consuming exactly the
/// bytes that encoding produced.
pub proof fn round_trip<T: Codec>(v: <T as DeepView>::V)
    requires
        T::encodable(v),
    ensures
        T::parse(T::encoding(v)) == Some((v, T::encoding(v).len())),
{
    T::lemma_round_trip(v, Seq::empty());
    assert(T::encoding(v) + Seq::<u8>::empty() =~= T::encoding(v));
}

/// Decoding any strict prefix of a value's encoding fails: a truncated buffer is never read
/// past its end, and never yields a value.
pub proof fn truncated_encoding_fails<T: Codec>(v: <T as DeepView>::V, k: nat)
    requires
        T::encodable(v),
        k < T::encoding(v).len(),
    ensures
        T::parse(T::encoding(v).take(k as int)) is None,
{
    let whole = T::encoding(v);
    let head = whole.take(k as int);
    let tail = whole.skip(k as int);
    T::lemma_parse_prefix(head, tail);
    assert(head + tail =~= whole);
    round_trip::<T>(v);
}

/// Bytes after a decodable value do not change what is decoded, nor how much is consumed.
pub proof fn trailing_bytes_ignored<T: DeSerialize>(bytes: Seq<u8>, extra: Seq<u8>)
    requires
        T::parse(bytes) is Some,
    ensures
        T::parse(bytes + extra) == T::parse(bytes),
{
    T::lemma_parse_prefix(bytes, extra);
}

/// Encoding depends on the value alone: equal values give identical bytes.
pub proof fn encoding_is_deterministic<T: Serialize>(a: &T, b: &T)
    requires
        a.deep_view() == b.deep_view(),
    ensures
        T::encoding(a.deep_view()) == T::encoding(b.deep_view()),
{
}

/// A sequence whose declared count exceeds the elements that follow fails to decode, rather
/// than yielding the elements present; this holds for element types that take at least one
/// byte.
pub proof fn short_sequence_fails<T: Codec>(n: u64, items: Seq<<T as DeepView>::V>)
    requires
        items.len() < n,
        forall|i: int| 0 <= i < items.len() ==> T::encodable(#[trigger] items[i]),
        T::parse(Seq::empty()) is None,
    ensures
        <Vec<T> as DeSerialize>::parse(be_bytes(n as nat, 8) + encode_items::<T>(items)) is None,
{
    let body = encode_items::<T>(items);
    let bytes = be_bytes(n as nat, 8) + body;
    lemma_byte_modulus_values();
    lemma_parse_fixed_round_trip(n as nat, 8, body);
    assert(bytes.skip(8) =~= body);
    lemma_parse_items_round_trip::<T>(items, Seq::empty());
    assert(body + Seq::<u8>::empty() =~= body);
    assert(body.skip(body.len() as int) =~= Seq::<u8>::empty());
    assert(parse_items::<T>(body, items.len() + 1) is None);
    lemma_parse_items_stays_none::<T>(body, items.len() + 1, n as nat);
}

/// Text whose declared byte length exceeds the bytes that follow fails to decode.
pub proof fn short_text_fails(n: u64, b: Seq<u8>)
    requires
        b.len() < n,
    ensures
        <String as DeSerialize>::parse(be_bytes(n as nat, 8) + b) is None,
{
    lemma_byte_modulus_values();
    lemma_parse_fixed_round_trip(n as nat, 8, b);
}

/// Sequences and text cannot be decoded from fewer bytes than their 8-byte length prefix.
pub proof fn short_prefix_fails<T: DeSerialize>(bytes: Seq<u8>)
    requires
        bytes.len() < 8,
    ensures
        <Vec<T> as DeSerialize>::parse(bytes) is None,
        <String as DeSerialize>::parse(bytes) is None,
{
}

} // verus!
