//! Sequences: the element count as a big-endian `u64`, then each element's encoding in order.
use vstd::prelude::*;

use crate::buffer::{Codec, DeSerialize, SBI, Serialize};
use crate::bytes::{
    be_bytes, lemma_be_value_bound, lemma_byte_modulus_values, lemma_parse_fixed_prefix,
    lemma_parse_fixed_round_trip, parse_fixed,
};

verus! {

/// The encodings of `items`, back to back and in order.
pub open spec fn encode_items<T: Serialize>(items: Seq<T::V>) -> Seq<u8>
    decreases items.len(),
{
    if items.len() == 0 {
        Seq::empty()
    } else {
        encode_items::<T>(items.drop_last()) + T::encoding(items.last())
    }
}

/// `count` values of `T` decoded back to back from the start of `bytes`, with the number of
/// bytes they take; `None` when one of them cannot be decoded.
pub open spec fn parse_items<T: DeSerialize>(bytes: Seq<u8>, count: nat) -> Option<
    (Seq<T::V>, nat),
>
    decreases count,
{
    if count == 0 {
        Some((Seq::empty(), 0))
    } else {
        match parse_items::<T>(bytes, (count - 1) as nat) {
            Some((items, used)) => match T::parse(bytes.skip(used as int)) {
                Some((v, n)) => Some((items.push(v), used + n)),
                None => None,
            },
            None => None,
        }
    }
}

/// Decoding `count` items consumes no more than it is given, and ignores what follows.
pub proof fn lemma_parse_items_prefix<T: DeSerialize>(bytes: Seq<u8>, extra: Seq<u8>, count: nat)
    ensures
        parse_items::<T>(bytes, count) matches Some((items, used)) ==> used <= bytes.len()
            && parse_items::<T>(bytes + extra, count) == Some((items, used)),
    decreases count,
{
    if count > 0 {
        lemma_parse_items_prefix::<T>(bytes, extra, (count - 1) as nat);
        if let Some((items, used)) = parse_items::<T>(bytes, (count - 1) as nat) {
            T::lemma_parse_prefix(bytes.skip(used as int), extra);
            assert((bytes + extra).skip(used as int) =~= bytes.skip(used as int) + extra);
        }
    }
}

/// Once decoding the first `i` items fails, decoding more of them fails too.
pub proof fn lemma_parse_items_stays_none<T: DeSerialize>(bytes: Seq<u8>, i: nat, j: nat)
    requires
        i <= j,
        parse_items::<T>(bytes, i) is None,
    ensures
        parse_items::<T>(bytes, j) is None,
    decreases j,
{
    if i < j {
        lemma_parse_items_stays_none::<T>(bytes, i, (j - 1) as nat);
    }
}

/// Decoding as many items as were encoded gives them back, whatever follows.
pub proof fn lemma_parse_items_round_trip<T: Codec>(items: Seq<<T as DeepView>::V>, tail: Seq<u8>)
    requires
        forall|i: int| 0 <= i < items.len() ==> T::encodable(#[trigger] items[i]),
    ensures
        parse_items::<T>(encode_items::<T>(items) + tail, items.len()) == Some(
            (items, encode_items::<T>(items).len()),
        ),
    decreases items.len(),
{
    if items.len() > 0 {
        let init = items.drop_last();
        let last = items.last();
        let more = T::encoding(last) + tail;
        assert forall|i: int| 0 <= i < init.len() implies T::encodable(#[trigger] init[i]) by {
            assert(init[i] == items[i]);
        }
        lemma_parse_items_round_trip::<T>(init, more);
        let bytes = encode_items::<T>(items) + tail;
        assert(bytes =~= encode_items::<T>(init) + more);
        let used = encode_items::<T>(init).len();
        assert(bytes.skip(used as int) =~= more);
        assert(T::encodable(items[items.len() - 1]));
        T::lemma_round_trip(last, tail);
        assert(init.push(last) =~= items);
    }
}

impl<T: Serialize> Serialize for Vec<T> {
    open spec fn encoding(v: Seq<T::V>) -> Seq<u8> {
        be_bytes(v.len() as u64 as nat, 8) + encode_items::<T>(v)
    }

    fn serialize(&self, sbi: &mut SBI) {
        (self.len() as u64).serialize(sbi);
        let ghost start = sbi.data@;
        let ghost model = self.deep_view();
        let mut i: usize = 0;
        assert(model.take(0) =~= Seq::<T::V>::empty());
        assert(start + Seq::<u8>::empty() =~= start);
        while i < self.len()
            invariant
                i <= self@.len(),
                model == self.deep_view(),
                sbi.data@ == start + encode_items::<T>(model.take(i as int)),
            decreases self@.len() - i,
        {
            self[i].serialize(sbi);
            i = i + 1;
            proof {
                let taken = model.take(i as int);
                assert(taken.drop_last() =~= model.take(i - 1));
                assert(taken.last() == self@[i - 1].deep_view());
                assert(sbi.data@ =~= start + encode_items::<T>(taken));
            }
        }
        assert(model.take(self@.len() as int) =~= model);
    }
}

impl<T: DeSerialize> DeSerialize for Vec<T> {
    open spec fn parse(bytes: Seq<u8>) -> Option<(Seq<T::V>, nat)> {
        match parse_fixed(bytes, 8) {
            Some(n) => match parse_items::<T>(bytes.skip(8), n) {
                Some((items, used)) => Some((items, 8 + used)),
                None => None,
            },
            None => None,
        }
    }

    proof fn lemma_parse_prefix(bytes: Seq<u8>, extra: Seq<u8>) {
        lemma_parse_fixed_prefix(bytes, extra, 8);
        if let Some(n) = parse_fixed(bytes, 8) {
            assert((bytes + extra).skip(8) =~= bytes.skip(8) + extra);
            lemma_parse_items_prefix::<T>(bytes.skip(8), extra, n);
        }
    }

    fn deserialize(sbi: &mut SBI, offset: &mut usize) -> (r: Result<Vec<T>, ()>) {
        let ghost data = sbi.data@;
        let ghost o = *offset;
        let count = match u64::deserialize(sbi, offset) {
            Ok(n) => n,
            Err(()) => {
                return Err(());
            },
        };
        let ghost base = *offset;
        let ghost items_bytes = data.skip(base as int);
        proof {
            lemma_byte_modulus_values();
            lemma_be_value_bound(data.skip(o as int).take(8));
            assert(data.skip(o as int).skip(8) =~= items_bytes);
            assert(items_bytes.skip(0) =~= items_bytes);
            assert(parse_fixed(data.skip(o as int), 8) == Some(count as nat));
        }
        // The declared count is only a hint: never reserve more slots than bytes remain.
        let remaining = sbi.data.len() - *offset;
        let hint = if count < remaining as u64 {
            count as usize
        } else {
            remaining
        };
        let mut ret: Vec<T> = Vec::with_capacity(hint);
        let mut i: u64 = 0;
        assert(ret.deep_view() =~= Seq::<T::V>::empty());
        while i < count
            invariant
                *sbi == *old(sbi),
                sbi.data@ == data,
                data == old(sbi).data@,
                o == *old(offset),
                i <= count,
                base <= *offset <= data.len(),
                items_bytes == data.skip(base as int),
                items_bytes == data.skip(o as int).skip(8),
                parse_fixed(data.skip(o as int), 8) == Some(count as nat),
                parse_items::<T>(items_bytes, i as nat) == Some(
                    (ret.deep_view(), (*offset - base) as nat),
                ),
            decreases count - i,
        {
            let ghost at = *offset;
            proof {
                assert(items_bytes.skip(at - base) =~= data.skip(at as int));
            }
            match T::deserialize(sbi, offset) {
                Ok(x) => {
                    proof {
                        T::lemma_parse_prefix(data.skip(at as int), Seq::empty());
                    }
                    let ghost prev = ret.deep_view();
                    ret.push(x);
                    assert(ret.deep_view() =~= prev.push(x.deep_view()));
                },
                Err(()) => {
                    proof {
                        assert(T::parse(data.skip(at as int)) is None);
                        assert(parse_items::<T>(items_bytes, (i + 1) as nat) is None);
                        lemma_parse_items_stays_none::<T>(
                            items_bytes,
                            (i + 1) as nat,
                            count as nat,
                        );
                    }
                    return Err(());
                },
            }
            i = i + 1;
        }
        Ok(ret)
    }
}

impl<T: Codec> Codec for Vec<T> {
    open spec fn encodable(v: Seq<<T as DeepView>::V>) -> bool {
        &&& v.len() <= u64::MAX
        &&& forall|i: int| 0 <= i < v.len() ==> T::encodable(#[trigger] v[i])
    }

    proof fn lemma_round_trip(v: Seq<<T as DeepView>::V>, rest: Seq<u8>) {
        let body = encode_items::<T>(v);
        lemma_byte_modulus_values();
        lemma_parse_fixed_round_trip(v.len(), 8, body + rest);
        let bytes = Self::encoding(v) + rest;
        assert(bytes =~= be_bytes(v.len(), 8) + (body + rest));
        assert(bytes.skip(8) =~= body + rest);
        lemma_parse_items_round_trip::<T>(v, rest);
    }
}

} // verus!
