//! Fixed-width integers: exactly their big-endian bytes.
use vstd::prelude::*;

use crate::buffer::{Codec, DeSerialize, SBI, Serialize};
use crate::bytes::{
    be_bytes, byte_modulus, lemma_be_value_bound, lemma_byte_modulus_values, lemma_parse_fixed_prefix,
    lemma_parse_fixed_round_trip, parse_fixed, push_be, read_be,
};

verus! {

/// Reads `k` bytes at the cursor as a big-endian number and moves the cursor past them.
fn read_fixed(sbi: &SBI, offset: &mut usize, k: usize) -> (r: Option<u128>)
    requires
        k <= 16,
        *old(offset) <= sbi.data@.len(),
    ensures
        match parse_fixed(sbi.data@.skip(*old(offset) as int), k as nat) {
            Some(n) => r == Some(n as u128) && n < byte_modulus(k as nat) && *final(offset)
                == *old(offset) + k,
            None => r is None,
        },
{
    let len = sbi.data.len();
    if k > len - *offset {
        None
    } else {
        let start = *offset;
        let n = read_be(&sbi.data, start, k);
        *offset = start + k;
        proof {
            let sub = sbi.data@.subrange(start as int, start + k);
            assert(sbi.data@.skip(start as int).take(k as int) =~= sub);
            lemma_be_value_bound(sub);
        }
        Some(n)
    }
}

/// The width in bytes of `usize` and `isize` on this target.
pub open spec fn word_width() -> nat {
    vstd::layout::size_of::<usize>()
}

pub proof fn lemma_word_width()
    ensures
        word_width() == 4 || word_width() == 8,
        byte_modulus(word_width()) == usize::MAX + 1,
{
    broadcast use vstd::layout::layout_of_primitives;
    lemma_byte_modulus_values();
    assert(word_width() * 8 == usize::BITS);
}

impl Serialize for u8 {
    open spec fn encoding(v: u8) -> Seq<u8> {
        be_bytes(v as nat, 1)
    }

    fn serialize(&self, sbi: &mut SBI) {
        push_be(&mut sbi.data, *self as u128, 1);
    }
}

impl DeSerialize for u8 {
    open spec fn parse(bytes: Seq<u8>) -> Option<(u8, nat)> {
        match parse_fixed(bytes, 1) {
            Some(n) => Some((n as u8, 1)),
            None => None,
        }
    }

    proof fn lemma_parse_prefix(bytes: Seq<u8>, extra: Seq<u8>) {
        lemma_parse_fixed_prefix(bytes, extra, 1);
    }

    fn deserialize(sbi: &mut SBI, offset: &mut usize) -> (r: Result<u8, ()>) {
        proof {
            lemma_byte_modulus_values();
        }
        match read_fixed(sbi, offset, 1) {
            Some(n) => Ok(n as u8),
            None => Err(()),
        }
    }
}

impl Codec for u8 {
    open spec fn encodable(v: u8) -> bool {
        true
    }

    proof fn lemma_round_trip(v: u8, rest: Seq<u8>) {
        lemma_byte_modulus_values();
        lemma_parse_fixed_round_trip(v as nat, 1, rest);
    }
}

impl Serialize for u16 {
    open spec fn encoding(v: u16) -> Seq<u8> {
        be_bytes(v as nat, 2)
    }

    fn serialize(&self, sbi: &mut SBI) {
        push_be(&mut sbi.data, *self as u128, 2);
    }
}

impl DeSerialize for u16 {
    open spec fn parse(bytes: Seq<u8>) -> Option<(u16, nat)> {
        match parse_fixed(bytes, 2) {
            Some(n) => Some((n as u16, 2)),
            None => None,
        }
    }

    proof fn lemma_parse_prefix(bytes: Seq<u8>, extra: Seq<u8>) {
        lemma_parse_fixed_prefix(bytes, extra, 2);
    }

    fn deserialize(sbi: &mut SBI, offset: &mut usize) -> (r: Result<u16, ()>) {
        proof {
            lemma_byte_modulus_values();
        }
        match read_fixed(sbi, offset, 2) {
            Some(n) => Ok(n as u16),
            None => Err(()),
        }
    }
}

impl Codec for u16 {
    open spec fn encodable(v: u16) -> bool {
        true
    }

    proof fn lemma_round_trip(v: u16, rest: Seq<u8>) {
        lemma_byte_modulus_values();
        lemma_parse_fixed_round_trip(v as nat, 2, rest);
    }
}

impl Serialize for u32 {
    open spec fn encoding(v: u32) -> Seq<u8> {
        be_bytes(v as nat, 4)
    }

    fn serialize(&self, sbi: &mut SBI) {
        push_be(&mut sbi.data, *self as u128, 4);
    }
}

impl DeSerialize for u32 {
    open spec fn parse(bytes: Seq<u8>) -> Option<(u32, nat)> {
        match parse_fixed(bytes, 4) {
            Some(n) => Some((n as u32, 4)),
            None => None,
        }
    }

    proof fn lemma_parse_prefix(bytes: Seq<u8>, extra: Seq<u8>) {
        lemma_parse_fixed_prefix(bytes, extra, 4);
    }

    fn deserialize(sbi: &mut SBI, offset: &mut usize) -> (r: Result<u32, ()>) {
        proof {
            lemma_byte_modulus_values();
        }
        match read_fixed(sbi, offset, 4) {
            Some(n) => Ok(n as u32),
            None => Err(()),
        }
    }
}

impl Codec for u32 {
    open spec fn encodable(v: u32) -> bool {
        true
    }

    proof fn lemma_round_trip(v: u32, rest: Seq<u8>) {
        lemma_byte_modulus_values();
        lemma_parse_fixed_round_trip(v as nat, 4, rest);
    }
}

impl Serialize for u64 {
    open spec fn encoding(v: u64) -> Seq<u8> {
        be_bytes(v as nat, 8)
    }

    fn serialize(&self, sbi: &mut SBI) {
        push_be(&mut sbi.data, *self as u128, 8);
    }
}

impl DeSerialize for u64 {
    open spec fn parse(bytes: Seq<u8>) -> Option<(u64, nat)> {
        match parse_fixed(bytes, 8) {
            Some(n) => Some((n as u64, 8)),
            None => None,
        }
    }

    proof fn lemma_parse_prefix(bytes: Seq<u8>, extra: Seq<u8>) {
        lemma_parse_fixed_prefix(bytes, extra, 8);
    }

    fn deserialize(sbi: &mut SBI, offset: &mut usize) -> (r: Result<u64, ()>) {
        proof {
            lemma_byte_modulus_values();
        }
        match read_fixed(sbi, offset, 8) {
            Some(n) => Ok(n as u64),
            None => Err(()),
        }
    }
}

impl Codec for u64 {
    open spec fn encodable(v: u64) -> bool {
        true
    }

    proof fn lemma_round_trip(v: u64, rest: Seq<u8>) {
        lemma_byte_modulus_values();
        lemma_parse_fixed_round_trip(v as nat, 8, rest);
    }
}

impl Serialize for u128 {
    open spec fn encoding(v: u128) -> Seq<u8> {
        be_bytes(v as nat, 16)
    }

    fn serialize(&self, sbi: &mut SBI) {
        push_be(&mut sbi.data, *self as u128, 16);
    }
}

impl DeSerialize for u128 {
    open spec fn parse(bytes: Seq<u8>) -> Option<(u128, nat)> {
        match parse_fixed(bytes, 16) {
            Some(n) => Some((n as u128, 16)),
            None => None,
        }
    }

    proof fn lemma_parse_prefix(bytes: Seq<u8>, extra: Seq<u8>) {
        lemma_parse_fixed_prefix(bytes, extra, 16);
    }

    fn deserialize(sbi: &mut SBI, offset: &mut usize) -> (r: Result<u128, ()>) {
        proof {
            lemma_byte_modulus_values();
        }
        match read_fixed(sbi, offset, 16) {
            Some(n) => Ok(n as u128),
            None => Err(()),
        }
    }
}

impl Codec for u128 {
    open spec fn encodable(v: u128) -> bool {
        true
    }

    proof fn lemma_round_trip(v: u128, rest: Seq<u8>) {
        lemma_byte_modulus_values();
        lemma_parse_fixed_round_trip(v as nat, 16, rest);
    }
}

impl Serialize for usize {
    open spec fn encoding(v: usize) -> Seq<u8> {
        be_bytes(v as nat, word_width())
    }

    fn serialize(&self, sbi: &mut SBI) {
        push_be(&mut sbi.data, *self as u128, core::mem::size_of::<usize>());
    }
}

impl DeSerialize for usize {
    open spec fn parse(bytes: Seq<u8>) -> Option<(usize, nat)> {
        match parse_fixed(bytes, word_width()) {
            Some(n) => Some((n as usize, word_width())),
            None => None,
        }
    }

    proof fn lemma_parse_prefix(bytes: Seq<u8>, extra: Seq<u8>) {
        lemma_parse_fixed_prefix(bytes, extra, word_width());
    }

    fn deserialize(sbi: &mut SBI, offset: &mut usize) -> (r: Result<usize, ()>) {
        proof {
            lemma_byte_modulus_values();
            lemma_word_width();
        }
        match read_fixed(sbi, offset, core::mem::size_of::<usize>()) {
            Some(n) => Ok(n as usize),
            None => Err(()),
        }
    }
}

impl Codec for usize {
    open spec fn encodable(v: usize) -> bool {
        true
    }

    proof fn lemma_round_trip(v: usize, rest: Seq<u8>) {
        lemma_byte_modulus_values();
        lemma_word_width();
        lemma_parse_fixed_round_trip(v as nat, word_width(), rest);
    }
}

impl Serialize for i8 {
    open spec fn encoding(v: i8) -> Seq<u8> {
        be_bytes(v as u8 as nat, 1)
    }

    fn serialize(&self, sbi: &mut SBI) {
        let bits: u8 = #[verifier::truncate] (*self as u8);
        push_be(&mut sbi.data, bits as u128, 1);
    }
}

impl DeSerialize for i8 {
    open spec fn parse(bytes: Seq<u8>) -> Option<(i8, nat)> {
        match parse_fixed(bytes, 1) {
            Some(n) => Some((n as u8 as i8, 1)),
            None => None,
        }
    }

    proof fn lemma_parse_prefix(bytes: Seq<u8>, extra: Seq<u8>) {
        lemma_parse_fixed_prefix(bytes, extra, 1);
    }

    fn deserialize(sbi: &mut SBI, offset: &mut usize) -> (r: Result<i8, ()>) {
        proof {
            lemma_byte_modulus_values();
        }
        match read_fixed(sbi, offset, 1) {
            Some(n) => {
                let bits = n as u8;
                Ok(#[verifier::truncate] (bits as i8))
            },
            None => Err(()),
        }
    }
}

impl Codec for i8 {
    open spec fn encodable(v: i8) -> bool {
        true
    }

    proof fn lemma_round_trip(v: i8, rest: Seq<u8>) {
        lemma_byte_modulus_values();
        let bits = v as u8;
        lemma_parse_fixed_round_trip(bits as nat, 1, rest);
        assert(bits as i8 == v) by (bit_vector)
            requires
                bits == v as u8,
        ;
    }
}

impl Serialize for i16 {
    open spec fn encoding(v: i16) -> Seq<u8> {
        be_bytes(v as u16 as nat, 2)
    }

    fn serialize(&self, sbi: &mut SBI) {
        let bits: u16 = #[verifier::truncate] (*self as u16);
        push_be(&mut sbi.data, bits as u128, 2);
    }
}

impl DeSerialize for i16 {
    open spec fn parse(bytes: Seq<u8>) -> Option<(i16, nat)> {
        match parse_fixed(bytes, 2) {
            Some(n) => Some((n as u16 as i16, 2)),
            None => None,
        }
    }

    proof fn lemma_parse_prefix(bytes: Seq<u8>, extra: Seq<u8>) {
        lemma_parse_fixed_prefix(bytes, extra, 2);
    }

    fn deserialize(sbi: &mut SBI, offset: &mut usize) -> (r: Result<i16, ()>) {
        proof {
            lemma_byte_modulus_values();
        }
        match read_fixed(sbi, offset, 2) {
            Some(n) => {
                let bits = n as u16;
                Ok(#[verifier::truncate] (bits as i16))
            },
            None => Err(()),
        }
    }
}

impl Codec for i16 {
    open spec fn encodable(v: i16) -> bool {
        true
    }

    proof fn lemma_round_trip(v: i16, rest: Seq<u8>) {
        lemma_byte_modulus_values();
        let bits = v as u16;
        lemma_parse_fixed_round_trip(bits as nat, 2, rest);
        assert(bits as i16 == v) by (bit_vector)
            requires
                bits == v as u16,
        ;
    }
}

impl Serialize for i32 {
    open spec fn encoding(v: i32) -> Seq<u8> {
        be_bytes(v as u32 as nat, 4)
    }

    fn serialize(&self, sbi: &mut SBI) {
        let bits: u32 = #[verifier::truncate] (*self as u32);
        push_be(&mut sbi.data, bits as u128, 4);
    }
}

impl DeSerialize for i32 {
    open spec fn parse(bytes: Seq<u8>) -> Option<(i32, nat)> {
        match parse_fixed(bytes, 4) {
            Some(n) => Some((n as u32 as i32, 4)),
            None => None,
        }
    }

    proof fn lemma_parse_prefix(bytes: Seq<u8>, extra: Seq<u8>) {
        lemma_parse_fixed_prefix(bytes, extra, 4);
    }

    fn deserialize(sbi: &mut SBI, offset: &mut usize) -> (r: Result<i32, ()>) {
        proof {
            lemma_byte_modulus_values();
        }
        match read_fixed(sbi, offset, 4) {
            Some(n) => {
                let bits = n as u32;
                Ok(#[verifier::truncate] (bits as i32))
            },
            None => Err(()),
        }
    }
}

impl Codec for i32 {
    open spec fn encodable(v: i32) -> bool {
        true
    }

    proof fn lemma_round_trip(v: i32, rest: Seq<u8>) {
        lemma_byte_modulus_values();
        let bits = v as u32;
        lemma_parse_fixed_round_trip(bits as nat, 4, rest);
        assert(bits as i32 == v) by (bit_vector)
            requires
                bits == v as u32,
        ;
    }
}

impl Serialize for i64 {
    open spec fn encoding(v: i64) -> Seq<u8> {
        be_bytes(v as u64 as nat, 8)
    }

    fn serialize(&self, sbi: &mut SBI) {
        let bits: u64 = #[verifier::truncate] (*self as u64);
        push_be(&mut sbi.data, bits as u128, 8);
    }
}

impl DeSerialize for i64 {
    open spec fn parse(bytes: Seq<u8>) -> Option<(i64, nat)> {
        match parse_fixed(bytes, 8) {
            Some(n) => Some((n as u64 as i64, 8)),
            None => None,
        }
    }

    proof fn lemma_parse_prefix(bytes: Seq<u8>, extra: Seq<u8>) {
        lemma_parse_fixed_prefix(bytes, extra, 8);
    }

    fn deserialize(sbi: &mut SBI, offset: &mut usize) -> (r: Result<i64, ()>) {
        proof {
            lemma_byte_modulus_values();
        }
        match read_fixed(sbi, offset, 8) {
            Some(n) => {
                let bits = n as u64;
                Ok(#[verifier::truncate] (bits as i64))
            },
            None => Err(()),
        }
    }
}

impl Codec for i64 {
    open spec fn encodable(v: i64) -> bool {
        true
    }

    proof fn lemma_round_trip(v: i64, rest: Seq<u8>) {
        lemma_byte_modulus_values();
        let bits = v as u64;
        lemma_parse_fixed_round_trip(bits as nat, 8, rest);
        assert(bits as i64 == v) by (bit_vector)
            requires
                bits == v as u64,
        ;
    }
}

impl Serialize for i128 {
    open spec fn encoding(v: i128) -> Seq<u8> {
        be_bytes(v as u128 as nat, 16)
    }

    fn serialize(&self, sbi: &mut SBI) {
        let bits: u128 = #[verifier::truncate] (*self as u128);
        push_be(&mut sbi.data, bits as u128, 16);
    }
}

impl DeSerialize for i128 {
    open spec fn parse(bytes: Seq<u8>) -> Option<(i128, nat)> {
        match parse_fixed(bytes, 16) {
            Some(n) => Some((n as u128 as i128, 16)),
            None => None,
        }
    }

    proof fn lemma_parse_prefix(bytes: Seq<u8>, extra: Seq<u8>) {
        lemma_parse_fixed_prefix(bytes, extra, 16);
    }

    fn deserialize(sbi: &mut SBI, offset: &mut usize) -> (r: Result<i128, ()>) {
        proof {
            lemma_byte_modulus_values();
        }
        match read_fixed(sbi, offset, 16) {
            Some(n) => {
                let bits = n as u128;
                Ok(#[verifier::truncate] (bits as i128))
            },
            None => Err(()),
        }
    }
}

impl Codec for i128 {
    open spec fn encodable(v: i128) -> bool {
        true
    }

    proof fn lemma_round_trip(v: i128, rest: Seq<u8>) {
        lemma_byte_modulus_values();
        let bits = v as u128;
        lemma_parse_fixed_round_trip(bits as nat, 16, rest);
        assert(bits as i128 == v) by (bit_vector)
            requires
                bits == v as u128,
        ;
    }
}

impl Serialize for isize {
    open spec fn encoding(v: isize) -> Seq<u8> {
        be_bytes(v as usize as nat, word_width())
    }

    fn serialize(&self, sbi: &mut SBI) {
        let bits: usize = #[verifier::truncate] (*self as usize);
        push_be(&mut sbi.data, bits as u128, core::mem::size_of::<usize>());
    }
}

impl DeSerialize for isize {
    open spec fn parse(bytes: Seq<u8>) -> Option<(isize, nat)> {
        match parse_fixed(bytes, word_width()) {
            Some(n) => Some((n as usize as isize, word_width())),
            None => None,
        }
    }

    proof fn lemma_parse_prefix(bytes: Seq<u8>, extra: Seq<u8>) {
        lemma_parse_fixed_prefix(bytes, extra, word_width());
    }

    fn deserialize(sbi: &mut SBI, offset: &mut usize) -> (r: Result<isize, ()>) {
        proof {
            lemma_byte_modulus_values();
            lemma_word_width();
        }
        match read_fixed(sbi, offset, core::mem::size_of::<usize>()) {
            Some(n) => {
                let bits = n as usize;
                Ok(#[verifier::truncate] (bits as isize))
            },
            None => Err(()),
        }
    }
}

impl Codec for isize {
    open spec fn encodable(v: isize) -> bool {
        true
    }

    proof fn lemma_round_trip(v: isize, rest: Seq<u8>) {
        lemma_byte_modulus_values();
        lemma_word_width();
        let bits = v as usize;
        lemma_parse_fixed_round_trip(bits as nat, word_width(), rest);
        assert(bits as isize == v) by (bit_vector)
            requires
                bits == v as usize,
        ;
    }
}

} // verus!
