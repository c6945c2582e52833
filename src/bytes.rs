//! Big-endian byte representations of unsigned numbers.
use vstd::prelude::*;

verus! {

/// `256` raised to the power `k`: one more than the largest number that fits in `k` bytes.
pub open spec fn byte_modulus(k: nat) -> nat
    decreases k,
{
    if k == 0 {
        1
    } else {
        256 * byte_modulus((k - 1) as nat)
    }
}

/// The `k` low-order bytes of `n`, most significant first.
pub open spec fn be_bytes(n: nat, k: nat) -> Seq<u8>
    decreases k,
{
    if k == 0 {
        Seq::empty()
    } else {
        be_bytes(n / 256, (k - 1) as nat).push((n % 256) as u8)
    }
}

/// The number whose big-endian representation is `s`.
pub open spec fn be_value(s: Seq<u8>) -> nat
    decreases s.len(),
{
    if s.len() == 0 {
        0
    } else {
        be_value(s.drop_last()) * 256 + s.last() as nat
    }
}

pub proof fn lemma_byte_modulus_values()
    ensures
        byte_modulus(1) == 0x100,
        byte_modulus(2) == 0x1_0000,
        byte_modulus(4) == 0x1_0000_0000,
        byte_modulus(8) == 0x1_0000_0000_0000_0000,
        byte_modulus(15) == 0x1_00_0000_0000_0000_0000_0000_0000_0000,
        byte_modulus(16) == 0x1_0000_0000_0000_0000_0000_0000_0000_0000,
{
    reveal_with_fuel(byte_modulus, 17);
}

pub proof fn lemma_byte_modulus_monotone(i: nat, j: nat)
    requires
        i <= j,
    ensures
        1 <= byte_modulus(i) <= byte_modulus(j),
    decreases j,
{
    if j > 0 {
        if i < j {
            lemma_byte_modulus_monotone(i, (j - 1) as nat);
        } else {
            lemma_byte_modulus_monotone(0, (j - 1) as nat);
        }
    }
}

pub proof fn lemma_be_bytes_len(n: nat, k: nat)
    ensures
        be_bytes(n, k).len() == k,
    decreases k,
{
    if k > 0 {
        lemma_be_bytes_len(n / 256, (k - 1) as nat);
    }
}

pub proof fn lemma_be_value_bound(s: Seq<u8>)
    ensures
        be_value(s) < byte_modulus(s.len()),
    decreases s.len(),
{
    if s.len() > 0 {
        lemma_be_value_bound(s.drop_last());
    }
}

/// Reading back the `k` bytes of a number below `256^k` gives that number.
pub proof fn lemma_be_value_of_bytes(n: nat, k: nat)
    requires
        n < byte_modulus(k),
    ensures
        be_value(be_bytes(n, k)) == n,
    decreases k,
{
    if k > 0 {
        lemma_be_value_of_bytes(n / 256, (k - 1) as nat);
        let s = be_bytes(n, k);
        assert(s.drop_last() =~= be_bytes(n / 256, (k - 1) as nat));
    }
}

/// The number held by the first `k` bytes of `bytes`, or `None` when fewer than `k` bytes are there.
pub open spec fn parse_fixed(bytes: Seq<u8>, k: nat) -> Option<nat> {
    if bytes.len() < k {
        None
    } else {
        Some(be_value(bytes.take(k as int)))
    }
}

/// The `k` bytes of a number below `256^k`, followed by anything, read back as that number.
pub proof fn lemma_parse_fixed_round_trip(n: nat, k: nat, rest: Seq<u8>)
    requires
        n < byte_modulus(k),
    ensures
        be_bytes(n, k).len() == k,
        parse_fixed(be_bytes(n, k) + rest, k) == Some(n),
{
    lemma_be_bytes_len(n, k);
    lemma_be_value_of_bytes(n, k);
    assert((be_bytes(n, k) + rest).take(k as int) =~= be_bytes(n, k));
}

/// Bytes after the first `k` do not change what `parse_fixed` reads.
pub proof fn lemma_parse_fixed_prefix(bytes: Seq<u8>, extra: Seq<u8>, k: nat)
    ensures
        parse_fixed(bytes, k) is Some ==> parse_fixed(bytes + extra, k) == parse_fixed(bytes, k),
{
    if bytes.len() >= k {
        assert((bytes + extra).take(k as int) =~= bytes.take(k as int));
    }
}

/// Appends the `k` low-order bytes of `n` to `data`, most significant first.
pub fn push_be(data: &mut Vec<u8>, n: u128, k: usize)
    ensures
        final(data)@ == old(data)@ + be_bytes(n as nat, k as nat),
    decreases k,
{
    if k > 0 {
        push_be(data, n / 256, k - 1);
        data.push((n % 256) as u8);
        proof {
            let ghost low = be_bytes((n / 256) as nat, (k - 1) as nat);
            assert(be_bytes(n as nat, k as nat) == low.push((n % 256) as u8));
            assert(final(data)@ =~= old(data)@ + be_bytes(n as nat, k as nat));
        }
    } else {
        assert(old(data)@ + be_bytes(n as nat, 0) =~= old(data)@);
    }
}

/// Reads the number whose big-endian representation is `data[start..start + k]`.
pub fn read_be(data: &Vec<u8>, start: usize, k: usize) -> (r: u128)
    requires
        k <= 16,
        start + k <= data@.len(),
    ensures
        r as nat == be_value(data@.subrange(start as int, start + k)),
{
    let len = data.len();
    let mut acc: u128 = 0;
    let mut i: usize = 0;
    while i < k
        invariant
            i <= k <= 16,
            start + k <= data@.len() == len,
            acc as nat == be_value(data@.subrange(start as int, start + i)),
        decreases k - i,
    {
        proof {
            lemma_be_value_bound(data@.subrange(start as int, start + i));
            lemma_byte_modulus_monotone(i as nat, 15);
            lemma_byte_modulus_values();
            let next = data@.subrange(start as int, start + i + 1);
            assert(next.drop_last() =~= data@.subrange(start as int, start + i));
        }
        acc = acc * 256 + data[start + i] as u128;
        i = i + 1;
    }
    acc
}

} // verus!
