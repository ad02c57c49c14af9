//! Little-endian integers, as the table's file format and the reduction
//! family read and write them.

use vstd::arithmetic::div_mod::{lemma_div_denominator, lemma_mod_breakdown};
use vstd::arithmetic::power::{lemma_pow_positive, pow};
use vstd::prelude::*;
use byteorder::ByteOrder;

verus! {

/// The number that `s` encodes in little-endian order.
pub open spec fn le_value(s: Seq<u8>) -> nat
    decreases s.len(),
{
    if s.len() == 0 {
        0
    } else {
        s[0] as nat + 256 * le_value(s.drop_first())
    }
}

/// The `k` lowest bytes of `n`, least significant first.
pub open spec fn le_bytes(n: nat, k: nat) -> Seq<u8> {
    Seq::new(k, |i: int| ((n as int / pow(256, i as nat)) % 256) as u8)
}

/// Decoding the `k` low bytes of `n` gives `n` modulo `256^k`.
pub proof fn lemma_le_round_trip(n: nat, k: nat)
    ensures
        pow(256, k) > 0,
        le_value(le_bytes(n, k)) == n as int % pow(256, k),
    decreases k,
{
    lemma_pow_positive(256, k);
    if k == 0 {
        assert(pow(256, 0) == 1) by {
            reveal(pow);
        }
    } else {
        let rest = (n / 256) as nat;
        lemma_le_round_trip(rest, (k - 1) as nat);
        let s = le_bytes(n, k);
        assert forall|i: int| 0 <= i < k - 1 implies #[trigger] s.drop_first()[i] == le_bytes(
            rest,
            (k - 1) as nat,
        )[i] by {
            lemma_pow_positive(256, i as nat);
            assert(pow(256, (i + 1) as nat) == 256 * pow(256, i as nat)) by {
                reveal(pow);
            }
            lemma_div_denominator(n as int, 256, pow(256, i as nat));
        }
        assert(s.drop_first() =~= le_bytes(rest, (k - 1) as nat));
        assert(pow(256, 0) == 1) by {
            reveal(pow);
        }
        assert(pow(256, k) == 256 * pow(256, (k - 1) as nat)) by {
            reveal(pow);
        }
        lemma_pow_positive(256, (k - 1) as nat);
        lemma_mod_breakdown(n as int, 256, pow(256, (k - 1) as nat));
    }
}

/// A 64-bit integer survives its eight-byte encoding.
pub proof fn lemma_u64_round_trip(n: u64)
    ensures
        le_value(le_bytes(n as nat, 8)) == n,
{
    lemma_le_round_trip(n as nat, 8);
    assert(pow(256, 8) == 0x1_0000_0000_0000_0000) by {
        reveal_with_fuel(pow, 9);
    }
}

/// Relies on byteorder's `LittleEndian::write_u64`: the eight bytes of `n`,
/// least significant first.
#[verifier::external_body]
pub(crate) fn u64_to_le(n: u64) -> (r: Vec<u8>)
    ensures
        r@ == le_bytes(n as nat, 8),
{
    let mut buf = vec![0u8; 8];
    byteorder::LittleEndian::write_u64(&mut buf, n);
    buf
}

/// Relies on byteorder's `LittleEndian::read_u64`: the number that the first
/// eight bytes encode, least significant first. It panics on fewer bytes.
#[verifier::external_body]
pub(crate) fn u64_from_le(b: &[u8]) -> (r: u64)
    requires
        b@.len() >= 8,
    ensures
        r as nat == le_value(b@.subrange(0, 8)),
{
    byteorder::LittleEndian::read_u64(b)
}

/// Relies on byteorder's `LittleEndian::read_u128`: the number that the first
/// sixteen bytes encode, least significant first. It panics on fewer bytes.
#[verifier::external_body]
pub(crate) fn u128_from_le(b: &[u8]) -> (r: u128)
    requires
        b@.len() >= 16,
    ensures
        r as nat == le_value(b@.subrange(0, 16)),
{
    byteorder::LittleEndian::read_u128(b)
}

/// The `k` lowest bytes of `v`, least significant first.
pub(crate) fn u128_le_bytes(v: u128, k: usize) -> (r: Vec<u8>)
    ensures
        r@ == le_bytes(v as nat, k as nat),
{
    let mut x: u128 = v;
    let mut out: Vec<u8> = Vec::new();
    let mut i: usize = 0;
    assert(pow(256, 0) == 1) by {
        reveal(pow);
    }
    while i < k
        invariant
            i <= k,
            x as int == v as int / pow(256, i as nat),
            out@ =~= le_bytes(v as nat, i as nat),
        decreases k - i,
    {
        out.push((x % 256) as u8);
        proof {
            lemma_pow_positive(256, i as nat);
            lemma_div_denominator(v as int, pow(256, i as nat), 256);
            assert(pow(256, (i + 1) as nat) == 256 * pow(256, i as nat)) by {
                reveal(pow);
            }
        }
        x = x / 256;
        i = i + 1;
        assert(out@ =~= le_bytes(v as nat, i as nat));
    }
    out
}

/// A copy of `src`.
pub(crate) fn copy_bytes(src: &[u8]) -> (r: Vec<u8>)
    ensures
        r@ == src@,
{
    let mut out: Vec<u8> = Vec::new();
    let mut i: usize = 0;
    while i < src.len()
        invariant
            i <= src@.len(),
            out@ == src@.subrange(0, i as int),
        decreases src@.len() - i,
    {
        out.push(src[i]);
        i = i + 1;
        assert(out@ =~= src@.subrange(0, i as int));
    }
    assert(src@.subrange(0, src@.len() as int) =~= src@);
    out
}

/// Appends the bytes of `src` to `out`.
pub(crate) fn push_bytes(out: &mut Vec<u8>, src: &[u8])
    ensures
        final(out)@ == old(out)@ + src@,
{
    let mut i: usize = 0;
    while i < src.len()
        invariant
            i <= src@.len(),
            out@ == old(out)@ + src@.subrange(0, i as int),
        decreases src@.len() - i,
    {
        out.push(src[i]);
        i = i + 1;
        assert(out@ =~= old(out)@ + src@.subrange(0, i as int));
    }
    assert(src@.subrange(0, src@.len() as int) =~= src@);
}

} // verus!
