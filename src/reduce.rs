//! The reduction family: position-indexed maps from a digest back to a
//! printable preimage of the table's length.

use vstd::arithmetic::div_mod::{lemma_mod_add_multiples_vanish, lemma_small_mod};
use vstd::prelude::*;
use crate::digest::md5_of;
use crate::encoding::{le_bytes, le_value, u128_from_le, u128_le_bytes};
use crate::table::{supported_pass_len, Table, DIGEST_LEN};

verus! {

/// The printable symbol for the low six bits of `b`: `a-z`, `A-Z`, `0-9`,
/// `_` and `.`, in that order.
pub open spec fn symbol(b: u8) -> u8 {
    let v = b % 64;
    if v < 26 {
        (97 + v) as u8
    } else if v < 52 {
        (65 + (v - 26)) as u8
    } else if v < 62 {
        (48 + (v - 52)) as u8
    } else if v == 62 {
        95
    } else {
        46
    }
}

/// One of the sixty-four symbols that reduced preimages are made of.
pub open spec fn is_symbol(b: u8) -> bool {
    ||| 97 <= b <= 122
    ||| 65 <= b <= 90
    ||| 48 <= b <= 57
    ||| b == 95
    ||| b == 46
}

/// The digest read as a 128-bit integer, plus `step`, wrapping at `2^128`.
pub open spec fn reduced_value(step: nat, hash: Seq<u8>) -> nat {
    ((le_value(hash) + step) % (u128::MAX as nat + 1)) as nat
}

/// The `step`th reduction of `hash` to `p` bytes: the low `p` bytes of
/// `reduced_value`, each mapped to its symbol.
pub open spec fn reduce_spec(step: nat, hash: Seq<u8>, p: nat) -> Seq<u8> {
    le_bytes(reduced_value(step, hash), p).map_values(|b: u8| symbol(b))
}

/// The digest reached from digest `hash`, standing at position `from` of a
/// chain of `length` steps, after the remaining reduce and digest steps.
pub open spec fn advance(hash: Seq<u8>, from: nat, length: nat, p: nat) -> Seq<u8>
    decreases length - from,
{
    if from >= length {
        hash
    } else {
        advance(md5_of(reduce_spec(from, hash, p)), from + 1, length, p)
    }
}

/// The endpoint of the chain of `length` steps that starts at `seed`.
pub open spec fn endpoint(seed: Seq<u8>, length: nat, p: nat) -> Seq<u8> {
    advance(md5_of(seed), 0, length, p)
}

fn symbol_of(b: u8) -> (r: u8)
    ensures
        r == symbol(b),
        is_symbol(r),
{
    let v = b % 64;
    if v < 26 {
        97 + v
    } else if v < 52 {
        65 + (v - 26)
    } else if v < 62 {
        48 + (v - 52)
    } else if v == 62 {
        95
    } else {
        46
    }
}

impl Table {
    /// Reduces `hash` to a `pass_len`-byte preimage with the `step`th
    /// function of the family.
    pub fn reduce(step: u64, hash: &[u8], pass_len: usize) -> (r: Vec<u8>)
        requires
            hash@.len() == DIGEST_LEN,
            supported_pass_len(pass_len as nat),
        ensures
            r@ == reduce_spec(step as nat, hash@, pass_len as nat),
            r@.len() == pass_len,
            forall|i: int| 0 <= i < r@.len() ==> is_symbol(#[trigger] r@[i]),
    {
        let h = u128_from_le(hash);
        assert(hash@.subrange(0, 16) =~= hash@);
        let v = h.wrapping_add(step as u128);
        let ghost vn = v as nat;
        proof {
            let m: nat = u128::MAX as nat + 1;
            let sum: nat = h as nat + step as nat;
            if sum >= m {
                lemma_small_mod((sum - m) as nat, m);
                lemma_mod_add_multiples_vanish(sum - m, m as int);
            } else {
                lemma_small_mod(sum, m);
            }
        }
        assert(vn == reduced_value(step as nat, hash@));
        let low = u128_le_bytes(v, pass_len);
        let mut out: Vec<u8> = Vec::new();
        let mut i: usize = 0;
        while i < pass_len
            invariant
                i <= pass_len,
                low@ == le_bytes(vn, pass_len as nat),
                out@ =~= low@.take(i as int).map_values(|b: u8| symbol(b)),
                forall|j: int| 0 <= j < out@.len() ==> is_symbol(#[trigger] out@[j]),
            decreases pass_len - i,
        {
            out.push(symbol_of(low[i]));
            i = i + 1;
            assert(out@ =~= low@.take(i as int).map_values(|b: u8| symbol(b)));
        }
        assert(low@.take(pass_len as int) =~= low@);
        out
    }
}

} // verus!
