//! Reading a digest written as a big-endian hexadecimal number, the way
//! digests are usually printed, into the table's byte order.

use vstd::prelude::*;
use vstd::string::StrSliceExecFns;
use crate::encoding::{le_bytes, u128_le_bytes};

verus! {

/// The text is not a hexadecimal number below `2^128`.
#[derive(Debug, PartialEq, Eq, Structural)]
pub struct HexError;

/// The value of a hexadecimal digit, in either case.
pub open spec fn hex_digit(c: char) -> Option<nat> {
    if '0' <= c <= '9' {
        Some((c as nat - '0' as nat) as nat)
    } else if 'a' <= c <= 'f' {
        Some((c as nat - 'a' as nat + 10) as nat)
    } else if 'A' <= c <= 'F' {
        Some((c as nat - 'A' as nat + 10) as nat)
    } else {
        None
    }
}

/// The digits of `s`: all of it, or what follows a leading `+`.
pub open spec fn hex_digits(s: Seq<char>) -> Seq<char> {
    if s.len() > 0 && s[0] == '+' {
        s.drop_first()
    } else {
        s
    }
}

pub open spec fn all_hex(s: Seq<char>) -> bool {
    forall|i: int| 0 <= i < s.len() ==> #[trigger] hex_digit(s[i]) is Some
}

/// The number that the hexadecimal digits `s` denote, most significant
/// first.
pub open spec fn hex_value(s: Seq<char>) -> nat
    decreases s.len(),
{
    if s.len() == 0 {
        0
    } else {
        hex_value(s.drop_last()) * 16 + hex_digit(s.last())->0
    }
}

/// `s` is a nonempty run of hexadecimal digits, after an optional `+`,
/// whose value fits in 128 bits.
pub open spec fn valid_hex(s: Seq<char>) -> bool {
    let d = hex_digits(s);
    &&& d.len() > 0
    &&& all_hex(d)
    &&& hex_value(d) <= u128::MAX
}

/// The sixteen bytes of `v`, most significant first.
pub open spec fn be_bytes(v: nat) -> Seq<u8> {
    Seq::new(16, |i: int| le_bytes(v, 16)[15 - i])
}

proof fn lemma_hex_value_grows(s: Seq<char>, j: int, k: int)
    requires
        all_hex(s),
        0 <= j <= k <= s.len(),
    ensures
        hex_value(s.take(j)) <= hex_value(s.take(k)),
    decreases k - j,
{
    if j < k {
        lemma_hex_value_grows(s, j, k - 1);
        assert(s.take(k).drop_last() =~= s.take(k - 1));
        assert(hex_digit(s[k - 1]) is Some);
    }
}

fn hex_digit_of(c: char) -> (r: Option<u8>)
    ensures
        r is Some <==> hex_digit(c) is Some,
        r matches Some(d) ==> d as nat == hex_digit(c)->0,
{
    if '0' <= c && c <= '9' {
        Some(((c as u32) - ('0' as u32)) as u8)
    } else if 'a' <= c && c <= 'f' {
        Some(((c as u32) - ('a' as u32) + 10) as u8)
    } else if 'A' <= c && c <= 'F' {
        Some(((c as u32) - ('A' as u32) + 10) as u8)
    } else {
        None
    }
}

/// Reads a digest written as a big-endian hexadecimal number, with an
/// optional leading `+`, into its sixteen bytes, most significant first.
pub fn from_hex(string: &str) -> (r: Result<Vec<u8>, HexError>)
    ensures
        r is Ok <==> valid_hex(string@),
        r matches Ok(d) ==> d@ == be_bytes(hex_value(hex_digits(string@))),
{
    let n = string.unicode_len();
    let mut first: usize = 0;
    if n > 0 && string.get_char(0) == '+' {
        first = 1;
    }
    let ghost d = hex_digits(string@);
    assert(d =~= string@.subrange(first as int, n as int));
    if first == n {
        return Err(HexError);
    }
    let mut acc: u128 = 0;
    let mut i: usize = first;
    while i < n
        invariant
            n == string@.len(),
            first <= i <= n,
            d =~= string@.subrange(first as int, n as int),
            d == hex_digits(string@),
            all_hex(d.take(i - first)),
            acc as nat == hex_value(d.take(i - first)),
        decreases n - i,
    {
        let c = string.get_char(i);
        assert(c == d[i - first]);
        let digit = match hex_digit_of(c) {
            Some(v) => v,
            None => {
                proof {
                    if all_hex(d) {
                        assert(hex_digit(d[i - first]) is Some);
                    }
                }
                return Err(HexError);
            },
        };
        let ghost k = (i - first) as int;
        assert(d.take(k + 1).drop_last() =~= d.take(k));
        assert(d.take(k + 1).last() == d[k]);
        assert(hex_value(d.take(k + 1)) == hex_value(d.take(k)) * 16 + digit);
        let next = match acc.checked_mul(16) {
            Some(m) => m.checked_add(digit as u128),
            None => None,
        };
        match next {
            Some(v) => {
                acc = v;
                assert(all_hex(d.take(k + 1))) by {
                    assert forall|t: int| 0 <= t < k + 1 implies #[trigger] hex_digit(
                        d.take(k + 1)[t],
                    ) is Some by {
                        if t < k {
                            assert(d.take(k + 1)[t] == d.take(k)[t]);
                        }
                    }
                }
            },
            None => {
                proof {
                    if all_hex(d) {
                        lemma_hex_value_grows(d, k + 1, d.len() as int);
                        assert(d.take(d.len() as int) =~= d);
                    }
                }
                return Err(HexError);
            },
        }
        i = i + 1;
    }
    assert(d.take(n - first) =~= d);
    let low = u128_le_bytes(acc, 16);
    let mut out: Vec<u8> = Vec::new();
    let mut j: usize = 0;
    while j < 16
        invariant
            j <= 16,
            low@ == le_bytes(acc as nat, 16),
            out@ =~= be_bytes(acc as nat).take(j as int),
        decreases 16 - j,
    {
        out.push(low[15 - j]);
        j = j + 1;
        assert(out@ =~= be_bytes(acc as nat).take(j as int));
    }
    assert(be_bytes(acc as nat).take(16) =~= be_bytes(acc as nat));
    Ok(out)
}

} // verus!
