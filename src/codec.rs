//! The table's file format, all integers little-endian:
//!
//! ```txt
//! chain_count : 8 bytes
//! chain_length: 8 bytes
//! chain_count x { head preimage: pass_len bytes, endpoint digest: 16 bytes }
//! ```
//!
//! The preimage length is not stored: the reader is told it.

use std::collections::HashMap;
use vstd::arithmetic::div_mod::lemma_fundamental_div_mod;
use vstd::prelude::*;
use crate::digest::md5_of;
use crate::encoding::{
    copy_bytes, le_bytes, le_value, lemma_u64_round_trip, push_bytes, u128_from_le, u64_from_le,
    u64_to_le,
};
use crate::reduce::{advance, endpoint, reduce_spec};
use crate::table::{supported_pass_len, Chain, Table, TableView, DIGEST_LEN, MAX_PASS_LEN};

verus! {

/// Why a table could not be written or read.
#[derive(Debug, PartialEq, Eq, Structural)]
pub enum TableError {
    /// The preimage length is zero or above the supported maximum.
    UnsupportedPassLen,
    /// A seed does not have the table's preimage length.
    LengthMismatch { expected: usize, actual: usize },
    /// The bytes end before the records that the header announces.
    Truncated,
}

/// The views of a sequence of byte vectors.
pub open spec fn views(seeds: Seq<Vec<u8>>) -> Seq<Seq<u8>> {
    seeds.map_values(|v: Vec<u8>| v@)
}

/// `i` is the first seed whose length is not `p`.
pub open spec fn first_mismatch(seeds: Seq<Seq<u8>>, p: nat, i: int) -> bool {
    &&& 0 <= i < seeds.len()
    &&& seeds[i].len() != p
    &&& forall|j: int| 0 <= j < i ==> #[trigger] seeds[j].len() == p
}

/// Every seed has length `p`.
pub open spec fn all_of_len(seeds: Seq<Seq<u8>>, p: nat) -> bool {
    forall|j: int| 0 <= j < seeds.len() ==> #[trigger] seeds[j].len() == p
}

/// The bytes of one record: the seed, then its chain's endpoint.
pub open spec fn record(seed: Seq<u8>, length: nat, p: nat) -> Seq<u8> {
    seed + endpoint(seed, length, p)
}

/// The records of the chains of `seeds`, in order.
pub open spec fn records(seeds: Seq<Seq<u8>>, length: nat, p: nat) -> Seq<u8>
    decreases seeds.len(),
{
    if seeds.len() == 0 {
        Seq::empty()
    } else {
        records(seeds.drop_last(), length, p) + record(seeds.last(), length, p)
    }
}

/// The whole encoding of the table generated from `seeds`.
pub open spec fn encoded_table(seeds: Seq<Seq<u8>>, length: nat, p: nat) -> Seq<u8> {
    le_bytes(seeds.len(), 8) + le_bytes(length, 8) + records(seeds, length, p)
}

/// The chain count that the header of `b` announces.
pub open spec fn header_count(b: Seq<u8>) -> nat {
    le_value(b.subrange(0, 8))
}

/// The chain length that the header of `b` states.
pub open spec fn header_length(b: Seq<u8>) -> nat {
    le_value(b.subrange(8, 16))
}

/// `b` holds a header and all the records that it announces.
pub open spec fn well_sized(b: Seq<u8>, p: nat) -> bool {
    &&& b.len() >= 16
    &&& 16 + header_count(b) * (p + 16) <= b.len()
}

/// Offset of the `i`th record.
pub open spec fn record_start(p: nat, i: nat) -> int {
    (16 + i * (p + 16)) as int
}

/// Head preimage of the `i`th record.
pub open spec fn record_pass(b: Seq<u8>, p: nat, i: nat) -> Seq<u8> {
    b.subrange(record_start(p, i), record_start(p, i) + p)
}

/// Endpoint digest of the `i`th record.
pub open spec fn record_hash(b: Seq<u8>, p: nat, i: nat) -> Seq<u8> {
    b.subrange(record_start(p, i) + p, record_start(p, i) + p + 16)
}

/// The key under which a chain with endpoint `hash` is stored.
pub open spec fn key_of(hash: Seq<u8>) -> u128 {
    le_value(hash) as u128
}

/// The chains of the first `n` records, each inserted in turn: of records
/// with equal endpoints the later one stays.
pub open spec fn read_chains(b: Seq<u8>, p: nat, n: nat) -> Map<u128, Seq<u8>>
    decreases n,
{
    if n == 0 {
        Map::empty()
    } else {
        read_chains(b, p, (n - 1) as nat).insert(
            key_of(record_hash(b, p, (n - 1) as nat)),
            record_pass(b, p, (n - 1) as nat),
        )
    }
}

/// The table that reading `b` gives.
pub open spec fn read_table(b: Seq<u8>, p: nat) -> TableView {
    TableView { pass_len: p, length: header_length(b), chains: read_chains(b, p, header_count(b)) }
}

proof fn lemma_count_fits(count: nat, avail: nat, rec: nat)
    requires
        rec > 0,
    ensures
        count <= avail / rec <==> count * rec <= avail,
{
    lemma_fundamental_div_mod(avail as int, rec as int);
    let q = avail / rec;
    let m = avail % rec;
    assert(count <= q <==> count * rec <= avail) by (nonlinear_arith)
        requires
            avail == rec * q + m,
            0 <= m < rec,
            q >= 0,
    ;
}

/// The chains of `seeds` keyed by endpoint, each inserted in turn: of seeds
/// whose chains end alike the later one stays.
pub open spec fn seed_chains(seeds: Seq<Seq<u8>>, length: nat, p: nat) -> Map<u128, Seq<u8>>
    decreases seeds.len(),
{
    if seeds.len() == 0 {
        Map::empty()
    } else {
        seed_chains(seeds.drop_last(), length, p).insert(
            key_of(endpoint(seeds.last(), length, p)),
            seeds.last(),
        )
    }
}

proof fn lemma_advance_len(hash: Seq<u8>, from: nat, length: nat, p: nat)
    requires
        hash.len() == 16,
    ensures
        advance(hash, from, length, p).len() == 16,
    decreases length - from,
{
    if from < length {
        lemma_advance_len(md5_of(reduce_spec(from, hash, p)), from + 1, length, p);
    }
}

proof fn lemma_records_len(seeds: Seq<Seq<u8>>, length: nat, p: nat)
    requires
        all_of_len(seeds, p),
    ensures
        records(seeds, length, p).len() == seeds.len() * (p + 16),
    decreases seeds.len(),
{
    if seeds.len() > 0 {
        let rest = seeds.drop_last();
        assert(all_of_len(rest, p)) by {
            assert forall|j: int| 0 <= j < rest.len() implies #[trigger] rest[j].len() == p by {
                assert(rest[j] == seeds[j]);
            }
        }
        lemma_records_len(rest, length, p);
        lemma_advance_len(md5_of(seeds.last()), 0, length, p);
        assert(seeds.len() * (p + 16) == rest.len() * (p + 16) + (p + 16)) by (nonlinear_arith)
            requires
                rest.len() + 1 == seeds.len(),
        ;
    }
}

proof fn lemma_record_at(seeds: Seq<Seq<u8>>, length: nat, p: nat, i: int)
    requires
        all_of_len(seeds, p),
        0 <= i < seeds.len(),
    ensures
        records(seeds, length, p).subrange(i * (p + 16), i * (p + 16) + p + 16) == record(
            seeds[i],
            length,
            p,
        ),
    decreases seeds.len(),
{
    let rec = p + 16;
    let rest = seeds.drop_last();
    assert(all_of_len(rest, p)) by {
        assert forall|j: int| 0 <= j < rest.len() implies #[trigger] rest[j].len() == p by {
            assert(rest[j] == seeds[j]);
        }
    }
    lemma_records_len(rest, length, p);
    lemma_advance_len(md5_of(seeds.last()), 0, length, p);
    let front = records(rest, length, p);
    let back = record(seeds.last(), length, p);
    assert(records(seeds, length, p) == front + back);
    if i == seeds.len() - 1 {
        assert(i * rec == rest.len() * rec);
        assert((front + back).subrange(i * rec, i * rec + rec) =~= back);
    } else {
        lemma_record_at(rest, length, p, i);
        assert(i * rec + rec <= rest.len() * rec) by (nonlinear_arith)
            requires
                i + 1 <= rest.len(),
                rec > 0,
        ;
        assert(i * rec >= 0) by (nonlinear_arith)
            requires
                i >= 0,
                rec > 0,
        ;
        assert((front + back).subrange(i * rec, i * rec + rec) =~= front.subrange(
            i * rec,
            i * rec + rec,
        ));
        assert(rest[i] == seeds[i]);
    }
}

proof fn lemma_encoded_record(seeds: Seq<Seq<u8>>, length: nat, p: nat, i: nat)
    requires
        all_of_len(seeds, p),
        i < seeds.len(),
    ensures
        record_pass(encoded_table(seeds, length, p), p, i) == seeds[i as int],
        record_hash(encoded_table(seeds, length, p), p, i) == endpoint(seeds[i as int], length, p),
{
    let rec = p + 16;
    let head = le_bytes(seeds.len(), 8) + le_bytes(length, 8);
    let body = records(seeds, length, p);
    let b = encoded_table(seeds, length, p);
    assert(b == head + body);
    lemma_record_at(seeds, length, p, i as int);
    lemma_records_len(seeds, length, p);
    lemma_advance_len(md5_of(seeds[i as int]), 0, length, p);
    assert(i * rec + rec <= seeds.len() * rec) by (nonlinear_arith)
        requires
            i + 1 <= seeds.len(),
    ;
    let start: int = (i * rec) as int;
    let r = record(seeds[i as int], length, p);
    assert(body.subrange(start, start + rec) == r);
    assert(record_pass(b, p, i) =~= r.subrange(0, p as int)) by {
        assert forall|t: int| 0 <= t < p implies #[trigger] record_pass(b, p, i)[t] == r[t] by {
            assert(body.subrange(start, start + rec)[t] == body[start + t]);
        }
    }
    assert(r.subrange(0, p as int) =~= seeds[i as int]);
    assert(record_hash(b, p, i) =~= r.subrange(p as int, rec as int)) by {
        assert forall|t: int| 0 <= t < 16 implies #[trigger] record_hash(b, p, i)[t] == r[p + t] by {
            assert(body.subrange(start, start + rec)[p + t] == body[start + p + t]);
        }
    }
    assert(r.subrange(p as int, rec as int) =~= endpoint(seeds[i as int], length, p));
}

proof fn lemma_read_chains_prefix(seeds: Seq<Seq<u8>>, length: nat, p: nat, k: nat)
    requires
        all_of_len(seeds, p),
        k <= seeds.len(),
    ensures
        read_chains(encoded_table(seeds, length, p), p, k) == seed_chains(seeds.take(k as int), length, p),
    decreases k,
{
    if k > 0 {
        lemma_read_chains_prefix(seeds, length, p, (k - 1) as nat);
        lemma_encoded_record(seeds, length, p, (k - 1) as nat);
        assert(seeds.take(k as int).drop_last() =~= seeds.take(k - 1));
    }
}

/// No two seeds have chains whose endpoints share a key.
pub open spec fn distinct_endpoints(seeds: Seq<Seq<u8>>, length: nat, p: nat) -> bool {
    forall|i: int, j: int|
        #![trigger endpoint(seeds[i], length, p), endpoint(seeds[j], length, p)]
        0 <= i < j < seeds.len() ==> key_of(endpoint(seeds[i], length, p)) != key_of(
            endpoint(seeds[j], length, p),
        )
}

proof fn lemma_seed_chains_len(seeds: Seq<Seq<u8>>, length: nat, p: nat)
    ensures
        seed_chains(seeds, length, p).dom().finite(),
        seed_chains(seeds, length, p).len() <= seeds.len(),
        distinct_endpoints(seeds, length, p) ==> seed_chains(seeds, length, p).len() == seeds.len(),
        forall|k: u128| #[trigger] seed_chains(seeds, length, p).contains_key(k) ==> exists|i: int|
            0 <= i < seeds.len() && k == key_of(endpoint(seeds[i], length, p)),
    decreases seeds.len(),
{
    if seeds.len() > 0 {
        let rest = seeds.drop_last();
        lemma_seed_chains_len(rest, length, p);
        let m = seed_chains(seeds, length, p);
        let last = (seeds.len() - 1) as int;
        let key = key_of(endpoint(seeds.last(), length, p));
        assert forall|k: u128| #[trigger] m.contains_key(k) implies exists|i: int|
            0 <= i < seeds.len() && k == key_of(endpoint(seeds[i], length, p)) by {
            if k != key {
                let i = choose|i: int| 0 <= i < rest.len() && k == key_of(endpoint(rest[i], length, p));
                assert(rest[i] == seeds[i]);
            } else {
                assert(k == key_of(endpoint(seeds[last], length, p)));
            }
        }
        if distinct_endpoints(seeds, length, p) {
            assert(distinct_endpoints(rest, length, p)) by {
                assert forall|i: int, j: int|
                    #![trigger endpoint(rest[i], length, p), endpoint(rest[j], length, p)]
                    0 <= i < j < rest.len() implies key_of(endpoint(rest[i], length, p)) != key_of(
                    endpoint(rest[j], length, p),
                ) by {
                    assert(rest[i] == seeds[i] && rest[j] == seeds[j]);
                    assert(key_of(endpoint(seeds[i], length, p)) != key_of(endpoint(seeds[j], length, p)));
                }
            }
            if seed_chains(rest, length, p).contains_key(key) {
                let i = choose|i: int| 0 <= i < rest.len() && key == key_of(endpoint(rest[i], length, p));
                assert(rest[i] == seeds[i]);
                assert(seeds[last] == seeds.last());
                assert(key_of(endpoint(seeds[i], length, p)) != key_of(endpoint(seeds[last], length, p)));
            }
        }
    }
}

/// Reading what `write` produced gives back the chain length, a chain
/// count no larger than the number of seeds and equal to it when no two
/// endpoints collide, and exactly the chains of the seeds keyed by
/// endpoint, the later of two seeds with equal endpoints kept.
pub proof fn lemma_read_after_write(seeds: Seq<Seq<u8>>, length: u64, p: nat)
    requires
        supported_pass_len(p),
        all_of_len(seeds, p),
        seeds.len() <= u64::MAX,
    ensures
        well_sized(encoded_table(seeds, length as nat, p), p),
        read_table(encoded_table(seeds, length as nat, p), p).length == length,
        read_table(encoded_table(seeds, length as nat, p), p).chains == seed_chains(
            seeds,
            length as nat,
            p,
        ),
        read_table(encoded_table(seeds, length as nat, p), p).chains.len() <= seeds.len(),
        distinct_endpoints(seeds, length as nat, p) ==> read_table(
            encoded_table(seeds, length as nat, p),
            p,
        ).chains.len() == seeds.len(),
{
    let n = seeds.len();
    let b = encoded_table(seeds, length as nat, p);
    let body = records(seeds, length as nat, p);
    lemma_records_len(seeds, length as nat, p);
    lemma_u64_round_trip(n as u64);
    lemma_u64_round_trip(length);
    assert(b.subrange(0, 8) =~= le_bytes(n, 8));
    assert(b.subrange(8, 16) =~= le_bytes(length as nat, 8));
    lemma_read_chains_prefix(seeds, length as nat, p, n);
    assert(seeds.take(n as int) =~= seeds);
    lemma_seed_chains_len(seeds, length as nat, p);
}

impl Chain {
    /// The record of this chain in the file format: head, then endpoint.
    pub fn encode(&self) -> (r: Vec<u8>)
        ensures
            r@ == self.pass@ + self.hash@,
    {
        let mut out = copy_bytes(self.pass.as_slice());
        push_bytes(&mut out, self.hash.as_slice());
        out
    }
}

impl Table {
    /// The header of the file format: chain count, then chain length.
    pub fn encode_header(count: u64, length: u64) -> (r: Vec<u8>)
        ensures
            r@ == le_bytes(count as nat, 8) + le_bytes(length as nat, 8),
    {
        let mut out = u64_to_le(count);
        let tail = u64_to_le(length);
        push_bytes(&mut out, tail.as_slice());
        out
    }

    /// Generates a chain of `length` steps from each seed, and encodes the
    /// table in the file format, records in seed order.
    pub fn write(seeds: &[Vec<u8>], pass_len: usize, length: u64) -> (r: Result<
        Vec<u8>,
        TableError,
    >)
        ensures
            r is Ok <==> supported_pass_len(pass_len as nat) && all_of_len(
                views(seeds@),
                pass_len as nat,
            ),
            r matches Ok(b) ==> b@ == encoded_table(views(seeds@), length as nat, pass_len as nat),
            r == Err::<Vec<u8>, TableError>(TableError::UnsupportedPassLen) <==> !supported_pass_len(
                pass_len as nat,
            ),
            r matches Err(TableError::LengthMismatch { .. }) <==> supported_pass_len(pass_len as nat)
                && !all_of_len(views(seeds@), pass_len as nat),
            r matches Err(TableError::LengthMismatch { expected, actual }) ==> expected == pass_len
                && exists|i: int|
                first_mismatch(views(seeds@), pass_len as nat, i) && actual == seeds@[i]@.len(),
            r != Err::<Vec<u8>, TableError>(TableError::Truncated),
    {
        if pass_len < 1 || pass_len > MAX_PASS_LEN {
            return Err(TableError::UnsupportedPassLen);
        }
        let ghost sv = views(seeds@);
        let mut i: usize = 0;
        while i < seeds.len()
            invariant
                i <= seeds@.len(),
                sv == views(seeds@),
                supported_pass_len(pass_len as nat),
                forall|j: int| 0 <= j < i ==> #[trigger] sv[j].len() == pass_len,
            decreases seeds@.len() - i,
        {
            assert(sv[i as int] == seeds@[i as int]@);
            if seeds[i].len() != pass_len {
                assert(first_mismatch(sv, pass_len as nat, i as int));
                return Err(TableError::LengthMismatch { expected: pass_len, actual: seeds[i].len() });
            }
            i = i + 1;
        }
        assert forall|i: int| #![auto] 0 <= i < sv.len() ==> !first_mismatch(sv, pass_len as nat, i) by {}
        let mut out = Table::encode_header(seeds.len() as u64, length);
        let mut i: usize = 0;
        while i < seeds.len()
            invariant
                i <= seeds@.len(),
                sv == views(seeds@),
                supported_pass_len(pass_len as nat),
                out@ == le_bytes(seeds@.len(), 8) + le_bytes(length as nat, 8) + records(
                    sv.take(i as int),
                    length as nat,
                    pass_len as nat,
                ),
            decreases seeds@.len() - i,
        {
            let chain = Chain::generate(seeds[i].as_slice(), length, pass_len);
            let bytes = chain.encode();
            push_bytes(&mut out, bytes.as_slice());
            proof {
                let t = sv.take(i + 1);
                assert(t.drop_last() =~= sv.take(i as int));
                assert(t.last() == seeds@[i as int]@);
            }
            i = i + 1;
            assert(out@ =~= le_bytes(seeds@.len(), 8) + le_bytes(length as nat, 8) + records(
                sv.take(i as int),
                length as nat,
                pass_len as nat,
            ));
        }
        assert(sv.take(seeds@.len() as int) =~= sv);
        Ok(out)
    }
}

impl Table {
    /// Decodes a table from the file format, given the preimage length that
    /// it was written with. Bytes after the announced records are ignored.
    pub fn read(bytes: &[u8], pass_len: usize) -> (r: Result<Table, TableError>)
        ensures
            r is Ok <==> supported_pass_len(pass_len as nat) && well_sized(bytes@, pass_len as nat),
            r matches Ok(t) ==> t@ == read_table(bytes@, pass_len as nat) && t@.wf(),
            r == Err::<Table, TableError>(TableError::UnsupportedPassLen) <==> !supported_pass_len(
                pass_len as nat,
            ),
            r == Err::<Table, TableError>(TableError::Truncated) <==> supported_pass_len(
                pass_len as nat,
            ) && !well_sized(bytes@, pass_len as nat),
            !(r matches Err(TableError::LengthMismatch { .. })),
    {
        broadcast use vstd::std_specs::hash::group_hash_axioms;

        if pass_len < 1 || pass_len > MAX_PASS_LEN {
            return Err(TableError::UnsupportedPassLen);
        }
        if bytes.len() < 16 {
            return Err(TableError::Truncated);
        }
        let ghost b = bytes@;
        let ghost p = pass_len as nat;
        let count = u64_from_le(bytes);
        let tail = &bytes[8..16];
        let length = u64_from_le(tail);
        assert(tail@.subrange(0, 8) =~= b.subrange(8, 16));
        let rec: u64 = (pass_len + DIGEST_LEN) as u64;
        let avail: u64 = (bytes.len() - 16) as u64;
        proof {
            lemma_count_fits(count as nat, avail as nat, rec as nat);
        }
        if count > avail / rec {
            return Err(TableError::Truncated);
        }
        assert(count <= count * rec) by (nonlinear_arith)
            requires
                rec >= 1,
        ;
        let mut chains: HashMap<u128, Vec<u8>> = HashMap::with_capacity(count as usize);
        let mut i: u64 = 0;
        while i < count
            invariant
                b == bytes@,
                p == pass_len,
                supported_pass_len(p),
                count as nat == header_count(b),
                rec == p + 16,
                avail == b.len() - 16,
                b.len() <= usize::MAX,
                count * rec <= avail,
                count <= avail,
                i <= count,
                chains@.map_values(|v: Vec<u8>| v@) == read_chains(b, p, i as nat),
                forall|k: u128| #[trigger] chains@.contains_key(k) ==> chains@[k]@.len() == p,
            decreases count - i,
        {
            assert((i + 1) * rec <= count * rec) by (nonlinear_arith)
                requires
                    i < count,
            ;
            assert((i + 1) * rec == i * rec + rec) by (nonlinear_arith);
            let off: usize = 16 + (i as usize) * (pass_len + DIGEST_LEN);
            assert(off == record_start(p, i as nat));
            let pass = copy_bytes(&bytes[off..off + pass_len]);
            let hash = &bytes[off + pass_len..off + pass_len + DIGEST_LEN];
            let key = u128_from_le(hash);
            assert(hash@.subrange(0, 16) =~= record_hash(b, p, i as nat));
            let ghost before = chains@;
            chains.insert(key, pass);
            proof {
                assert(chains@.map_values(|v: Vec<u8>| v@) =~= before.map_values(|v: Vec<u8>| v@).insert(
                    key,
                    record_pass(b, p, i as nat),
                ));
            }
            i = i + 1;
        }
        let t = Table { pass_len, length, chains };
        assert(t@.chains.dom().finite()) by {
            assert(t@.chains.dom() =~= chains@.dom());
        }
        Ok(t)
    }
}

} // verus!
