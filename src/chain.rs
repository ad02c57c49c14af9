//! Building one chain from its seed.

use vstd::prelude::*;
use crate::digest::md5_digest;
use crate::encoding::copy_bytes;
use crate::reduce::{advance, endpoint};
use crate::table::{supported_pass_len, Chain, Table};

verus! {

impl Chain {
    /// The chain of `length` steps that starts at `seed`: the seed itself as
    /// head, and the digest reached after `length` reduce and digest steps.
    pub fn generate(seed: &[u8], length: u64, pass_len: usize) -> (r: Chain)
        requires
            supported_pass_len(pass_len as nat),
        ensures
            r.pass@ == seed@,
            r.hash@ == endpoint(seed@, length as nat, pass_len as nat),
            r.hash@.len() == 16,
    {
        let mut hash = md5_digest(seed);
        let mut step: u64 = 0;
        while step < length
            invariant
                step <= length,
                supported_pass_len(pass_len as nat),
                hash@.len() == 16,
                advance(hash@, step as nat, length as nat, pass_len as nat) == endpoint(
                    seed@,
                    length as nat,
                    pass_len as nat,
                ),
            decreases length - step,
        {
            let pass = Table::reduce(step, hash.as_slice(), pass_len);
            hash = md5_digest(pass.as_slice());
            step = step + 1;
        }
        Chain { pass: copy_bytes(seed), hash }
    }
}

/// The (head, endpoint) pairs of the chains generated from `seeds`.
pub open spec fn generated_chains(seeds: Seq<Seq<u8>>, length: nat, p: nat) -> Set<
    (Seq<u8>, Seq<u8>),
> {
    Set::new(|c: (Seq<u8>, Seq<u8>)| seeds.contains(c.0) && c.1 == endpoint(c.0, length, p))
}

/// Generation does not depend on the order in which the seeds are taken:
/// any reordering of the seeds yields the same set of chains.
pub proof fn lemma_generation_order_free(a: Seq<Seq<u8>>, b: Seq<Seq<u8>>, length: nat, p: nat)
    requires
        a.to_multiset() == b.to_multiset(),
    ensures
        generated_chains(a, length, p) == generated_chains(b, length, p),
{
    broadcast use vstd::seq_lib::to_multiset_contains;

    assert forall|s: Seq<u8>| a.contains(s) <==> b.contains(s) by {
        vstd::seq_lib::to_multiset_contains(a, s);
        vstd::seq_lib::to_multiset_contains(b, s);
    }
    assert(generated_chains(a, length, p) =~= generated_chains(b, length, p));
}

} // verus!
