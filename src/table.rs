//! The table: a chain length, a preimage length, and the stored chains
//! keyed by the little-endian value of their endpoint digest.

use std::collections::HashMap;
use vstd::prelude::*;

verus! {

/// The number of bytes in a digest.
pub const DIGEST_LEN: usize = 16;

/// The largest preimage length that the reduction family supports.
pub const MAX_PASS_LEN: usize = 16;

/// A chain as generated: its head preimage and its endpoint digest.
pub struct Chain {
    /// The first preimage of the chain.
    pub pass: Vec<u8>,
    /// The last digest of the chain.
    pub hash: Vec<u8>,
}

/// A rainbow table loaded in memory. Chains whose endpoints collide are kept
/// once: the one stored last.
pub struct Table {
    pub pass_len: usize,
    pub length: u64,
    pub chains: HashMap<u128, Vec<u8>>,
}

/// What a table holds, as mathematical values.
pub struct TableView {
    pub pass_len: nat,
    pub length: nat,
    /// Head preimage of the chain kept for each endpoint key.
    pub chains: Map<u128, Seq<u8>>,
}

/// A preimage length that the reduction family supports.
pub open spec fn supported_pass_len(p: nat) -> bool {
    1 <= p <= MAX_PASS_LEN
}

impl TableView {
    pub open spec fn wf(self) -> bool {
        &&& supported_pass_len(self.pass_len)
        &&& self.chains.dom().finite()
        &&& forall|k: u128| #[trigger] self.chains.contains_key(k) ==> self.chains[k].len()
            == self.pass_len
    }
}

impl View for Table {
    type V = TableView;

    open spec fn view(&self) -> TableView {
        TableView {
            pass_len: self.pass_len as nat,
            length: self.length as nat,
            chains: self.chains@.map_values(|v: Vec<u8>| v@),
        }
    }
}

impl Table {
    /// The length of every chain: the number of reduction steps in it.
    pub fn chain_length(&self) -> (r: u64)
        ensures
            r == self@.length,
    {
        self.length
    }

    /// The number of bytes in every preimage of the table.
    pub fn pass_len(&self) -> (r: usize)
        ensures
            r == self@.pass_len,
    {
        self.pass_len
    }

    /// The number of chains kept.
    pub fn chain_count(&self) -> (r: usize)
        ensures
            r == self@.chains.len(),
    {
        broadcast use vstd::std_specs::hash::group_hash_axioms;

        assert(self@.chains.dom() =~= self.chains@.dom());
        self.chains.len()
    }
}

} // verus!
