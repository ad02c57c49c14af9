//! Recovering a preimage of a digest from the stored chains.

use vstd::prelude::*;
use crate::codec::{encoded_table, key_of, lemma_read_after_write, read_table, seed_chains};
use crate::digest::{md5_digest, md5_of};
use crate::encoding::{copy_bytes, u128_from_le};
use crate::reduce::{advance, endpoint, reduce_spec};
use crate::table::{supported_pass_len, Table, TableView};

verus! {

/// The view of an optional byte vector.
pub open spec fn opt_view(o: Option<Vec<u8>>) -> Option<Seq<u8>> {
    match o {
        Some(v) => Some(v@),
        None => None,
    }
}

/// Walks a chain whose preimage at position `i` is `pass`: the first
/// preimage from there on, before position `length`, whose digest is
/// `target`.
pub open spec fn walk_spec(pass: Seq<u8>, target: Seq<u8>, i: nat, length: nat, p: nat) -> Option<
    Seq<u8>,
>
    decreases length - i,
{
    if i >= length {
        None
    } else if md5_of(pass) == target {
        Some(pass)
    } else {
        walk_spec(reduce_spec(i, md5_of(pass), p), target, i + 1, length, p)
    }
}

/// Supposes that `target` is the digest at position `start` of some chain:
/// finds the chain stored under the endpoint that this gives, and walks it.
pub open spec fn try_start(t: TableView, target: Seq<u8>, start: nat) -> Option<Seq<u8>> {
    let end = advance(target, start, t.length, t.pass_len);
    if t.chains.contains_key(key_of(end)) {
        walk_spec(t.chains[key_of(end)], target, 0, t.length, t.pass_len)
    } else {
        None
    }
}

/// Tries the start positions `n - 1` down to `0`; the first that finds a
/// preimage decides.
pub open spec fn search(t: TableView, target: Seq<u8>, n: nat) -> Option<Seq<u8>>
    decreases n,
{
    if n == 0 {
        None
    } else {
        match try_start(t, target, (n - 1) as nat) {
            Some(pass) => Some(pass),
            None => search(t, target, (n - 1) as nat),
        }
    }
}

/// What a lookup of `target` in `t` returns: every start position from the
/// chain length down to zero is tried.
pub open spec fn lookup(t: TableView, target: Seq<u8>) -> Option<Seq<u8>> {
    search(t, target, t.length + 1)
}

proof fn lemma_walk_sound(pass: Seq<u8>, target: Seq<u8>, i: nat, length: nat, p: nat)
    ensures
        walk_spec(pass, target, i, length, p) matches Some(found) ==> md5_of(found) == target,
    decreases length - i,
{
    if i < length && md5_of(pass) != target {
        lemma_walk_sound(reduce_spec(i, md5_of(pass), p), target, i + 1, length, p);
    }
}

proof fn lemma_search_sound(t: TableView, target: Seq<u8>, n: nat)
    ensures
        search(t, target, n) matches Some(found) ==> md5_of(found) == target,
    decreases n,
{
    if n > 0 {
        let start = (n - 1) as nat;
        let end = advance(target, start, t.length, t.pass_len);
        lemma_walk_sound(t.chains[key_of(end)], target, 0, t.length, t.pass_len);
        lemma_search_sound(t, target, start);
    }
}

/// Whatever a lookup returns is a preimage of the digest looked up.
pub proof fn lemma_lookup_sound(t: TableView, target: Seq<u8>)
    ensures
        lookup(t, target) matches Some(found) ==> md5_of(found) == target,
{
    lemma_search_sound(t, target, t.length + 1);
}

proof fn lemma_search_uncovered(t: TableView, target: Seq<u8>, n: nat)
    requires
        forall|k: u128| #[trigger] t.chains.contains_key(k) ==> walk_spec(t.chains[k], target, 0, t.length, t.pass_len) is None,
    ensures
        search(t, target, n) is None,
    decreases n,
{
    if n > 0 {
        lemma_search_uncovered(t, target, (n - 1) as nat);
    }
}

/// A lookup of a digest that no stored chain reaches finds nothing; in
/// particular every lookup in a table without chains finds nothing.
pub proof fn lemma_lookup_uncovered(t: TableView, target: Seq<u8>)
    requires
        forall|k: u128| #[trigger] t.chains.contains_key(k) ==> walk_spec(t.chains[k], target, 0, t.length, t.pass_len) is None,
    ensures
        lookup(t, target) is None,
{
    lemma_search_uncovered(t, target, t.length + 1);
}

proof fn lemma_search_single(t: TableView, seed: Seq<u8>, n: nat)
    requires
        t.length >= 1,
        t.chains == Map::<u128, Seq<u8>>::empty().insert(
            key_of(endpoint(seed, t.length, t.pass_len)),
            seed,
        ),
        n >= 1,
    ensures
        search(t, md5_of(seed), n) == Some(seed),
    decreases n,
{
    let target = md5_of(seed);
    assert(walk_spec(seed, target, 0, t.length, t.pass_len) == Some(seed));
    if n > 1 {
        lemma_search_single(t, seed, (n - 1) as nat);
    } else {
        assert(advance(target, 0, t.length, t.pass_len) == endpoint(seed, t.length, t.pass_len));
    }
}

/// A table written from a single seed, with chains of at least one step,
/// gives that seed back for the seed's own digest.
pub proof fn lemma_single_seed_found(seed: Seq<u8>, length: u64, p: nat)
    requires
        supported_pass_len(p),
        seed.len() == p,
        length >= 1,
    ensures
        lookup(read_table(encoded_table(seq![seed], length as nat, p), p), md5_of(seed)) == Some(
            seed,
        ),
{
    let seeds = seq![seed];
    lemma_read_after_write(seeds, length, p);
    let t = read_table(encoded_table(seeds, length as nat, p), p);
    assert(seeds.drop_last() =~= Seq::<Seq<u8>>::empty());
    assert(seeds.last() == seed);
    assert(seed_chains(seeds.drop_last(), length as nat, p) == Map::<u128, Seq<u8>>::empty());
    assert(t.chains == seed_chains(seeds, length as nat, p));
    lemma_search_single(t, seed, t.length + 1);
}

/// A table written from no seeds holds no chain, and every lookup in it
/// finds nothing.
pub proof fn lemma_empty_table(length: u64, p: nat, target: Seq<u8>)
    requires
        supported_pass_len(p),
    ensures
        read_table(encoded_table(Seq::empty(), length as nat, p), p).chains.len() == 0,
        lookup(read_table(encoded_table(Seq::empty(), length as nat, p), p), target) is None,
{
    let seeds = Seq::<Seq<u8>>::empty();
    lemma_read_after_write(seeds, length, p);
    let t = read_table(encoded_table(seeds, length as nat, p), p);
    assert(t.chains == Map::<u128, Seq<u8>>::empty());
    assert(t.chains.dom() =~= Set::<u128>::empty());
    lemma_lookup_uncovered(t, target);
}

/// Whether `a` and `b` hold the same bytes.
fn bytes_eq(a: &[u8], b: &[u8]) -> (r: bool)
    ensures
        r == (a@ == b@),
{
    if a.len() != b.len() {
        return false;
    }
    let mut i: usize = 0;
    while i < a.len()
        invariant
            a@.len() == b@.len(),
            i <= a@.len(),
            forall|j: int| 0 <= j < i ==> a@[j] == b@[j],
        decreases a@.len() - i,
    {
        if a[i] != b[i] {
            return false;
        }
        i = i + 1;
    }
    assert(a@ =~= b@);
    true
}

impl Table {
    /// Finds a preimage of `target` among the stored chains, or `None` when
    /// no stored chain is found to reach it.
    pub fn get(&self, target: &[u8]) -> (r: Option<Vec<u8>>)
        requires
            self@.wf(),
            target@.len() == 16,
        ensures
            opt_view(r) == lookup(self@, target@),
    {
        let mut start: u64 = self.length;
        loop
            invariant
                self@.wf(),
                target@.len() == 16,
                start <= self.length,
                search(self@, target@, (start + 1) as nat) == lookup(self@, target@),
            decreases start,
        {
            let found = self.try_start(target, start);
            if found.is_some() {
                return found;
            }
            if start == 0 {
                assert(search(self@, target@, 0) is None);
                return None;
            }
            start = start - 1;
        }
    }

    /// The outcome of supposing that `target` sits at position `start`.
    fn try_start(&self, target: &[u8], start: u64) -> (r: Option<Vec<u8>>)
        requires
            self@.wf(),
            target@.len() == 16,
            start <= self.length,
        ensures
            opt_view(r) == try_start(self@, target@, start as nat),
    {
        broadcast use vstd::std_specs::hash::group_hash_axioms;

        let mut hash = copy_bytes(target);
        let mut step: u64 = start;
        while step < self.length
            invariant
                self@.wf(),
                step <= self.length,
                hash@.len() == 16,
                advance(hash@, step as nat, self@.length, self@.pass_len) == advance(
                    target@,
                    start as nat,
                    self@.length,
                    self@.pass_len,
                ),
            decreases self.length - step,
        {
            let pass = Table::reduce(step, hash.as_slice(), self.pass_len);
            hash = md5_digest(pass.as_slice());
            step = step + 1;
        }
        let key = u128_from_le(hash.as_slice());
        assert(hash@.subrange(0, 16) =~= hash@);
        match self.chains.get(&key) {
            Some(head) => self.walk(head.as_slice(), target),
            None => None,
        }
    }

    /// Walks the chain that starts at `head` for a preimage of `target`.
    fn walk(&self, head: &[u8], target: &[u8]) -> (r: Option<Vec<u8>>)
        requires
            self@.wf(),
            target@.len() == 16,
        ensures
            opt_view(r) == walk_spec(head@, target@, 0, self@.length, self@.pass_len),
    {
        let mut pass = copy_bytes(head);
        let mut hash = md5_digest(pass.as_slice());
        let mut step: u64 = 0;
        while step < self.length
            invariant
                self@.wf(),
                step <= self.length,
                hash@ == md5_of(pass@),
                walk_spec(pass@, target@, step as nat, self@.length, self@.pass_len) == walk_spec(
                    head@,
                    target@,
                    0,
                    self@.length,
                    self@.pass_len,
                ),
            decreases self.length - step,
        {
            if bytes_eq(hash.as_slice(), target) {
                return Some(pass);
            }
            pass = Table::reduce(step, hash.as_slice(), self.pass_len);
            hash = md5_digest(pass.as_slice());
            step = step + 1;
        }
        None
    }
}

} // verus!
