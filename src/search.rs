use vstd::prelude::*;

use crate::permutations::{
    in_product, lemma_enumeration_complete, lemma_nth_tuple_in_product, nth_tuple, total,
    Permutations,
};
use crate::sponge::{hash, hash_spec, BLOCK_SIZE};

verus! {

/// Whether some tuple of `len` symbols of `alphabet` hashes to `target`.
pub open spec fn preimage_exists(alphabet: Seq<u8>, len: nat, target: Seq<u8>) -> bool {
    exists|t: Seq<u8>| in_product(alphabet, len, t) && #[trigger] hash_spec(t) == target
}

fn digest_eq(a: &[u8; 16], b: &[u8; 16]) -> (r: bool)
    ensures
        r == (a@ == b@),
{
    for k in 0..16
        invariant
            forall|t: int| 0 <= t < k ==> a[t] == b[t],
    {
        if a[k] != b[k] {
            return false;
        }
    }
    assert(a@ =~= b@);
    true
}

/// Whether `candidate` hashes to `target`.
pub fn is_preimage(candidate: &Vec<u8>, target: &[u8; 16]) -> (r: bool)
    requires
        candidate.len() + BLOCK_SIZE <= usize::MAX,
    ensures
        r == (hash_spec(candidate@) == target@),
{
    let digest = hash(candidate.clone());
    digest_eq(&digest, target)
}

/// Scans every tuple of `length` symbols of `alphabet` in enumeration order
/// and returns the first one whose digest is `target`, or `None` when the
/// whole space holds no such tuple.
pub fn find_preimage(alphabet: Vec<u8>, length: usize, target: [u8; 16]) -> (r: Option<Vec<u8>>)
    requires
        length + BLOCK_SIZE <= usize::MAX,
    ensures
        r is Some <==> preimage_exists(alphabet@, length as nat, target@),
        r matches Some(c) ==> in_product(alphabet@, length as nat, c@) && hash_spec(c@) == target@,
{
    let ghost a = alphabet@;
    let ghost len = length as nat;
    let mut perms = Permutations::new(alphabet, length);
    loop
        invariant
            perms.wf(),
            perms.alphabet() == a,
            a == alphabet@,
            len == length,
            perms.tuple_len() == len,
            len + BLOCK_SIZE <= usize::MAX,
            forall|k: nat|
                k < perms.emitted() ==> hash_spec(#[trigger] nth_tuple(a, len, k)) != target@,
        decreases total(a, len) - perms.emitted(),
    {
        let ghost k = perms.emitted();
        match perms.next() {
            None => {
                proof {
                    assert forall|t: Seq<u8>| in_product(a, len, t) implies #[trigger] hash_spec(t)
                        != target@ by {
                        lemma_enumeration_complete(a, len, t);
                        let j = choose|j: nat| j < total(a, len) && #[trigger] nth_tuple(a, len, j) == t;
                        assert(hash_spec(nth_tuple(a, len, j)) != target@);
                    }
                    assert(!preimage_exists(a, len, target@));
                }
                return None;
            },
            Some(c) => {
                proof {
                    assert(k < total(a, len));
                    assert(c@ == nth_tuple(a, len, k));
                    lemma_nth_tuple_in_product(a, len, k);
                }
                if is_preimage(&c, &target) {
                    assert(in_product(a, len, c@) && hash_spec(c@) == target@);
                    assert(preimage_exists(a, len, target@));
                    return Some(c);
                }
            },
        }
    }
}

/// Searching for the digest of any tuple of the space succeeds: some tuple
/// of the space hashes to it.
pub proof fn lemma_search_finds(alphabet: Seq<u8>, len: nat, t: Seq<u8>)
    requires
        in_product(alphabet, len, t),
    ensures
        preimage_exists(alphabet, len, hash_spec(t)),
{
}

} // verus!
