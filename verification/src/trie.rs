//! The hash of a list of key-value pairs, as the root of the Merkle-Patricia
//! trie that holds them, over Keccak-256.

use vstd::prelude::*;

verus! {

/// The root hash that `triehash::trie_root` gives with Keccak-256 for the
/// pairs `entries`.
pub uninterp spec fn trie_root_of(entries: Seq<(Seq<u8>, Seq<u8>)>) -> Seq<u8>;

/// The pairs of a list of owned pairs, as byte sequences.
pub open spec fn entries_view(entries: Seq<(Vec<u8>, Vec<u8>)>) -> Seq<(Seq<u8>, Seq<u8>)> {
    Seq::new(entries.len(), |i: int| (entries[i].0@, entries[i].1@))
}

/// Calls `triehash::trie_root` with `keccak_hasher::KeccakHasher` on the
/// pairs. Nothing is proved of it. It is taken to return, for the same pairs,
/// the same bytes every time: the function sorts the pairs by key, builds the
/// trie over them and hashes its root node, and reads nothing else.
#[verifier::external_body]
pub(crate) fn trie_root(entries: &Vec<(Vec<u8>, Vec<u8>)>) -> (root: Vec<u8>)
    ensures
        root@ == trie_root_of(entries_view(entries@)),
{
    triehash::trie_root::<keccak_hasher::KeccakHasher, _, _, _>(
        entries.iter().map(|e| (&e.0, &e.1)),
    ).to_vec()
}

} // verus!
