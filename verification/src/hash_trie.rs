//! A hash registry over the byte trie: it records every inserted hash and,
//! per four-byte prefix, the minimum unique prefix length it reported for
//! the last hash inserted under that prefix.

use crate::trie::spec_min_prefix;
use crate::trie::Trie;
use crate::trie::TrieNode;
use std::collections::HashMap;
use vstd::prelude::*;
use vstd::seq_lib::*;
use vstd::slice::slice_to_vec;
use vstd::std_specs::hash::obeys_key_model;

verus! {

/// The key under which a hash's minimum length is remembered: its first four
/// bytes, packed big-endian.
pub open spec fn prefix_key(s: Seq<u8>) -> u32
    recommends
        s.len() >= 4,
{
    ((s[0] as int) * 0x1000000 + (s[1] as int) * 0x10000 + (s[2] as int) * 0x100 + (
    s[3] as int)) as u32
}

/// The registry: the trie of all inserted hashes, and per four-byte prefix
/// the minimum length last computed for it.
pub struct HashTrie {
    /// Every inserted hash, stored under its own bytes.
    trie: Trie<Vec<u8>>,
    /// Per four-byte prefix, the length [`HashTrie::insert`] last returned.
    key_lengths: HashMap<u32, usize>,
}

impl HashTrie {
    /// The root of the registry's trie; opaque, spoken of through
    /// [`HashTrie::stored`] and [`HashTrie::covered`].
    pub closed spec fn index_root(self) -> TrieNode<Vec<u8>> {
        self.trie.root
    }

    /// Whether `p` was inserted.
    pub open spec fn stored(self, p: Seq<u8>) -> bool {
        self.index_root().valued(p)
    }

    /// Whether walking `q` stays inside the registry's tree — by
    /// [`HashTrie::wf`], exactly when `q` is a prefix of an inserted hash.
    pub open spec fn covered(self, q: Seq<u8>) -> bool {
        self.index_root().has_node(q)
    }

    /// The remembered minimum lengths.
    pub closed spec fn lengths(self) -> Map<u32, usize> {
        self.key_lengths@
    }

    /// Well-formed: the trie is, and — since the registry only ever inserts
    /// — its tree covers exactly the prefixes of the inserted hashes.
    pub open spec fn wf(self) -> bool {
        &&& self.index_root().wf()
        &&& forall|q: Seq<u8>|
            #[trigger] self.covered(q) <==> (q.len() == 0 || exists|p: Seq<u8>|
                #[trigger] self.stored(p) && q.is_prefix_of(p))
    }

    /// An empty registry.
    pub fn new() -> (r: Self)
        ensures
            r.wf(),
            forall|p: Seq<u8>| !r.stored(p),
            r.lengths() == Map::<u32, usize>::empty(),
    {
        let r = HashTrie { trie: Trie::new(), key_lengths: HashMap::new() };
        proof {
            assert forall|q: Seq<u8>| #[trigger] r.covered(q) <==> (q.len() == 0 || exists|
                p: Seq<u8>,
            |
                #[trigger] r.stored(p) && q.is_prefix_of(p)) by {
                if q.len() == 0 {
                    assert(r.covered(q));
                }
            }
        }
        r
    }

    /// Registers `hash` and returns the shortest prefix length that uniquely
    /// addresses it among the registry's contents: the walk of
    /// [`spec_min_prefix`] against the tree before this insertion, never
    /// shorter than [`crate::MIN_PREFIX_LEN`] and never longer than the
    /// hash. That length is remembered under the hash's four-byte prefix.
    pub fn insert(&mut self, hash: &[u8]) -> (r: usize)
        requires
            old(self).wf(),
            crate::MIN_PREFIX_LEN <= hash@.len(),
        ensures
            final(self).wf(),
            r == spec_min_prefix(old(self).index_root(), hash@),
            crate::MIN_PREFIX_LEN <= r <= hash@.len(),
            forall|q: Seq<u8>| #[trigger] final(self).stored(q) <==> (old(self).stored(q) || q
                == hash@),
            final(self).lengths() == old(self).lengths().insert(prefix_key(hash@), r),
    {
        let r = self.trie.min_prefix_len(hash);
        let owned = slice_to_vec(hash);
        self.trie.insert(hash, owned);
        let b0 = *vstd::slice::slice_index_get(hash, 0);
        let b1 = *vstd::slice::slice_index_get(hash, 1);
        let b2 = *vstd::slice::slice_index_get(hash, 2);
        let b3 = *vstd::slice::slice_index_get(hash, 3);
        let key: u32 = (b0 as u32) * 0x1000000 + (b1 as u32) * 0x10000 + (b2 as u32) * 0x100 + (
        b3 as u32);
        self.key_lengths.insert(key, r);
        proof {
            assert(obeys_key_model::<u32>());
            assert(key == prefix_key(hash@));
            assert forall|q: Seq<u8>| #[trigger] self.covered(q) <==> (q.len() == 0 || exists|
                p: Seq<u8>,
            |
                #[trigger] self.stored(p) && q.is_prefix_of(p)) by {
                if q.len() == 0 {
                    assert(self.covered(q)) by {
                        assert(q.is_prefix_of(hash@)) by {
                            assert(q =~= hash@.take(0));
                        }
                    }
                } else {
                    if self.covered(q) {
                        if old(self).covered(q) {
                            let p = choose|p: Seq<u8>|
                                #[trigger] old(self).stored(p) && q.is_prefix_of(p);
                            assert(self.stored(p) && q.is_prefix_of(p));
                        } else {
                            assert(q.is_prefix_of(hash@));
                            assert(self.stored(hash@));
                        }
                    }
                    if exists|p: Seq<u8>| #[trigger] self.stored(p) && q.is_prefix_of(p) {
                        let p = choose|p: Seq<u8>| #[trigger] self.stored(p) && q.is_prefix_of(p);
                        if p == hash@ {
                            assert(self.covered(q));
                        } else {
                            assert(old(self).stored(p));
                            assert(old(self).covered(q));
                        }
                    }
                }
            }
        }
        r
    }
}

} // verus!
