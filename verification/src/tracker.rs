//! The entry table: a trie over hash bytes that tracks every live clipboard.
//!
//! Each stored hash owns exactly one entry, holding the full hash, the blob
//! for the in-memory kind (the on-disk kind keeps only a marker), and the
//! abort end of its expiry task's cancellation channel. Lookups may use any
//! prefix of a hash and succeed exactly when the prefix is unambiguous.
//!
//! The table itself does no I/O and spawns no task: the caller deletes and
//! writes blob files and drives the expiry tasks, ordering those effects
//! around [`TrieTracker::remove`] and [`TrieTracker::insert_clipboard`].

use crate::clipboard::Clipboard;
use crate::trie::Trie;
use crate::trie::TrieNode;
use tokio::sync::oneshot::Sender;
use vstd::prelude::*;
use vstd::seq_lib::*;
use vstd::string::*;
use vstd::utf8::encode_utf8;

verus! {

/// The declared shape of `tokio::sync::oneshot::Sender`, the abort end of
/// an expiry task's cancellation channel. The table stores one per entry
/// and hands it back on removal; the caller signals it.
#[verifier::external_type_specification]
#[verifier::external_body]
#[verifier::reject_recursive_types(T)]
pub struct ExOneshotSender<T>(Sender<T>);

/// One live entry: the full hash, the blob when it is kept in memory, and
/// the abort end of the entry's expiry task.
pub struct TrieValue {
    /// The full hash, equal to the path under which the entry sits.
    pub hash: String,
    /// The blob, present exactly for the in-memory storage kind.
    pub clipboard: Option<Clipboard>,
    /// Signalled to cancel the entry's expiry task.
    pub abort_tx: Sender<()>,
}

/// What a lookup found: the blob itself for an in-memory entry, or the full
/// hash naming the blob's file for an on-disk entry.
pub enum Found {
    /// The stored blob.
    Mem(Clipboard),
    /// The full hash; the blob lives in the file of that name.
    Persist(String),
}

/// The entry table.
pub struct TrieTracker {
    /// The trie over hash bytes; a value sits on each stored hash's terminal
    /// node.
    pub trie: Trie<TrieValue>,
}

impl TrieTracker {
    /// The entry reachable by walking `p` from the root, if any.
    pub open spec fn entry_at(self, p: Seq<u8>) -> Option<TrieValue> {
        self.trie.root.value_at(p)
    }

    /// Whether an entry sits at exactly `p`.
    pub open spec fn holds(self, p: Seq<u8>) -> bool {
        self.entry_at(p) is Some
    }

    /// Whether an entry sits at `p` and `f` is a prefix of `p`: the entries
    /// that a lookup by the fragment `f` must choose between.
    pub open spec fn holds_under(self, f: Seq<u8>, p: Seq<u8>) -> bool {
        self.holds(p) && f.is_prefix_of(p)
    }

    /// Well-formed: the trie is well-formed and every entry records as its
    /// hash exactly the path it sits under.
    pub open spec fn wf(self) -> bool {
        &&& self.trie.root.wf()
        &&& forall|p: Seq<u8>|
            self.holds(p) ==> encode_utf8((#[trigger] self.entry_at(p))->0.hash@) == p
    }

    /// An empty table.
    pub fn new() -> (r: Self)
        ensures
            r.wf(),
            forall|p: Seq<u8>| !r.holds(p),
            forall|p: Seq<u8>| p.len() > 0 ==> !r.trie.root.has_node(p),
    {
        TrieTracker { trie: Trie::new() }
    }

    /// Removes the subtree at `hash` and returns its entry, if one sits
    /// exactly there. Entries strictly below `hash` are removed with it; no
    /// other entry moves. The caller deletes the returned entry's file (for
    /// the on-disk kind) and signals its abort sender.
    pub fn remove(&mut self, hash: &str) -> (r: Option<TrieValue>)
        requires
            old(self).wf(),
            hash.spec_bytes().len() >= 1,
        ensures
            final(self).wf(),
            r == old(self).entry_at(hash.spec_bytes()),
            forall|p: Seq<u8>|
                hash.spec_bytes().is_prefix_of(p) ==> (!#[trigger] final(self).holds(p)
                    && !final(self).trie.root.has_node(p)),
            forall|p: Seq<u8>|
                !hash.spec_bytes().is_prefix_of(p) ==> (#[trigger] final(self).entry_at(p)
                    == old(self).entry_at(p) && (final(self).trie.root.has_node(p)
                    <==> old(self).trie.root.has_node(p))),
    {
        let hb = hash.as_bytes();
        let r = match self.trie.remove(hb) {
            None => None,
            Some(node) => node.value,
        };
        proof {
            let hs = hash.spec_bytes();
            assert(r == old(self).entry_at(hs));
            assert forall|p: Seq<u8>| hs.is_prefix_of(p) implies (!#[trigger] self.holds(p)
                && !self.trie.root.has_node(p)) by {
                assert(!self.trie.root.has_node(p));
            }
            assert forall|p: Seq<u8>| !hs.is_prefix_of(p) implies (#[trigger] self.entry_at(p)
                == old(self).entry_at(p) && (self.trie.root.has_node(p) <==> old(
                self,
            ).trie.root.has_node(p))) by {
                assert(self.trie.root.value_at(p) == old(self).trie.root.value_at(p));
            }
            assert forall|p: Seq<u8>| self.holds(p) implies encode_utf8(
                (#[trigger] self.entry_at(p))->0.hash@,
            ) == p by {
                if hs.is_prefix_of(p) {
                    assert(!self.trie.root.has_node(p));
                } else {
                    assert(self.entry_at(p) == old(self).entry_at(p));
                }
            }
        }
        r
    }

    /// The computed minimum prefix length of `hash` against the current
    /// tree; see [`crate::trie::spec_min_prefix`].
    fn min_prefix_len(&self, hash: &str) -> (r: usize)
        requires
            self.wf(),
            crate::MIN_PREFIX_LEN <= hash.spec_bytes().len(),
        ensures
            r == crate::trie::spec_min_prefix(self.trie.root, hash.spec_bytes()),
            crate::MIN_PREFIX_LEN <= r <= hash.spec_bytes().len(),
    {
        self.trie.min_prefix_len(hash.as_bytes())
    }

    /// Stores `clipboard` under `hash`, which must not be shorter than
    /// [`crate::MIN_PREFIX_LEN`] bytes. Any entry already under `hash` is
    /// replaced (the caller removes it first to learn its abort sender); no
    /// other entry moves. Returns the minimum unique prefix length, computed
    /// against the table as it was before this insertion. The caller creates
    /// the abort channel, hands the send end in, and gives the receive end
    /// to the entry's expiry task; for the on-disk kind it writes the blob's
    /// file before calling.
    pub fn insert_clipboard(
        &mut self,
        hash: &str,
        clipboard: Clipboard,
        abort_tx: Sender<()>,
    ) -> (r: usize)
        requires
            old(self).wf(),
            crate::MIN_PREFIX_LEN <= hash.spec_bytes().len(),
        ensures
            final(self).wf(),
            r == crate::trie::spec_min_prefix(old(self).trie.root, hash.spec_bytes()),
            crate::MIN_PREFIX_LEN <= r <= hash.spec_bytes().len(),
            final(self).holds(hash.spec_bytes()),
            ({
                let v = final(self).entry_at(hash.spec_bytes())->0;
                &&& v.hash@ == hash@
                &&& clipboard.is_persist() ==> v.clipboard is None
                &&& !clipboard.is_persist() ==> (v.clipboard matches Some(c) && c.data()
                    == clipboard.data() && !c.is_persist())
            }),
            forall|p: Seq<u8>|
                p != hash.spec_bytes() ==> #[trigger] final(self).entry_at(p) == old(
                    self,
                ).entry_at(p),
            forall|p: Seq<u8>|
                #[trigger] final(self).trie.root.has_node(p) <==> (old(self).trie.root.has_node(p)
                    || p.is_prefix_of(hash.spec_bytes())),
    {
        let min_len = self.min_prefix_len(hash);
        let to_save = match clipboard {
            Clipboard::Mem(d) => Some(Clipboard::Mem(d)),
            Clipboard::Persist(_) => None,
        };
        let value = TrieValue { hash: hash.to_owned(), clipboard: to_save, abort_tx };
        self.trie.insert(hash.as_bytes(), value);
        proof {
            let hs = hash.spec_bytes();
            assert(self.holds(hs));
            assert forall|p: Seq<u8>| self.holds(p) implies encode_utf8(
                (#[trigger] self.entry_at(p))->0.hash@,
            ) == p by {
                if p != hs {
                    assert(self.entry_at(p) == old(self).entry_at(p));
                }
            }
        }
        min_len
    }

    /// Looks an entry up by a prefix of its hash. Succeeds exactly when one
    /// entry's hash extends `frag`, and then describes that entry: the blob
    /// itself when it is in memory, otherwise the full hash of its file.
    pub fn get_clipboard_frag(&self, frag: &str) -> (r: Option<Found>)
        requires
            self.wf(),
        ensures
            r is Some <==> ((exists|p: Seq<u8>| self.holds_under(frag.spec_bytes(), p)) && (forall|
                p1: Seq<u8>,
                p2: Seq<u8>,
            |
                (self.holds_under(frag.spec_bytes(), p1) && self.holds_under(
                    frag.spec_bytes(),
                    p2,
                )) ==> p1 == p2)),
            r matches Some(f) ==> forall|p: Seq<u8>|
                #[trigger] self.holds_under(frag.spec_bytes(), p) ==> {
                    let v = self.entry_at(p)->0;
                    match f {
                        Found::Mem(c) => v.clipboard matches Some(c0) && c.data() == c0.data()
                            && c.is_persist() == c0.is_persist(),
                        Found::Persist(h) => v.clipboard is None && h@ == v.hash@,
                    }
                },
    {
        let fb = frag.as_bytes();
        let ghost fs = frag.spec_bytes();
        match self.trie.search_child(fb) {
            None => {
                proof {
                    assert forall|p: Seq<u8>| !self.holds_under(fs, p) by {
                        if self.holds(p) && fs.is_prefix_of(p) {
                            self.trie.root.lemma_has_node_prefix(p, fs);
                        }
                    }
                }
                None
            },
            Some(node) => {
                proof {
                    self.lemma_subtree_entries(fs, *node);
                }
                let children = node.all_children();
                if children.len() != 1 {
                    proof {
                        node.lemma_vv_parallel();
                        node.lemma_vp_count();
                        if children@.len() == 0 {
                            assert forall|p: Seq<u8>| !self.holds_under(fs, p) by {}
                        } else {
                            let q1 = node.valued_paths()[0];
                            let q2 = node.valued_paths()[1];
                            node.lemma_vp_distinct();
                            node.lemma_vp_mem(q1);
                            node.lemma_vp_mem(q2);
                            assert(node.valued_paths().contains(q1) && node.valued_paths().contains(
                                q2,
                            ));
                            assert(self.holds_under(fs, fs.add(q1)) && self.holds_under(
                                fs,
                                fs.add(q2),
                            ));
                            assert(fs.add(q1) != fs.add(q2)) by {
                                assert(fs.add(q1).skip(fs.len() as int) =~= q1);
                                assert(fs.add(q2).skip(fs.len() as int) =~= q2);
                            }
                        }
                    }
                    None
                } else {
                    let v: &TrieValue = children[0];
                    proof {
                        node.lemma_vv_parallel();
                        node.lemma_vp_count();
                        let q0 = node.valued_paths()[0];
                        assert(node.valued(q0));
                        assert(self.holds_under(fs, fs.add(q0)));
                        assert(*v == node.value_at(q0)->0);
                        assert forall|p1: Seq<u8>, p2: Seq<u8>|
                            (self.holds_under(fs, p1) && self.holds_under(fs, p2)) implies p1
                            == p2 by {
                            assert(fs.add(p1.skip(fs.len() as int)) =~= p1);
                            assert(fs.add(p2.skip(fs.len() as int)) =~= p2);
                            assert(node.valued(p1.skip(fs.len() as int)));
                            assert(node.valued(p2.skip(fs.len() as int)));
                        }
                        assert forall|p: Seq<u8>| #[trigger] self.holds_under(fs, p) implies
                            self.entry_at(p) == Some(*v) by {
                            assert(fs.add(p.skip(fs.len() as int)) =~= p);
                            assert(node.valued(p.skip(fs.len() as int)));
                            assert(p.skip(fs.len() as int) == q0);
                        }
                    }
                    match &v.clipboard {
                        Some(c) => Some(Found::Mem(c.duplicate())),
                        None => Some(Found::Persist(v.hash.clone())),
                    }
                }
            },
        }
    }

    /// Entries below the node at `f` are exactly the table's entries whose
    /// path extends `f`.
    proof fn lemma_subtree_entries(self, f: Seq<u8>, node: TrieNode<TrieValue>)
        requires
            self.wf(),
            self.trie.root.spec_child(f) == Some(node),
        ensures
            forall|q: Seq<u8>| #[trigger] node.value_at(q) == self.entry_at(f.add(q)),
            forall|p: Seq<u8>|
                #[trigger] self.holds_under(f, p) ==> node.valued(p.skip(f.len() as int))
                    && f.add(p.skip(f.len() as int)) =~= p,
    {
        assert forall|q: Seq<u8>| #[trigger] node.value_at(q) == self.entry_at(f.add(q)) by {
            self.trie.root.lemma_spec_child_concat(f, q);
        }
        assert forall|p: Seq<u8>| #[trigger] self.holds_under(f, p) implies node.valued(
            p.skip(f.len() as int),
        ) && f.add(p.skip(f.len() as int)) =~= p by {
            assert(f.add(p.skip(f.len() as int)) =~= p);
            self.trie.root.lemma_spec_child_concat(f, p.skip(f.len() as int));
        }
    }

    /// Looks an entry up by its full hash alone: unlike
    /// [`TrieTracker::get_clipboard_frag`] it ignores entries strictly below
    /// `hash` and answers from the entry sitting exactly there.
    pub fn get_clipboard(&self, hash: &str) -> (r: Option<Found>)
        requires
            self.wf(),
        ensures
            match r {
                None => !self.holds(hash.spec_bytes()),
                Some(f) => self.holds(hash.spec_bytes()) && {
                    let v = self.entry_at(hash.spec_bytes())->0;
                    match f {
                        Found::Mem(c) => v.clipboard matches Some(c0) && c.data() == c0.data()
                            && c.is_persist() == c0.is_persist(),
                        Found::Persist(h) => v.clipboard is None && h@ == v.hash@,
                    }
                },
            },
    {
        match self.trie.search_child(hash.as_bytes()) {
            None => None,
            Some(node) => match &node.value {
                None => None,
                Some(v) => match &v.clipboard {
                    Some(c) => Some(Found::Mem(c.duplicate())),
                    None => Some(Found::Persist(v.hash.clone())),
                },
            },
        }
    }

    /// Whether the table holds no entry at all.
    pub fn is_empty(&self) -> (r: bool)
        requires
            self.wf(),
        ensures
            r <==> (forall|p: Seq<u8>| !self.holds(p)),
    {
        let all = self.trie.all_children();
        proof {
            self.trie.root.lemma_vv_parallel();
            self.trie.root.lemma_vp_count();
            if all@.len() == 0 {
                assert forall|p: Seq<u8>| !#[trigger] self.holds(p) by {
                    assert(!self.trie.root.valued(p));
                }
            } else {
                let q0 = self.trie.root.valued_paths()[0];
                assert(self.trie.root.valued(q0)) by {
                    self.trie.root.lemma_vp_mem(q0);
                    assert(self.trie.root.valued_paths().contains(q0));
                }
                assert(self.holds(q0));
            }
        }
        all.len() == 0
    }

    /// Whether `frag` already pins an entry down: true exactly when one
    /// entry's hash extends it.
    pub fn is_shortest_ref(&self, frag: &str) -> (r: bool)
        requires
            self.wf(),
        ensures
            r <==> ((exists|p: Seq<u8>| self.holds_under(frag.spec_bytes(), p)) && (forall|
                p1: Seq<u8>,
                p2: Seq<u8>,
            |
                (self.holds_under(frag.spec_bytes(), p1) && self.holds_under(
                    frag.spec_bytes(),
                    p2,
                )) ==> p1 == p2)),
    {
        let ghost fs = frag.spec_bytes();
        match self.trie.predict(frag.as_bytes()) {
            None => {
                proof {
                    assert forall|p: Seq<u8>| !self.holds_under(fs, p) by {
                        if self.holds(p) && fs.is_prefix_of(p) {
                            self.trie.root.lemma_has_node_prefix(p, fs);
                        }
                    }
                }
                false
            },
            Some(targets) => {
                proof {
                    let node = self.trie.root.spec_child(fs)->0;
                    self.trie.root.lemma_spec_child_wf(fs);
                    self.lemma_subtree_entries(fs, node);
                    node.lemma_vv_parallel();
                    node.lemma_vp_count();
                    if targets@.len() == 1 {
                        let q0 = node.valued_paths()[0];
                        assert(node.valued(q0));
                        assert(self.holds_under(fs, fs.add(q0)));
                        assert forall|p1: Seq<u8>, p2: Seq<u8>|
                            (self.holds_under(fs, p1) && self.holds_under(fs, p2)) implies p1
                            == p2 by {
                            assert(node.valued(p1.skip(fs.len() as int)));
                            assert(node.valued(p2.skip(fs.len() as int)));
                            assert(p1.skip(fs.len() as int) == q0);
                            assert(p2.skip(fs.len() as int) == q0);
                            assert(fs.add(p1.skip(fs.len() as int)) =~= p1);
                            assert(fs.add(p2.skip(fs.len() as int)) =~= p2);
                        }
                    } else if targets@.len() == 0 {
                        assert forall|p: Seq<u8>| !self.holds_under(fs, p) by {}
                    } else {
                        let q1 = node.valued_paths()[0];
                        let q2 = node.valued_paths()[1];
                        node.lemma_vp_distinct();
                        node.lemma_vp_mem(q1);
                        node.lemma_vp_mem(q2);
                        assert(node.valued_paths().contains(q1) && node.valued_paths().contains(
                            q2,
                        ));
                        assert(self.holds_under(fs, fs.add(q1)) && self.holds_under(
                            fs,
                            fs.add(q2),
                        ));
                        assert(fs.add(q1) != fs.add(q2)) by {
                            assert(fs.add(q1).skip(fs.len() as int) =~= q1);
                            assert(fs.add(q2).skip(fs.len() as int) =~= q2);
                        }
                    }
                }
                targets.len() == 1
            },
        }
    }
}

} // verus!
