//! Laws of the entry table, stated against the spec functions that the
//! table's contracts use.
//!
//! `TrieTracker::get_clipboard_frag` promises a hit exactly when one entry's
//! hash extends the given fragment ([`TrieTracker::holds_under`] has one
//! witness), and that the hit describes that entry. The laws below say when
//! that is the case.

use crate::tracker::TrieTracker;
use vstd::prelude::*;
use vstd::seq_lib::*;

verus! {

/// Law: a stored hash resolves by itself. When `h` is stored and no other
/// stored hash extends `h` — hashes of uniform length never extend one
/// another — then `h` is the one entry a lookup by `h` chooses between, so
/// `get_clipboard_frag(h)` returns `h`'s own entry.
/// [`lemma_distinct_stores_resolve`] builds on this for a whole run of
/// stores.
pub proof fn lemma_full_hash_resolves(t: TrieTracker, h: Seq<u8>)
    requires
        t.wf(),
        t.holds(h),
        forall|p: Seq<u8>| t.holds(p) && h.is_prefix_of(p) ==> p == h,
    ensures
        t.holds_under(h, h),
        forall|p1: Seq<u8>, p2: Seq<u8>|
            (t.holds_under(h, p1) && t.holds_under(h, p2)) ==> p1 == p2,
{
    assert(h.is_prefix_of(h)) by {
        assert(h.subrange(0, h.len() as int) =~= h);
    }
}

/// Law: an unambiguous prefix resolves to its one completion. When `h` is
/// stored, `f` is a prefix of `h`, and `h` is the only stored hash with
/// prefix `f`, a lookup by `f` chooses between exactly one entry, `h`'s, so
/// `get_clipboard_frag(f)` returns `h`'s entry; and by the same contract the
/// lookup is absent whenever the witness is not unique.
pub proof fn lemma_unique_prefix_resolves(t: TrieTracker, f: Seq<u8>, h: Seq<u8>)
    requires
        t.wf(),
        t.holds(h),
        f.is_prefix_of(h),
        forall|p: Seq<u8>| t.holds(p) && f.is_prefix_of(p) ==> p == h,
    ensures
        t.holds_under(f, h),
        forall|p1: Seq<u8>, p2: Seq<u8>|
            (t.holds_under(f, p1) && t.holds_under(f, p2)) ==> p1 == p2,
{
}

/// Law: the reported minimum prefix is unambiguous right after its store.
/// Let `k` be the minimum prefix length that `insert_clipboard` returns for
/// `h` against the table `pre` in which every stored hash has `h`'s length,
/// and let `post` be the table with `h`'s entry added and no other entry
/// changed, as that call leaves it. Then a lookup by `h.take(k)` chooses
/// between exactly one entry, `h`'s own.
pub proof fn lemma_min_prefix_unambiguous(pre: TrieTracker, post: TrieTracker, h: Seq<u8>, k: int)
    requires
        pre.wf(),
        post.wf(),
        crate::MIN_PREFIX_LEN as int <= h.len(),
        forall|p: Seq<u8>| pre.holds(p) ==> p.len() == h.len(),
        k == crate::trie::spec_min_prefix(pre.trie.root, h),
        post.holds(h),
        forall|p: Seq<u8>| p != h ==> #[trigger] post.entry_at(p) == pre.entry_at(p),
    ensures
        crate::MIN_PREFIX_LEN as int <= k <= h.len(),
        post.holds_under(h.take(k), h),
        forall|p1: Seq<u8>, p2: Seq<u8>|
            (post.holds_under(h.take(k), p1) && post.holds_under(h.take(k), p2)) ==> p1 == p2,
{
    let root = pre.trie.root;
    crate::trie::lemma_min_prefix_from(root, h, crate::MIN_PREFIX_LEN as int);
    let f = h.take(k);
    assert(f.is_prefix_of(h)) by {
        assert(f =~= h.subrange(0, k));
    }
    assert(post.holds_under(f, h));
    if k < h.len() {
        assert(!root.has_node(f));
    }
    assert forall|p: Seq<u8>| post.holds_under(f, p) implies p == h by {
        if p != h {
            assert(pre.holds(p));
            assert(p.len() == h.len());
            if k < h.len() {
                // a node would sit on every prefix of a stored hash
                assert(root.has_node(p)) by {
                    assert(pre.trie.root.value_at(p) is Some);
                }
                root.lemma_has_node_prefix(p, f);
            } else {
                // the fragment is the whole of `h`, and `p` has `h`'s length
                assert(f =~= h);
                assert(p =~= h);
            }
        }
    }
}

/// One store of `item` — a hash, whether it is persisted, and its bytes —
/// as the contract of `TrieTracker::insert_clipboard` leaves the table: the
/// hash's entry holds the blob (in the table for the in-memory kind, only
/// the marker otherwise) and every other entry is untouched.
pub open spec fn stored_step(
    pre: TrieTracker,
    item: (Seq<u8>, bool, Seq<u8>),
    post: TrieTracker,
) -> bool {
    &&& post.holds(item.0)
    &&& ({
        let v = post.entry_at(item.0)->0;
        &&& item.1 ==> v.clipboard is None
        &&& !item.1 ==> (v.clipboard matches Some(c) && c.data() == item.2 && !c.is_persist())
    })
    &&& forall|p: Seq<u8>| p != item.0 ==> #[trigger] post.entry_at(p) == pre.entry_at(p)
}

/// The table went from `t0` to `t1` through the stores of `items`, in order.
pub open spec fn stored_all(
    t0: TrieTracker,
    items: Seq<(Seq<u8>, bool, Seq<u8>)>,
    t1: TrieTracker,
) -> bool
    decreases items.len(),
{
    if items.len() == 0 {
        t1 == t0
    } else {
        exists|mid: TrieTracker|
            #[trigger] stored_step(t0, items[0], mid) && stored_all(
                mid,
                items.subrange(1, items.len() as int),
                t1,
            )
    }
}

/// What a run of stores with distinct hashes leaves behind: nothing is
/// stored beyond the starting table's entries and the stored hashes; each
/// stored hash holds its own blob; every other path is untouched.
proof fn lemma_stored_all_effect(
    t0: TrieTracker,
    items: Seq<(Seq<u8>, bool, Seq<u8>)>,
    t1: TrieTracker,
)
    requires
        stored_all(t0, items, t1),
        forall|a: int, b: int|
            0 <= a < b < items.len() ==> (#[trigger] items[a]).0 != (#[trigger] items[b]).0,
    ensures
        forall|p: Seq<u8>|
            #[trigger] t1.holds(p) ==> (t0.holds(p) || exists|a: int|
                0 <= a < items.len() && (#[trigger] items[a]).0 == p),
        forall|a: int|
            0 <= a < items.len() ==> {
                let v = t1.entry_at((#[trigger] items[a]).0)->0;
                &&& t1.holds(items[a].0)
                &&& items[a].1 ==> v.clipboard is None
                &&& !items[a].1 ==> (v.clipboard matches Some(c) && c.data() == items[a].2
                    && !c.is_persist())
            },
        forall|p: Seq<u8>|
            (forall|a: int| 0 <= a < items.len() ==> (#[trigger] items[a]).0 != p)
                ==> #[trigger] t1.entry_at(p) == t0.entry_at(p),
    decreases items.len(),
{
    if items.len() == 0 {
    } else {
        let rest = items.subrange(1, items.len() as int);
        let mid = choose|mid: TrieTracker|
            #[trigger] stored_step(t0, items[0], mid) && stored_all(mid, rest, t1);
        assert forall|a: int, b: int| 0 <= a < b < rest.len() implies (#[trigger] rest[a]).0 != (
        #[trigger] rest[b]).0 by {
            assert(rest[a] == items[a + 1] && rest[b] == items[b + 1]);
            assert(items[a + 1].0 != items[b + 1].0);
        }
        lemma_stored_all_effect(mid, rest, t1);
        // the head's hash is none of the tail's, so the tail leaves its entry be
        assert(t1.entry_at(items[0].0) == mid.entry_at(items[0].0)) by {
            assert forall|a: int| 0 <= a < rest.len() implies (#[trigger] rest[a]).0 != items[0].0
                by {
                assert(rest[a] == items[a + 1]);
                assert(items[0].0 != items[a + 1].0);
            }
        }
        assert forall|p: Seq<u8>| #[trigger] t1.holds(p) implies (t0.holds(p) || exists|a: int|
            0 <= a < items.len() && (#[trigger] items[a]).0 == p) by {
            if exists|a: int| 0 <= a < rest.len() && (#[trigger] rest[a]).0 == p {
                let a = choose|a: int| 0 <= a < rest.len() && (#[trigger] rest[a]).0 == p;
                assert(items[a + 1].0 == p);
            } else {
                assert(t1.entry_at(p) == mid.entry_at(p));
                assert(mid.holds(p));
                if p != items[0].0 {
                    assert(mid.entry_at(p) == t0.entry_at(p));
                } else {
                    assert(items[0].0 == p);
                }
            }
        }
        assert forall|a: int|
            0 <= a < items.len() implies {
                let v = t1.entry_at((#[trigger] items[a]).0)->0;
                &&& t1.holds(items[a].0)
                &&& items[a].1 ==> v.clipboard is None
                &&& !items[a].1 ==> (v.clipboard matches Some(c) && c.data() == items[a].2
                    && !c.is_persist())
            } by {
            if a == 0 {
                assert(t1.entry_at(items[0].0) == mid.entry_at(items[0].0));
            } else {
                assert(rest[a - 1] == items[a]);
            }
        }
        assert forall|p: Seq<u8>|
            (forall|a: int| 0 <= a < items.len() ==> (#[trigger] items[a]).0 != p)
                implies #[trigger] t1.entry_at(p) == t0.entry_at(p) by {
            assert forall|a: int| 0 <= a < rest.len() implies (#[trigger] rest[a]).0 != p by {
                assert(rest[a] == items[a + 1]);
                assert(items[a + 1].0 != p);
            }
            assert(t1.entry_at(p) == mid.entry_at(p));
            assert(items[0].0 != p);
        }
    }
}

/// Law: any number of stores with distinct hashes of one length, on a table
/// that starts empty, leave every one of them resolvable. After the stores
/// of `items` — each step as the contract of `insert_clipboard` describes —
/// each hash holds exactly the blob stored under it, and a lookup by the
/// full hash chooses between that entry alone, so `get_clipboard_frag`
/// returns it.
pub proof fn lemma_distinct_stores_resolve(
    t0: TrieTracker,
    items: Seq<(Seq<u8>, bool, Seq<u8>)>,
    t1: TrieTracker,
    i: int,
)
    requires
        t1.wf(),
        forall|p: Seq<u8>| !t0.holds(p),
        stored_all(t0, items, t1),
        forall|a: int, b: int|
            0 <= a < b < items.len() ==> (#[trigger] items[a]).0 != (#[trigger] items[b]).0,
        forall|a: int| 0 <= a < items.len() ==> (#[trigger] items[a]).0.len() == items[0].0.len(),
        0 <= i < items.len(),
    ensures
        t1.holds_under(items[i].0, items[i].0),
        forall|p1: Seq<u8>, p2: Seq<u8>|
            (t1.holds_under(items[i].0, p1) && t1.holds_under(items[i].0, p2)) ==> p1 == p2,
        ({
            let v = t1.entry_at(items[i].0)->0;
            &&& items[i].1 ==> v.clipboard is None
            &&& !items[i].1 ==> (v.clipboard matches Some(c) && c.data() == items[i].2
                && !c.is_persist())
        }),
{
    lemma_stored_all_effect(t0, items, t1);
    let h = items[i].0;
    assert(t1.holds(h));
    assert forall|p: Seq<u8>| t1.holds(p) && h.is_prefix_of(p) implies p == h by {
        let a = choose|a: int| 0 <= a < items.len() && (#[trigger] items[a]).0 == p;
        assert(p.len() == h.len());
        assert(p =~= h);
    }
    lemma_full_hash_resolves(t1, h);
}

/// Law: a removed hash stays gone from lookups. When no stored hash extends
/// `h` — as `TrieTracker::remove(h)` leaves the table, and the expiry of
/// `h`'s entry removes it just so — a lookup by `h` has no entry to choose,
/// so `get_clipboard_frag(h)` and `get_clipboard(h)` are absent. The
/// companion file named by `h` is the remover's to delete; the table holds
/// no bytes for it.
pub proof fn lemma_removed_absent(t: TrieTracker, h: Seq<u8>)
    requires
        forall|p: Seq<u8>| h.is_prefix_of(p) ==> !t.holds(p),
    ensures
        forall|p: Seq<u8>| !t.holds_under(h, p),
        !t.holds(h),
{
    assert(h.is_prefix_of(h)) by {
        assert(h.subrange(0, h.len() as int) =~= h);
    }
}

} // verus!
