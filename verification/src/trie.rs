//! A trie over byte strings.
//!
//! Each node maps single bytes to child nodes and optionally carries a value;
//! a value sits on the terminal node of every inserted path. The
//! mathematical model of a node is the partial function from byte sequences
//! to values given by [`TrieNode::value_at`], together with the set of paths
//! that lead to a node at all ([`TrieNode::has_node`]).

use vstd::prelude::*;
use vstd::seq_lib::*;
use vstd::slice::slice_index_get;
use vstd::slice::slice_subrange;

verus! {

/// For non-empty sequences with equal heads, equality and the prefix order
/// both reduce to the tails.
proof fn lemma_seq_head_step(q: Seq<u8>, p: Seq<u8>)
    requires
        q.len() > 0,
        p.len() > 0,
        q[0] == p[0],
    ensures
        (q == p) <==> (q.skip(1) == p.skip(1)),
        q.is_prefix_of(p) <==> q.skip(1).is_prefix_of(p.skip(1)),
        p.is_prefix_of(q) <==> p.skip(1).is_prefix_of(q.skip(1)),
{
    lemma_seq_head_step_one(q, p);
    lemma_seq_head_step_one(p, q);
    if q.skip(1) == p.skip(1) {
        assert(q =~= p);
    }
}

/// One direction of [`lemma_seq_head_step`]: the prefix order reduces to tails.
proof fn lemma_seq_head_step_one(q: Seq<u8>, p: Seq<u8>)
    requires
        q.len() > 0,
        p.len() > 0,
        q[0] == p[0],
    ensures
        q.is_prefix_of(p) <==> q.skip(1).is_prefix_of(p.skip(1)),
{
    if q.skip(1).is_prefix_of(p.skip(1)) {
        assert(q.skip(1) =~= p.skip(1).subrange(0, q.len() - 1));
        assert forall|i: int| 0 <= i < q.len() implies q[i] == #[trigger] p.subrange(
            0,
            q.len() as int,
        )[i] by {
            if i >= 1 {
                assert(q[i] == q.skip(1)[i - 1]);
                assert(p.skip(1).subrange(0, q.len() - 1)[i - 1] == p[i]);
            }
        }
        assert(q =~= p.subrange(0, q.len() as int));
    }
    if q.is_prefix_of(p) {
        assert(q =~= p.subrange(0, q.len() as int));
        assert forall|i: int| 0 <= i < q.len() - 1 implies q.skip(1)[i] == #[trigger] p.skip(
            1,
        ).subrange(0, q.len() - 1)[i] by {
            assert(q.skip(1)[i] == q[i + 1]);
            assert(p.skip(1).subrange(0, q.len() - 1)[i] == p[i + 1]);
        }
        assert(q.skip(1) =~= p.skip(1).subrange(0, q.len() - 1));
    }
}

/// A non-empty sequence with a head different from `p`'s is no prefix of `p`.
proof fn lemma_seq_head_differs(q: Seq<u8>, p: Seq<u8>)
    requires
        q.len() > 0,
        p.len() == 0 || q[0] != p[0],
    ensures
        !q.is_prefix_of(p),
        q != p,
{
    if q.is_prefix_of(p) {
        assert(q[0] == p[0]);
    }
}

/// How [`TrieNode::search`] interprets a path that leads to a node.
pub enum SearchMode {
    /// The node itself must carry a value.
    Exact,
    /// Reaching a node is enough.
    Prefix,
}

/// One trie node: a sparse map from bytes to children, plus an optional value.
pub struct TrieNode<V> {
    /// The children, keyed by the next path byte. Keys are distinct
    /// (see [`TrieNode::wf`]); order carries no meaning.
    pub children: Vec<(u8, TrieNode<V>)>,
    /// The value stored at the path that ends on this node, if any.
    pub value: Option<V>,
}

/// The first entry of `cs` whose key is `k`, if any.
pub open spec fn seq_key_find<V>(cs: Seq<(u8, TrieNode<V>)>, k: u8) -> Option<TrieNode<V>> {
    if exists|i: int| 0 <= i < cs.len() && cs[i].0 == k {
        let i = choose|i: int| 0 <= i < cs.len() && cs[i].0 == k;
        Some(cs[i].1)
    } else {
        None
    }
}

/// The keys of `cs` are pairwise distinct.
pub open spec fn seq_keys_distinct<V>(cs: Seq<(u8, TrieNode<V>)>) -> bool {
    forall|i: int, j: int|
        0 <= i < j < cs.len() ==> (#[trigger] cs[i]).0 != (#[trigger] cs[j]).0
}

/// With distinct keys, entry `i` is exactly what `seq_key_find` returns for its key.
proof fn lemma_seq_key_find_at<V>(cs: Seq<(u8, TrieNode<V>)>, i: int)
    requires
        seq_keys_distinct(cs),
        0 <= i < cs.len(),
    ensures
        seq_key_find(cs, cs[i].0) == Some(cs[i].1),
{
    let k = cs[i].0;
    assert(exists|j: int| 0 <= j < cs.len() && cs[j].0 == k);
    let j = choose|j: int| 0 <= j < cs.len() && cs[j].0 == k;
    if i < j {
        assert(cs[i].0 != cs[j].0);
    } else if j < i {
        assert(cs[j].0 != cs[i].0);
    }
}

/// Appending an entry with a fresh key leaves lookups of other keys unchanged.
proof fn lemma_seq_key_find_push<V>(cs: Seq<(u8, TrieNode<V>)>, pair: (u8, TrieNode<V>), k: u8)
    requires
        seq_keys_distinct(cs),
        k != pair.0,
    ensures
        seq_key_find(cs.push(pair), k) == seq_key_find(cs, k),
{
    let cs2 = cs.push(pair);
    let n = cs.len() as int;
    if exists|i: int| 0 <= i < cs2.len() && cs2[i].0 == k {
        let i = choose|i: int| 0 <= i < cs2.len() && cs2[i].0 == k;
        assert(i < n && cs[i] == cs2[i]);
        assert(exists|j: int| 0 <= j < cs.len() && cs[j].0 == k);
        let j = choose|j: int| 0 <= j < cs.len() && cs[j].0 == k;
        if i < j {
            assert(cs[i].0 != cs[j].0);
        } else if j < i {
            assert(cs[j].0 != cs[i].0);
        }
        assert(seq_key_find(cs2, k) == Some(cs2[i].1));
        assert(seq_key_find(cs, k) == Some(cs[j].1));
    } else {
        if exists|i: int| 0 <= i < cs.len() && cs[i].0 == k {
            let i = choose|i: int| 0 <= i < cs.len() && cs[i].0 == k;
            assert(cs2[i].0 == k);
        }
    }
}

/// Replacing entry `i` by another entry with the same key changes only that
/// key's lookup.
proof fn lemma_seq_key_find_update<V>(
    cs: Seq<(u8, TrieNode<V>)>,
    i: int,
    pair: (u8, TrieNode<V>),
    k: u8,
)
    requires
        seq_keys_distinct(cs),
        0 <= i < cs.len(),
        cs[i].0 == pair.0,
    ensures
        seq_keys_distinct(cs.update(i, pair)),
        k == pair.0 ==> seq_key_find(cs.update(i, pair), k) == Some(pair.1),
        k != pair.0 ==> seq_key_find(cs.update(i, pair), k) == seq_key_find(cs, k),
{
    let cs2 = cs.update(i, pair);
    assert forall|a: int, b: int| 0 <= a < b < cs2.len() implies (#[trigger] cs2[a]).0 != (
    #[trigger] cs2[b]).0 by {
        assert(cs[a].0 != cs[b].0);
    }
    if k == pair.0 {
        lemma_seq_key_find_at(cs2, i);
    } else {
        if exists|j: int| 0 <= j < cs2.len() && cs2[j].0 == k {
            let j = choose|j: int| 0 <= j < cs2.len() && cs2[j].0 == k;
            assert(j != i);
            assert(cs[j].0 == k);
            lemma_seq_key_find_at(cs, j);
            lemma_seq_key_find_at(cs2, j);
        } else {
            if exists|j: int| 0 <= j < cs.len() && cs[j].0 == k {
                let j = choose|j: int| 0 <= j < cs.len() && cs[j].0 == k;
                assert(j != i);
                assert(cs2[j].0 == k);
            }
        }
    }
}

/// Removing entry `i` erases its key's lookup and keeps the others.
proof fn lemma_seq_key_find_remove<V>(cs: Seq<(u8, TrieNode<V>)>, i: int, k: u8)
    requires
        seq_keys_distinct(cs),
        0 <= i < cs.len(),
    ensures
        seq_keys_distinct(cs.remove(i)),
        k == cs[i].0 ==> seq_key_find(cs.remove(i), k) is None,
        k != cs[i].0 ==> seq_key_find(cs.remove(i), k) == seq_key_find(cs, k),
{
    let cs2 = cs.remove(i);
    assert forall|a: int, b: int| 0 <= a < b < cs2.len() implies (#[trigger] cs2[a]).0 != (
    #[trigger] cs2[b]).0 by {
        let a0 = if a < i { a } else { a + 1 };
        let b0 = if b < i { b } else { b + 1 };
        assert(cs2[a] == cs[a0] && cs2[b] == cs[b0]);
        assert(cs[a0].0 != cs[b0].0);
    }
    if k == cs[i].0 {
        if exists|j: int| 0 <= j < cs2.len() && cs2[j].0 == k {
            let j = choose|j: int| 0 <= j < cs2.len() && cs2[j].0 == k;
            let j0 = if j < i { j } else { j + 1 };
            assert(cs2[j] == cs[j0]);
            if j0 < i {
                assert(cs[j0].0 != cs[i].0);
            } else {
                assert(cs[i].0 != cs[j0].0);
            }
        }
    } else {
        if exists|j: int| 0 <= j < cs2.len() && cs2[j].0 == k {
            let j = choose|j: int| 0 <= j < cs2.len() && cs2[j].0 == k;
            let j0 = if j < i { j } else { j + 1 };
            assert(cs2[j] == cs[j0]);
            lemma_seq_key_find_at(cs, j0);
            lemma_seq_key_find_at(cs2, j);
        } else {
            if exists|j: int| 0 <= j < cs.len() && cs[j].0 == k {
                let j = choose|j: int| 0 <= j < cs.len() && cs[j].0 == k;
                assert(j != i);
                let j2 = if j < i { j } else { j - 1 };
                assert(cs2[j2] == cs[j]);
            }
        }
    }
}

impl<V> TrieNode<V> {
    /// The child of `self` reached by one step along byte `k`.
    pub open spec fn spec_direct_child(self, k: u8) -> Option<TrieNode<V>> {
        seq_key_find(self.children@, k)
    }

    /// The descendant of `self` reached by walking `path`, if every step exists.
    pub open spec fn spec_child(self, path: Seq<u8>) -> Option<TrieNode<V>>
        decreases path.len(),
    {
        if path.len() == 0 {
            Some(self)
        } else {
            match self.spec_direct_child(path[0]) {
                None => None,
                Some(c) => c.spec_child(path.skip(1)),
            }
        }
    }

    /// Whether walking `path` from `self` reaches a node.
    pub open spec fn has_node(self, path: Seq<u8>) -> bool {
        self.spec_child(path) is Some
    }

    /// The value stored at the end of `path`, if the node exists and carries one.
    pub open spec fn value_at(self, path: Seq<u8>) -> Option<V> {
        match self.spec_child(path) {
            None => None,
            Some(n) => n.value,
        }
    }

    /// Whether `path` ends on a node that carries a value.
    pub open spec fn valued(self, path: Seq<u8>) -> bool {
        self.value_at(path) is Some
    }

    /// Well-formed: at every node the child keys are distinct.
    pub open spec fn wf(self) -> bool
        decreases self,
    {
        &&& seq_keys_distinct(self.children@)
        &&& forall|i: int| 0 <= i < self.children@.len() ==> (#[trigger] self.children@[i]).1.wf()
    }

    /// Walking one more byte from the node at `p` steps to its direct child.
    pub proof fn lemma_spec_child_snoc(self, p: Seq<u8>, b: u8)
        ensures
            self.spec_child(p.push(b)) == match self.spec_child(p) {
                None => None::<TrieNode<V>>,
                Some(n) => n.spec_direct_child(b),
            },
        decreases p.len(),
    {
        let q = p.push(b);
        if p.len() == 0 {
            assert(q[0] == b);
            assert(q.skip(1) =~= Seq::<u8>::empty());
            if self.spec_direct_child(b) is Some {
                assert(self.spec_direct_child(b)->0.spec_child(q.skip(1)) == Some(
                    self.spec_direct_child(b)->0,
                ));
            }
        } else {
            assert(q[0] == p[0]);
            match self.spec_direct_child(p[0]) {
                None => {},
                Some(c) => {
                    assert(q.skip(1) =~= p.skip(1).push(b));
                    c.lemma_spec_child_snoc(p.skip(1), b);
                },
            }
        }
    }

    /// Walking `p` then `q` is walking their concatenation.
    pub proof fn lemma_spec_child_concat(self, p: Seq<u8>, q: Seq<u8>)
        ensures
            self.spec_child(p.add(q)) == match self.spec_child(p) {
                None => None::<TrieNode<V>>,
                Some(n) => n.spec_child(q),
            },
        decreases q.len(),
    {
        if q.len() == 0 {
            assert(p.add(q) =~= p);
            match self.spec_child(p) {
                None => {},
                Some(n) => {
                    assert(n.spec_child(q) == Some(n));
                },
            }
        } else {
            let p1 = p.push(q[0]);
            self.lemma_spec_child_snoc(p, q[0]);
            assert(p.add(q) =~= p1.add(q.skip(1)));
            self.lemma_spec_child_concat(p1, q.skip(1));
        }
    }

    /// If a node exists at `p`, a node exists at every prefix of `p`.
    pub proof fn lemma_has_node_prefix(self, p: Seq<u8>, q: Seq<u8>)
        requires
            self.has_node(p),
            q.is_prefix_of(p),
        ensures
            self.has_node(q),
        decreases p.len() - q.len(),
    {
        if q.len() < p.len() {
            let q1 = p.take(q.len() as int + 1);
            assert(q1 =~= q.push(p[q.len() as int]));
            assert(q1.is_prefix_of(p));
            self.lemma_has_node_prefix(p, q1);
            self.lemma_spec_child_snoc(q, p[q.len() as int]);
        } else {
            assert(q =~= p);
        }
    }

    /// A well-formed node's descendants are well-formed.
    /// A well-formed node's direct children are well-formed.
    pub proof fn lemma_wf_direct_child(self, k: u8)
        requires
            self.wf(),
            self.spec_direct_child(k) is Some,
        ensures
            self.spec_direct_child(k)->0.wf(),
    {
        let i = choose|i: int| 0 <= i < self.children@.len() && self.children@[i].0 == k;
        assert(self.children@[i].1.wf());
    }

    /// A well-formed node's descendants are well-formed.
    pub proof fn lemma_spec_child_wf(self, p: Seq<u8>)
        requires
            self.wf(),
            self.has_node(p),
        ensures
            self.spec_child(p)->0.wf(),
        decreases p.len(),
    {
        if p.len() > 0 {
            let c = self.spec_direct_child(p[0])->0;
            let i = choose|i: int| 0 <= i < self.children@.len() && self.children@[i].0 == p[0];
            assert(self.children@[i].1.wf());
            c.lemma_spec_child_wf(p.skip(1));
        }
    }

    /// A fresh node: no children, no value.
    pub fn new() -> (r: Self)
        ensures
            r.wf(),
            r.value is None,
            r.children@.len() == 0,
            forall|p: Seq<u8>| p.len() > 0 ==> !r.has_node(p),
            forall|p: Seq<u8>| r.value_at(p) is None,
    {
        let r = TrieNode { children: Vec::new(), value: None::<V> };
        proof {
            assert forall|p: Seq<u8>| p.len() > 0 implies !r.has_node(p) by {
                assert(r.spec_direct_child(p[0]) is None);
            }
            assert forall|p: Seq<u8>| r.value_at(p) is None by {
                if p.len() > 0 {
                    assert(r.spec_direct_child(p[0]) is None);
                }
            }
        }
        r
    }

    /// The position of `key` in the child vector, if present.
    fn get_child_index(&self, key: u8) -> (r: Option<usize>)
        requires
            seq_keys_distinct(self.children@),
        ensures
            match r {
                Some(i) => i < self.children@.len() && self.children@[i as int].0 == key
                    && self.spec_direct_child(key) == Some(self.children@[i as int].1),
                None => self.spec_direct_child(key) is None,
            },
    {
        let n = self.children.len();
        let mut i: usize = 0;
        while i < n
            invariant
                i <= n,
                n == self.children@.len(),
                seq_keys_distinct(self.children@),
                forall|j: int| 0 <= j < i ==> (#[trigger] self.children@[j]).0 != key,
            decreases n - i,
        {
            if self.children[i].0 == key {
                proof {
                    lemma_seq_key_find_at(self.children@, i as int);
                }
                return Some(i);
            }
            i = i + 1;
        }
        None
    }

    /// Adds `child` under `key` unless a child with that key already exists;
    /// an existing child is kept untouched.
    pub fn insert(&mut self, key: u8, child: Self)
        requires
            old(self).wf(),
            child.wf(),
        ensures
            final(self).wf(),
            old(self).spec_direct_child(key) is Some ==> *final(self) == *old(self),
            old(self).spec_direct_child(key) is None ==> {
                &&& final(self).value == old(self).value
                &&& final(self).spec_direct_child(key) == Some(child)
                &&& forall|k: u8|
                    k != key ==> final(self).spec_direct_child(k) == old(self).spec_direct_child(k)
            },
    {
        let idx = self.get_child_index(key);
        if idx.is_none() {
            self.children.push((key, child));
            proof {
                let cs0 = old(self).children@;
                let n = cs0.len() as int;
                assert(self.children@ =~= cs0.push((key, child)));
                assert forall|i: int, j: int| 0 <= i < j < self.children@.len() implies (
                #[trigger] self.children@[i]).0 != (#[trigger] self.children@[j]).0 by {
                    if j < n {
                        assert(cs0[i].0 != cs0[j].0);
                    } else {
                        assert(self.children@[i] == cs0[i]);
                        if cs0[i].0 == key {
                            lemma_seq_key_find_at(cs0, i);
                        }
                    }
                }
                assert forall|i: int| 0 <= i < self.children@.len() implies (
                #[trigger] self.children@[i]).1.wf() by {
                    if i < n {
                        assert(cs0[i].1.wf());
                    }
                }
                lemma_seq_key_find_at(self.children@, n);
                assert forall|k: u8| k != key implies self.spec_direct_child(k) == old(
                    self,
                ).spec_direct_child(k) by {
                    lemma_seq_key_find_push(cs0, (key, child), k);
                }
            }
        }
    }

    /// Walking a non-empty path first steps to the direct child of its head.
    pub proof fn lemma_step(self, q: Seq<u8>)
        requires
            q.len() > 0,
        ensures
            match self.spec_direct_child(q[0]) {
                None => self.value_at(q) is None && !self.has_node(q),
                Some(c) => self.value_at(q) == c.value_at(q.skip(1)) && (self.has_node(q)
                    <==> c.has_node(q.skip(1))),
            },
    {
    }

    /// Two nodes with the same value and the same child along `q`'s head
    /// agree on `q`.
    proof fn lemma_agree(n1: Self, n2: Self, q: Seq<u8>)
        requires
            q.len() == 0 ==> n1.value == n2.value,
            q.len() > 0 ==> n1.spec_direct_child(q[0]) == n2.spec_direct_child(q[0]),
        ensures
            n1.value_at(q) == n2.value_at(q),
            n1.has_node(q) == n2.has_node(q),
    {
        if q.len() > 0 {
            n1.lemma_step(q);
            n2.lemma_step(q);
        }
    }

    /// The direct child under `key`, if any.
    pub fn search_direct_child(&self, key: u8) -> (r: Option<&Self>)
        requires
            self.wf(),
        ensures
            match r {
                None => self.spec_direct_child(key) is None,
                Some(c) => self.spec_direct_child(key) == Some(*c),
            },
    {
        match self.get_child_index(key) {
            None => None,
            Some(i) => Some(&self.children[i].1),
        }
    }

    /// The descendant at `path`, if every step of the walk exists.
    pub fn search_child(&self, path: &[u8]) -> (r: Option<&Self>)
        requires
            self.wf(),
        ensures
            match r {
                None => !self.has_node(path@),
                Some(c) => self.spec_child(path@) == Some(*c) && c.wf(),
            },
    {
        let n = path.len();
        let mut curr: &Self = self;
        let mut i: usize = 0;
        while i < n
            invariant
                i <= n,
                n == path@.len(),
                self.spec_child(path@.take(i as int)) == Some(*curr),
                curr.wf(),
            decreases n - i,
        {
            let b = *slice_index_get(path, i);
            proof {
                self.lemma_spec_child_snoc(path@.take(i as int), b);
                assert(path@.take(i as int).push(b) =~= path@.take(i as int + 1));
            }
            match curr.get_child_index(b) {
                None => {
                    proof {
                        self.lemma_has_node_prefix_contra(path@, i as int);
                    }
                    return None;
                },
                Some(j) => {
                    proof {
                        let cs = curr.children@;
                        assert(cs[j as int].1.wf());
                    }
                    curr = &curr.children[j].1;
                },
            }
            i = i + 1;
        }
        proof {
            assert(path@.take(n as int) =~= path@);
        }
        Some(curr)
    }

    /// If no node sits at `p.take(i + 1)`, none sits at `p`.
    proof fn lemma_has_node_prefix_contra(self, p: Seq<u8>, i: int)
        requires
            0 <= i < p.len(),
            !self.has_node(p.take(i + 1)),
        ensures
            !self.has_node(p),
    {
        if self.has_node(p) {
            self.lemma_has_node_prefix(p, p.take(i + 1));
        }
    }

    /// Whether `path` leads to a node (`Prefix`) or to a stored value (`Exact`).
    pub fn search(&self, mode: SearchMode, path: &[u8]) -> (r: bool)
        requires
            self.wf(),
        ensures
            r == match mode {
                SearchMode::Prefix => self.has_node(path@),
                SearchMode::Exact => self.valued(path@),
            },
    {
        match self.search_child(path) {
            None => false,
            Some(child) => match mode {
                SearchMode::Prefix => true,
                SearchMode::Exact => child.value.is_some(),
            },
        }
    }

    /// Stores `value` at the end of `path`, creating interior nodes as
    /// needed; a value already stored at `path` is replaced, and no other
    /// stored value moves.
    pub fn insert_path(&mut self, path: &[u8], value: V)
        requires
            old(self).wf(),
        ensures
            final(self).wf(),
            forall|q: Seq<u8>|
                #[trigger] final(self).value_at(q) == if q == path@ {
                    Some(value)
                } else {
                    old(self).value_at(q)
                },
            forall|q: Seq<u8>|
                #[trigger] final(self).has_node(q) <==> (old(self).has_node(q) || q.is_prefix_of(
                    path@,
                )),
        decreases path@.len(),
    {
        if path.len() == 0 {
            self.value = Some(value);
            proof {
                assert forall|q: Seq<u8>|
                    #[trigger] self.value_at(q) == if q == path@ {
                        Some(value)
                    } else {
                        old(self).value_at(q)
                    } by {
                    if q.len() == 0 {
                        assert(q =~= path@);
                    } else {
                        lemma_seq_head_differs(q, path@);
                        Self::lemma_agree(*self, *old(self), q);
                    }
                }
                assert forall|q: Seq<u8>|
                    #[trigger] self.has_node(q) <==> (old(self).has_node(q) || q.is_prefix_of(
                        path@,
                    )) by {
                    if q.len() == 0 {
                        assert(q =~= path@);
                    } else {
                        lemma_seq_head_differs(q, path@);
                        Self::lemma_agree(*self, *old(self), q);
                    }
                }
            }
        } else {
            let k = *slice_index_get(path, 0);
            let rest = slice_subrange(path, 1, path.len());
            proof {
                assert(rest@ =~= path@.skip(1));
            }
            let idx = self.ensure_child(k);
            let ghost mid = *self;
            let mut pair = self.children.remove(idx);
            let ghost c_mid = pair.1;
            proof {
                assert(c_mid.wf()) by {
                    assert(mid.children@[idx as int].1.wf());
                }
            }
            pair.1.insert_path(rest, value);
            let ghost c_new = pair.1;
            self.children.insert(idx, pair);
            proof {
                assert(self.children@ =~= mid.children@.update(idx as int, (k, c_new)));
                assert forall|k2: u8| true implies #[trigger] self.spec_direct_child(k2) == if k2
                    == k {
                    Some(c_new)
                } else {
                    mid.spec_direct_child(k2)
                } by {
                    lemma_seq_key_find_update(mid.children@, idx as int, (k, c_new), k2);
                }
                assert(self.wf()) by {
                    assert(seq_keys_distinct(self.children@)) by {
                        lemma_seq_key_find_update(mid.children@, idx as int, (k, c_new), k);
                    }
                    assert forall|i: int| 0 <= i < self.children@.len() implies (
                    #[trigger] self.children@[i]).1.wf() by {
                        if i != idx as int {
                            assert(self.children@[i] == mid.children@[i]);
                            assert(mid.children@[i].1.wf());
                        }
                    }
                }
                assert(self.value == old(self).value);
                assert forall|q: Seq<u8>|
                    #[trigger] self.value_at(q) == if q == path@ {
                        Some(value)
                    } else {
                        old(self).value_at(q)
                    } by {
                    if q.len() == 0 {
                        lemma_seq_head_differs(path@, q);
                        assert(self.value_at(q) == self.value);
                        assert(old(self).value_at(q) == old(self).value);
                    } else if q[0] != k {
                        lemma_seq_head_differs(q, path@);
                        Self::lemma_agree(*self, *old(self), q);
                    } else {
                        self.lemma_step(q);
                        lemma_seq_head_step(q, path@);
                        assert(self.value_at(q) == c_new.value_at(q.skip(1)));
                        assert(seq![k].add(q.skip(1)) =~= q);
                        if q == path@ {
                            assert(q.skip(1) == rest@);
                        } else {
                            assert(q.skip(1) != rest@);
                            assert(c_new.value_at(q.skip(1)) == c_mid.value_at(q.skip(1)));
                            assert(c_mid.value_at(q.skip(1)) == old(self).value_at(q));
                        }
                    }
                }
                assert forall|q: Seq<u8>|
                    #[trigger] self.has_node(q) <==> (old(self).has_node(q) || q.is_prefix_of(
                        path@,
                    )) by {
                    if q.len() == 0 {
                        assert(q.is_prefix_of(path@)) by {
                            assert(q =~= path@.take(0));
                        }
                    } else if q[0] != k {
                        lemma_seq_head_differs(q, path@);
                        Self::lemma_agree(*self, *old(self), q);
                    } else {
                        self.lemma_step(q);
                        lemma_seq_head_step(q, path@);
                        assert(self.has_node(q) <==> c_new.has_node(q.skip(1)));
                        assert(seq![k].add(q.skip(1)) =~= q);
                        assert(c_new.has_node(q.skip(1)) <==> (c_mid.has_node(q.skip(1)) || q.skip(
                            1,
                        ).is_prefix_of(rest@)));
                        assert(c_mid.has_node(q.skip(1)) <==> (old(self).has_node(q) || q.skip(
                            1,
                        ).len() == 0));
                        if q.skip(1).len() == 0 {
                            assert(q.skip(1).is_prefix_of(rest@));
                        }
                    }
                }
            }
        }
    }

    /// Finds the direct child under `key`, creating a bare one when absent,
    /// and returns its position in the child vector.
    fn ensure_child(&mut self, key: u8) -> (i: usize)
        requires
            old(self).wf(),
        ensures
            final(self).wf(),
            final(self).value == old(self).value,
            i < final(self).children@.len(),
            final(self).children@[i as int].0 == key,
            final(self).spec_direct_child(key) == Some(final(self).children@[i as int].1),
            forall|k2: u8|
                k2 != key ==> final(self).spec_direct_child(k2) == old(self).spec_direct_child(k2),
            forall|q1: Seq<u8>|
                #[trigger] final(self).children@[i as int].1.value_at(q1) == old(self).value_at(
                    seq![key].add(q1),
                ),
            forall|q1: Seq<u8>|
                #[trigger] final(self).children@[i as int].1.has_node(q1) <==> (old(self).has_node(
                    seq![key].add(q1),
                ) || q1.len() == 0),
    {
        let r = match self.get_child_index(key) {
            Some(i) => i,
            None => {
                let bare = TrieNode::new();
                self.children.push((key, bare));
                proof {
                    let cs0 = old(self).children@;
                    let n = cs0.len() as int;
                    assert(self.children@ =~= cs0.push((key, bare)));
                    assert forall|a: int, b: int| 0 <= a < b < self.children@.len() implies (
                    #[trigger] self.children@[a]).0 != (#[trigger] self.children@[b]).0 by {
                        if b < n {
                            assert(cs0[a].0 != cs0[b].0);
                        } else {
                            assert(self.children@[a] == cs0[a]);
                            if cs0[a].0 == key {
                                lemma_seq_key_find_at(cs0, a);
                            }
                        }
                    }
                    assert forall|a: int| 0 <= a < self.children@.len() implies (
                    #[trigger] self.children@[a]).1.wf() by {
                        if a < n {
                            assert(cs0[a].1.wf());
                        }
                    }
                    lemma_seq_key_find_at(self.children@, n);
                    assert forall|k2: u8| k2 != key implies self.spec_direct_child(k2) == old(
                        self,
                    ).spec_direct_child(k2) by {
                        lemma_seq_key_find_push(cs0, (key, bare), k2);
                    }
                }
                self.children.len() - 1
            },
        };
        proof {
            let c = self.children@[r as int].1;
            assert(self.spec_direct_child(key) == Some(c)) by {
                lemma_seq_key_find_at(self.children@, r as int);
            }
            assert forall|q1: Seq<u8>| #[trigger] c.value_at(q1) == old(self).value_at(
                seq![key].add(q1),
            ) by {
                let q = seq![key].add(q1);
                assert(q.len() > 0 && q[0] == key && q.skip(1) =~= q1);
                old(self).lemma_step(q);
                match old(self).spec_direct_child(key) {
                    Some(c0) => {
                        assert(c0 == c);
                    },
                    None => {
                        assert(c.value_at(q1) is None);
                    },
                }
            }
            assert forall|q1: Seq<u8>| #[trigger] c.has_node(q1) <==> (old(self).has_node(
                seq![key].add(q1),
            ) || q1.len() == 0) by {
                let q = seq![key].add(q1);
                assert(q.len() > 0 && q[0] == key && q.skip(1) =~= q1);
                old(self).lemma_step(q);
                match old(self).spec_direct_child(key) {
                    Some(c0) => {
                        assert(c0 == c);
                        if q1.len() == 0 {
                            assert(c.has_node(q1) && old(self).has_node(q));
                        }
                    },
                    None => {
                        if q1.len() == 0 {
                            assert(c.has_node(q1));
                        } else {
                            assert(!c.has_node(q1));
                        }
                    },
                }
            }
        }
        r
    }

    /// Detaches and returns the direct child under `key`, subtree and all.
    pub fn remove_direct_child(&mut self, key: u8) -> (r: Option<Self>)
        requires
            old(self).wf(),
        ensures
            final(self).wf(),
            final(self).value == old(self).value,
            final(self).spec_direct_child(key) is None,
            forall|k2: u8|
                k2 != key ==> final(self).spec_direct_child(k2) == old(self).spec_direct_child(k2),
            r == old(self).spec_direct_child(key),
    {
        match self.get_child_index(key) {
            None => None,
            Some(i) => {
                let pair = self.children.remove(i);
                proof {
                    let cs0 = old(self).children@;
                    assert forall|k2: u8| true implies (if k2 == key {
                        self.spec_direct_child(k2) is None
                    } else {
                        self.spec_direct_child(k2) == old(self).spec_direct_child(k2)
                    }) by {
                        lemma_seq_key_find_remove(cs0, i as int, k2);
                    }
                    assert(self.wf()) by {
                        lemma_seq_key_find_remove(cs0, i as int, key);
                        assert forall|j: int| 0 <= j < self.children@.len() implies (
                        #[trigger] self.children@[j]).1.wf() by {
                            let j0 = if j < i as int {
                                j
                            } else {
                                j + 1
                            };
                            assert(self.children@[j] == cs0[j0]);
                            assert(cs0[j0].1.wf());
                        }
                    }
                }
                Some(pair.1)
            },
        }
    }

    /// Detaches the subtree rooted at `path` from its parent and returns it;
    /// interior nodes above it stay, even when left empty.
    pub fn remove(&mut self, path: &[u8]) -> (r: Option<Self>)
        requires
            old(self).wf(),
            path@.len() >= 1,
        ensures
            final(self).wf(),
            r == old(self).spec_child(path@),
            forall|q: Seq<u8>|
                !path@.is_prefix_of(q) ==> #[trigger] final(self).value_at(q) == old(
                    self,
                ).value_at(q) && (final(self).has_node(q) <==> old(self).has_node(q)),
            forall|q: Seq<u8>| path@.is_prefix_of(q) ==> !#[trigger] final(self).has_node(q),
        decreases path@.len(),
    {
        let k = *slice_index_get(path, 0);
        if path.len() == 1 {
            let r = self.remove_direct_child(k);
            proof {
                assert(path@ =~= seq![k]);
                assert(r == old(self).spec_child(path@)) by {
                    old(self).lemma_step(path@);
                    assert(path@.skip(1) =~= Seq::<u8>::empty());
                    match old(self).spec_direct_child(k) {
                        Some(c) => {
                            assert(c.spec_child(path@.skip(1)) == Some(c));
                        },
                        None => {},
                    }
                }
                assert forall|q: Seq<u8>| !path@.is_prefix_of(q) implies #[trigger] self.value_at(
                    q,
                ) == old(self).value_at(q) && (self.has_node(q) <==> old(self).has_node(q)) by {
                    if q.len() == 0 {
                        assert(self.value_at(q) == self.value);
                        assert(old(self).value_at(q) == old(self).value);
                    } else if q[0] == k {
                        // path@ = seq![k] is a prefix of q, contradiction
                        assert(path@.is_prefix_of(q)) by {
                            assert(path@ =~= q.take(1));
                        }
                    } else {
                        Self::lemma_agree(*self, *old(self), q);
                    }
                }
                assert forall|q: Seq<u8>| path@.is_prefix_of(q) implies !#[trigger] self.has_node(
                    q,
                ) by {
                    assert(q.len() >= 1 && q[0] == k);
                    self.lemma_step(q);
                }
            }
            r
        } else {
            match self.get_child_index(k) {
                None => {
                    proof {
                        assert(!old(self).has_node(path@)) by {
                            old(self).lemma_step(path@);
                        }
                        assert forall|q: Seq<u8>| path@.is_prefix_of(q) implies !
                        #[trigger] self.has_node(q) by {
                            assert(q.len() > 0 && q[0] == k);
                            self.lemma_step(q);
                        }
                    }
                    None
                },
                Some(idx) => {
                    let rest = slice_subrange(path, 1, path.len());
                    proof {
                        assert(rest@ =~= path@.skip(1));
                    }
                    let ghost mid = *self;
                    let mut pair = self.children.remove(idx);
                    let ghost c_mid = pair.1;
                    proof {
                        assert(c_mid.wf()) by {
                            assert(mid.children@[idx as int].1.wf());
                        }
                    }
                    let r = pair.1.remove(rest);
                    let ghost c_new = pair.1;
                    self.children.insert(idx, pair);
                    proof {
                        assert(self.children@ =~= mid.children@.update(idx as int, (k, c_new)));
                        assert forall|k2: u8| true implies #[trigger] self.spec_direct_child(k2)
                            == if k2 == k {
                            Some(c_new)
                        } else {
                            mid.spec_direct_child(k2)
                        } by {
                            lemma_seq_key_find_update(mid.children@, idx as int, (k, c_new), k2);
                        }
                        assert(self.wf()) by {
                            assert(seq_keys_distinct(self.children@)) by {
                                lemma_seq_key_find_update(mid.children@, idx as int, (k, c_new), k);
                            }
                            assert forall|i: int| 0 <= i < self.children@.len() implies (
                            #[trigger] self.children@[i]).1.wf() by {
                                if i != idx as int {
                                    assert(self.children@[i] == mid.children@[i]);
                                    assert(mid.children@[i].1.wf());
                                }
                            }
                        }
                        assert(r == old(self).spec_child(path@)) by {
                            old(self).lemma_step(path@);
                        }
                        assert forall|q: Seq<u8>| !path@.is_prefix_of(q) implies
                            #[trigger] self.value_at(q) == old(self).value_at(q) && (
                        self.has_node(q) <==> old(self).has_node(q)) by {
                            if q.len() == 0 {
                                assert(self.value_at(q) == self.value);
                                assert(old(self).value_at(q) == old(self).value);
                            } else if q[0] != k {
                                Self::lemma_agree(*self, *old(self), q);
                            } else {
                                self.lemma_step(q);
                                old(self).lemma_step(q);
                                lemma_seq_head_step(q, path@);
                                assert(!rest@.is_prefix_of(q.skip(1)));
                                assert(c_new.value_at(q.skip(1)) == c_mid.value_at(q.skip(1)));
                                assert(c_new.has_node(q.skip(1)) <==> c_mid.has_node(q.skip(1)));
                            }
                        }
                        assert forall|q: Seq<u8>| path@.is_prefix_of(q) implies !
                        #[trigger] self.has_node(q) by {
                            assert(q.len() > 0 && q[0] == k);
                            self.lemma_step(q);
                            lemma_seq_head_step(q, path@);
                            assert(rest@.is_prefix_of(q.skip(1)));
                            assert(!c_new.has_node(q.skip(1)));
                        }
                    }
                    r
                },
            }
        }
    }

    /// The paths of all valued descendants, own value first, then the
    /// children's in child order.
    pub open spec fn valued_paths(self) -> Seq<Seq<u8>>
        decreases self,
    {
        let own: Seq<Seq<u8>> = if self.value is Some {
            seq![Seq::<u8>::empty()]
        } else {
            seq![]
        };
        own.add(Self::children_valued_paths(self.children@))
    }

    /// The valued paths found below any entry of `cs`, each led by its entry's key.
    pub open spec fn children_valued_paths(cs: Seq<(u8, TrieNode<V>)>) -> Seq<Seq<u8>>
        decreases cs,
    {
        if cs.len() == 0 {
            seq![]
        } else {
            cs[0].1.valued_paths().map_values(|p: Seq<u8>| seq![cs[0].0].add(p)).add(
                Self::children_valued_paths(cs.subrange(1, cs.len() as int)),
            )
        }
    }

    /// The values of all valued descendants, in the order of [`TrieNode::valued_paths`].
    pub open spec fn valued_values(self) -> Seq<V>
        decreases self,
    {
        let own: Seq<V> = match self.value {
            Some(v) => seq![v],
            None => seq![],
        };
        own.add(Self::children_valued_values(self.children@))
    }

    /// The valued values found below any entry of `cs`.
    pub open spec fn children_valued_values(cs: Seq<(u8, TrieNode<V>)>) -> Seq<V>
        decreases cs,
    {
        if cs.len() == 0 {
            seq![]
        } else {
            cs[0].1.valued_values().add(
                Self::children_valued_values(cs.subrange(1, cs.len() as int)),
            )
        }
    }

    /// `children_valued_values` distributes over concatenation.
    proof fn lemma_cvv_append(cs1: Seq<(u8, TrieNode<V>)>, cs2: Seq<(u8, TrieNode<V>)>)
        ensures
            Self::children_valued_values(cs1.add(cs2)) == Self::children_valued_values(cs1).add(
                Self::children_valued_values(cs2),
            ),
        decreases cs1.len(),
    {
        let cs = cs1.add(cs2);
        if cs1.len() == 0 {
            assert(cs =~= cs2);
            assert(Self::children_valued_values(cs1) =~= Seq::<V>::empty());
            assert(Self::children_valued_values(cs1).add(Self::children_valued_values(cs2))
                =~= Self::children_valued_values(cs2));
        } else {
            assert(cs[0] == cs1[0]);
            assert(cs.subrange(1, cs.len() as int) =~= cs1.subrange(1, cs1.len() as int).add(cs2));
            Self::lemma_cvv_append(cs1.subrange(1, cs1.len() as int), cs2);
            assert(Self::children_valued_values(cs) =~= Self::children_valued_values(cs1).add(
                Self::children_valued_values(cs2),
            ));
        }
    }

    /// Membership in the children's valued paths means some entry's subtree
    /// holds the tail of the path.
    proof fn lemma_cvp_mem(cs: Seq<(u8, TrieNode<V>)>, x: Seq<u8>)
        requires
            forall|i: int| 0 <= i < cs.len() ==> (#[trigger] cs[i]).1.wf(),
        ensures
            Self::children_valued_paths(cs).contains(x) <==> (x.len() >= 1 && exists|i: int|
                0 <= i < cs.len() && (#[trigger] cs[i]).0 == x[0] && cs[i].1.valued(x.skip(1))),
        decreases cs,
    {
        if cs.len() == 0 {
        } else {
            let rest = cs.subrange(1, cs.len() as int);
            let group = cs[0].1.valued_paths().map_values(|p: Seq<u8>| seq![cs[0].0].add(p));
            let whole = Self::children_valued_paths(cs);
            assert(whole == group.add(Self::children_valued_paths(rest)));
            Self::lemma_cvp_mem(rest, x);
            cs[0].1.lemma_vp_mem(x.skip(1));
            // membership in the head group
            assert(group.contains(x) <==> (x.len() >= 1 && x[0] == cs[0].0 && cs[0].1.valued(
                x.skip(1),
            ))) by {
                if group.contains(x) {
                    let a = choose|a: int| 0 <= a < group.len() && group[a] == x;
                    let p = cs[0].1.valued_paths()[a];
                    assert(x == seq![cs[0].0].add(p));
                    assert(x.skip(1) =~= p);
                    assert(cs[0].1.valued_paths().contains(p));
                }
                if x.len() >= 1 && x[0] == cs[0].0 && cs[0].1.valued(x.skip(1)) {
                    assert(cs[0].1.valued_paths().contains(x.skip(1)));
                    let a = choose|a: int|
                        0 <= a < cs[0].1.valued_paths().len() && cs[0].1.valued_paths()[a]
                            == x.skip(1);
                    assert(group[a] == seq![cs[0].0].add(x.skip(1)));
                    assert(seq![cs[0].0].add(x.skip(1)) =~= x);
                    assert(group.contains(x));
                }
            }
            // membership in a concatenation splits
            assert(whole.contains(x) <==> (group.contains(x) || Self::children_valued_paths(
                rest,
            ).contains(x))) by {
                if whole.contains(x) {
                    let a = choose|a: int| 0 <= a < whole.len() && whole[a] == x;
                    if a < group.len() {
                        assert(group[a] == x);
                    } else {
                        assert(Self::children_valued_paths(rest)[a - group.len()] == x);
                    }
                }
                if group.contains(x) {
                    let a = choose|a: int| 0 <= a < group.len() && group[a] == x;
                    assert(whole[a] == x);
                }
                if Self::children_valued_paths(rest).contains(x) {
                    let a = choose|a: int|
                        0 <= a < Self::children_valued_paths(rest).len()
                            && Self::children_valued_paths(rest)[a] == x;
                    assert(whole[a + group.len()] == x);
                }
            }
            // align the indices of `rest` with those of `cs`
            assert((x.len() >= 1 && exists|i: int|
                0 <= i < rest.len() && (#[trigger] rest[i]).0 == x[0] && rest[i].1.valued(
                    x.skip(1),
                )) <==> (x.len() >= 1 && exists|i: int|
                1 <= i < cs.len() && (#[trigger] cs[i]).0 == x[0] && cs[i].1.valued(x.skip(1))))
                by {
                if x.len() >= 1 {
                    if exists|i: int|
                        0 <= i < rest.len() && (#[trigger] rest[i]).0 == x[0] && rest[i].1.valued(
                            x.skip(1),
                        ) {
                        let i = choose|i: int|
                            0 <= i < rest.len() && (#[trigger] rest[i]).0 == x[0]
                                && rest[i].1.valued(x.skip(1));
                        assert(cs[i + 1] == rest[i]);
                    }
                    if exists|i: int|
                        1 <= i < cs.len() && (#[trigger] cs[i]).0 == x[0] && cs[i].1.valued(
                            x.skip(1),
                        ) {
                        let i = choose|i: int|
                            1 <= i < cs.len() && (#[trigger] cs[i]).0 == x[0] && cs[i].1.valued(
                                x.skip(1),
                            );
                        assert(rest[i - 1] == cs[i]);
                    }
                }
            }
        }
    }

    /// A path is among `valued_paths` exactly when it leads to a value.
    pub proof fn lemma_vp_mem(self, x: Seq<u8>)
        requires
            self.wf(),
        ensures
            self.valued_paths().contains(x) <==> self.valued(x),
        decreases self,
    {
        let own: Seq<Seq<u8>> = if self.value is Some {
            seq![Seq::<u8>::empty()]
        } else {
            seq![]
        };
        let cvp = Self::children_valued_paths(self.children@);
        Self::lemma_cvp_mem(self.children@, x);
        assert(self.valued_paths().contains(x) <==> (own.contains(x) || cvp.contains(x))) by {
            if self.valued_paths().contains(x) {
                let a = choose|a: int|
                    0 <= a < self.valued_paths().len() && self.valued_paths()[a] == x;
                if a < own.len() {
                    assert(own[a] == x);
                } else {
                    assert(cvp[a - own.len()] == x);
                }
            }
            if own.contains(x) {
                let a = choose|a: int| 0 <= a < own.len() && own[a] == x;
                assert(self.valued_paths()[a] == x);
            }
            if cvp.contains(x) {
                let a = choose|a: int| 0 <= a < cvp.len() && cvp[a] == x;
                assert(self.valued_paths()[a + own.len()] == x);
            }
        }
        if x.len() == 0 {
            assert(own.contains(x) <==> self.value is Some) by {
                if self.value is Some {
                    assert(own[0] == x) by {
                        assert(x =~= Seq::<u8>::empty());
                    }
                }
            }
            assert(!(x.len() >= 1));
            assert(self.value_at(x) == self.value);
        } else {
            assert(!own.contains(x)) by {
                if own.contains(x) {
                    assert(own[0] == x);
                }
            }
            self.lemma_step(x);
            assert((exists|i: int|
                0 <= i < self.children@.len() && (#[trigger] self.children@[i]).0 == x[0]
                    && self.children@[i].1.valued(x.skip(1))) <==> self.valued(x)) by {
                if exists|i: int|
                    0 <= i < self.children@.len() && (#[trigger] self.children@[i]).0 == x[0]
                        && self.children@[i].1.valued(x.skip(1)) {
                    let i = choose|i: int|
                        0 <= i < self.children@.len() && (#[trigger] self.children@[i]).0 == x[0]
                            && self.children@[i].1.valued(x.skip(1));
                    lemma_seq_key_find_at(self.children@, i);
                }
                if self.valued(x) {
                    match self.spec_direct_child(x[0]) {
                        None => {},
                        Some(c) => {
                            let i = choose|i: int|
                                0 <= i < self.children@.len() && (#[trigger] self.children@[i]).0
                                    == x[0];
                        },
                    }
                }
            }
        }
    }

    /// No path repeats among the children's valued paths.
    proof fn lemma_cvp_distinct(cs: Seq<(u8, TrieNode<V>)>)
        requires
            seq_keys_distinct(cs),
            forall|i: int| 0 <= i < cs.len() ==> (#[trigger] cs[i]).1.wf(),
        ensures
            seq_paths_distinct(Self::children_valued_paths(cs)),
        decreases cs,
    {
        if cs.len() == 0 {
        } else {
            let rest = cs.subrange(1, cs.len() as int);
            let vp0 = cs[0].1.valued_paths();
            let group = vp0.map_values(|p: Seq<u8>| seq![cs[0].0].add(p));
            let tailcvp = Self::children_valued_paths(rest);
            let whole = Self::children_valued_paths(cs);
            assert(whole == group.add(tailcvp));
            cs[0].1.lemma_vp_distinct();
            Self::lemma_cvp_distinct(rest);
            assert forall|a: int, b: int| 0 <= a < b < whole.len() implies whole[a] != whole[b] by {
                if b < group.len() {
                    assert(whole[a] == group[a] && whole[b] == group[b]);
                    if group[a] == group[b] {
                        assert(seq![cs[0].0].add(vp0[a]).skip(1) =~= vp0[a]);
                        assert(seq![cs[0].0].add(vp0[b]).skip(1) =~= vp0[b]);
                        assert(vp0[a] == vp0[b]);
                    }
                } else if a >= group.len() {
                    assert(whole[a] == tailcvp[a - group.len()]);
                    assert(whole[b] == tailcvp[b - group.len()]);
                } else {
                    // one from the head group, one from a later child: the
                    // leading bytes are different keys
                    let xa = whole[a];
                    let xb = whole[b];
                    assert(xa == group[a]);
                    assert(xb == tailcvp[b - group.len()]);
                    assert(xa == seq![cs[0].0].add(vp0[a]));
                    assert(xa.len() >= 1 && xa[0] == cs[0].0);
                    assert(tailcvp.contains(xb)) by {
                        assert(tailcvp[b - group.len()] == xb);
                    }
                    Self::lemma_cvp_mem(rest, xb);
                    let i = choose|i: int|
                        0 <= i < rest.len() && (#[trigger] rest[i]).0 == xb[0] && rest[i].1.valued(
                            xb.skip(1),
                        );
                    assert(cs[i + 1].0 == xb[0]);
                    assert(cs[0].0 != cs[i + 1].0);
                }
            }
        }
    }

    /// No path repeats among `valued_paths`.
    pub proof fn lemma_vp_distinct(self)
        requires
            self.wf(),
        ensures
            seq_paths_distinct(self.valued_paths()),
        decreases self,
    {
        let own: Seq<Seq<u8>> = if self.value is Some {
            seq![Seq::<u8>::empty()]
        } else {
            seq![]
        };
        let cvp = Self::children_valued_paths(self.children@);
        Self::lemma_cvp_distinct(self.children@);
        assert forall|a: int, b: int|
            0 <= a < b < self.valued_paths().len() implies self.valued_paths()[a]
            != self.valued_paths()[b] by {
            if a >= own.len() {
                assert(self.valued_paths()[a] == cvp[a - own.len()]);
                assert(self.valued_paths()[b] == cvp[b - own.len()]);
            } else {
                // `a` is the own empty path; `b` comes from a child and is non-empty
                let xb = cvp[b - own.len()];
                assert(self.valued_paths()[a] == own[0]);
                assert(self.valued_paths()[b] == xb);
                assert(cvp.contains(xb));
                Self::lemma_cvp_mem(self.children@, xb);
                assert(xb.len() >= 1);
            }
        }
    }

    /// `valued_values` lists, in order, the value stored at each of
    /// `valued_paths`.
    pub proof fn lemma_vv_parallel(self)
        requires
            self.wf(),
        ensures
            self.valued_values().len() == self.valued_paths().len(),
            forall|i: int|
                0 <= i < self.valued_paths().len() ==> Some(#[trigger] self.valued_values()[i])
                    == self.value_at(self.valued_paths()[i]),
        decreases self,
    {
        let cs = self.children@;
        Self::lemma_cvv_parallel(cs);
        let own_n: int = if self.value is Some {
            1
        } else {
            0
        };
        let cvp = Self::children_valued_paths(cs);
        let cvv = Self::children_valued_values(cs);
        assert forall|i: int|
            0 <= i < self.valued_paths().len() implies Some(#[trigger] self.valued_values()[i])
            == self.value_at(self.valued_paths()[i]) by {
            if i < own_n {
                assert(self.valued_paths()[i] =~= Seq::<u8>::empty());
                assert(self.value_at(Seq::<u8>::empty()) == self.value);
            } else {
                let a = i - own_n;
                assert(self.valued_paths()[i] == cvp[a]);
                assert(self.valued_values()[i] == cvv[a]);
                let x = cvp[a];
                let j = choose|j: int|
                    0 <= j < cs.len() && (#[trigger] cs[j]).0 == x[0] && Some(cvv[a])
                        == cs[j].1.value_at(x.skip(1));
                lemma_seq_key_find_at(cs, j);
                self.lemma_step(x);
            }
        }
    }

    /// Each of the children's valued values is the value its path reaches,
    /// read through the entry that owns its leading byte.
    proof fn lemma_cvv_parallel(cs: Seq<(u8, TrieNode<V>)>)
        requires
            forall|i: int| 0 <= i < cs.len() ==> (#[trigger] cs[i]).1.wf(),
        ensures
            Self::children_valued_values(cs).len() == Self::children_valued_paths(cs).len(),
            forall|i: int|
                0 <= i < Self::children_valued_paths(cs).len()
                    ==> #[trigger] Self::children_valued_paths(cs)[i].len() >= 1 && exists|j: int|
                    0 <= j < cs.len() && (#[trigger] cs[j]).0 == Self::children_valued_paths(
                        cs,
                    )[i][0] && Some(Self::children_valued_values(cs)[i]) == cs[j].1.value_at(
                        Self::children_valued_paths(cs)[i].skip(1),
                    ),
        decreases cs,
    {
        if cs.len() == 0 {
        } else {
            let rest = cs.subrange(1, cs.len() as int);
            let vp0 = cs[0].1.valued_paths();
            let vv0 = cs[0].1.valued_values();
            let group = vp0.map_values(|p: Seq<u8>| seq![cs[0].0].add(p));
            cs[0].1.lemma_vv_parallel();
            Self::lemma_cvv_parallel(rest);
            let cvp = Self::children_valued_paths(cs);
            let cvv = Self::children_valued_values(cs);
            let rvp = Self::children_valued_paths(rest);
            let rvv = Self::children_valued_values(rest);
            assert forall|i: int| 0 <= i < cvp.len() implies #[trigger] cvp[i].len() >= 1
                && exists|j: int|
                0 <= j < cs.len() && (#[trigger] cs[j]).0 == cvp[i][0] && Some(cvv[i])
                    == cs[j].1.value_at(cvp[i].skip(1)) by {
                if i < group.len() {
                    assert(cvp[i] == group[i]);
                    assert(cvv[i] == vv0[i]);
                    let p = vp0[i];
                    assert(group[i] == seq![cs[0].0].add(p));
                    assert(group[i].len() >= 1 && group[i][0] == cs[0].0);
                    assert(group[i].skip(1) =~= p);
                    assert(Some(vv0[i]) == cs[0].1.value_at(p));
                    assert(cs[0].0 == cvp[i][0] && Some(cvv[i]) == cs[0].1.value_at(
                        cvp[i].skip(1),
                    ));
                } else {
                    let a = i - group.len();
                    assert(cvp[i] == rvp[a]);
                    assert(cvv[i] == rvv[a]);
                    let j = choose|j: int|
                        0 <= j < rest.len() && (#[trigger] rest[j]).0 == rvp[a][0] && Some(rvv[a])
                            == rest[j].1.value_at(rvp[a].skip(1));
                    assert(cs[j + 1] == rest[j]);
                    assert(cs[j + 1].0 == cvp[i][0] && Some(cvv[i]) == cs[j + 1].1.value_at(
                        cvp[i].skip(1),
                    ));
                }
            }
        }
    }
    /// How the length of `valued_paths` counts the valued descendants:
    /// zero means none, one pins the single path down, and from the other
    /// side a single valued path forces length one.
    pub proof fn lemma_vp_count(self)
        requires
            self.wf(),
        ensures
            self.valued_paths().len() == 0 <==> (forall|q: Seq<u8>| !self.valued(q)),
            self.valued_paths().len() == 1 ==> self.valued(self.valued_paths()[0]) && (forall|
                q: Seq<u8>,
            |
                self.valued(q) ==> q == self.valued_paths()[0]),
            ((exists|q: Seq<u8>| self.valued(q)) && (forall|q1: Seq<u8>, q2: Seq<u8>|
                (self.valued(q1) && self.valued(q2)) ==> q1 == q2)) ==> self.valued_paths().len()
                == 1,
    {
        let vp = self.valued_paths();
        self.lemma_vp_distinct();
        assert forall|q: Seq<u8>| #[trigger] self.valued(q) == vp.contains(q) by {
            self.lemma_vp_mem(q);
        }
        if vp.len() == 0 {
            assert forall|q: Seq<u8>| !#[trigger] self.valued(q) by {
                if vp.contains(q) {
                    let a = choose|a: int| 0 <= a < vp.len() && vp[a] == q;
                }
            }
        } else {
            assert(vp.contains(vp[0]));
            assert(self.valued(vp[0]));
        }
        if vp.len() == 1 {
            assert forall|q: Seq<u8>| self.valued(q) implies q == vp[0] by {
                let a = choose|a: int| 0 <= a < vp.len() && vp[a] == q;
            }
        }
        if (exists|q: Seq<u8>| self.valued(q)) && (forall|q1: Seq<u8>, q2: Seq<u8>|
            (self.valued(q1) && self.valued(q2)) ==> q1 == q2) {
            if vp.len() >= 2 {
                assert(vp.contains(vp[0]) && vp.contains(vp[1]));
                assert(self.valued(vp[0]) && self.valued(vp[1]));
                assert(vp[0] != vp[1]);
            }
        }
    }

    /// Every value in the subtree, own value first, then each child's in
    /// child order; the order matches [`TrieNode::valued_paths`].
    pub fn all_children(&self) -> (r: Vec<&V>)
        requires
            self.wf(),
        ensures
            r@.len() == self.valued_values().len(),
            forall|i: int| 0 <= i < r@.len() ==> r@[i] == self.valued_values()[i],
        decreases self,
    {
        let ghost own_vals: Seq<V> = match &self.value {
            Some(v) => seq![*v],
            None => seq![],
        };
        let mut out: Vec<&V> = Vec::new();
        match &self.value {
            Some(v) => out.push(v),
            None => {},
        }
        let n = self.children.len();
        let mut i: usize = 0;
        proof {
            assert(self.children@.subrange(0, 0) =~= Seq::<(u8, TrieNode<V>)>::empty());
        }
        while i < n
            invariant
                i <= n,
                n == self.children@.len(),
                self.wf(),
                out@.len() == own_vals.len() + Self::children_valued_values(
                    self.children@.subrange(0, i as int),
                ).len(),
                forall|j: int|
                    0 <= j < out@.len() ==> out@[j] == own_vals.add(
                        Self::children_valued_values(self.children@.subrange(0, i as int)),
                    )[j],
            decreases n - i,
        {
            let pair = &self.children[i];
            proof {
                assert(self.children@[i as int].1.wf());
            }
            let mut sub = pair.1.all_children();
            let ghost out_before = out@;
            out.append(&mut sub);
            proof {
                let prev = self.children@.subrange(0, i as int);
                let now = self.children@.subrange(0, i as int + 1);
                assert(now =~= prev.add(seq![self.children@[i as int]]));
                Self::lemma_cvv_append(prev, seq![self.children@[i as int]]);
                assert(Self::children_valued_values(seq![self.children@[i as int]])
                    =~= self.children@[i as int].1.valued_values()) by {
                    let single = seq![self.children@[i as int]];
                    assert(single.subrange(1, 1) =~= Seq::<(u8, TrieNode<V>)>::empty());
                    assert(Self::children_valued_values(Seq::<(u8, TrieNode<V>)>::empty())
                        =~= Seq::<V>::empty());
                    assert(Self::children_valued_values(single) == single[0].1.valued_values().add(
                        Self::children_valued_values(single.subrange(1, 1)),
                    ));
                }
            }
            i = i + 1;
        }
        proof {
            assert(self.children@.subrange(0, n as int) =~= self.children@);
            assert(self.valued_values() == own_vals.add(
                Self::children_valued_values(self.children@),
            ));
        }
        out
    }

    /// The nodes of the subtree in preorder: the node itself, then each
    /// child's subtree in child order.
    pub open spec fn preorder_nodes(self) -> Seq<TrieNode<V>>
        decreases self,
    {
        seq![self].add(Self::children_preorder(self.children@))
    }

    /// The preorder node lists of all entries of `cs`, concatenated.
    pub open spec fn children_preorder(cs: Seq<(u8, TrieNode<V>)>) -> Seq<TrieNode<V>>
        decreases cs,
    {
        if cs.len() == 0 {
            seq![]
        } else {
            cs[0].1.preorder_nodes().add(
                Self::children_preorder(cs.subrange(1, cs.len() as int)),
            )
        }
    }

    /// `children_preorder` distributes over concatenation.
    proof fn lemma_cpre_append(cs1: Seq<(u8, TrieNode<V>)>, cs2: Seq<(u8, TrieNode<V>)>)
        ensures
            Self::children_preorder(cs1.add(cs2)) == Self::children_preorder(cs1).add(
                Self::children_preorder(cs2),
            ),
        decreases cs1.len(),
    {
        let cs = cs1.add(cs2);
        if cs1.len() == 0 {
            assert(cs =~= cs2);
            assert(Self::children_preorder(cs1) =~= Seq::<TrieNode<V>>::empty());
            assert(Self::children_preorder(cs1).add(Self::children_preorder(cs2))
                =~= Self::children_preorder(cs2));
        } else {
            assert(cs[0] == cs1[0]);
            assert(cs.subrange(1, cs.len() as int) =~= cs1.subrange(1, cs1.len() as int).add(cs2));
            Self::lemma_cpre_append(cs1.subrange(1, cs1.len() as int), cs2);
            assert(Self::children_preorder(cs) =~= Self::children_preorder(cs1).add(
                Self::children_preorder(cs2),
            ));
        }
    }

    /// Appends to `children` every node of `node`'s subtree, in preorder.
    pub fn collect_children<'s, 'l: 's>(node: &'l Self, children: &mut Vec<&'s Self>)
        ensures
            final(children)@.len() == old(children)@.len() + node.preorder_nodes().len(),
            forall|j: int|
                0 <= j < old(children)@.len() ==> final(children)@[j] == old(children)@[j],
            forall|j: int|
                0 <= j < node.preorder_nodes().len() ==> final(children)@[old(children)@.len() + j]
                    == node.preorder_nodes()[j],
        decreases node,
    {
        children.push(node);
        let ghost base = old(children)@;
        let n = node.children.len();
        let mut i: usize = 0;
        proof {
            assert(node.children@.subrange(0, 0) =~= Seq::<(u8, TrieNode<V>)>::empty());
        }
        while i < n
            invariant
                i <= n,
                n == node.children@.len(),
                children@.len() == base.len() + 1 + Self::children_preorder(
                    node.children@.subrange(0, i as int),
                ).len(),
                forall|j: int| 0 <= j < base.len() ==> children@[j] == base[j],
                children@[base.len() as int] == *node,
                forall|j: int|
                    0 <= j < Self::children_preorder(node.children@.subrange(0, i as int)).len()
                        ==> children@[base.len() + 1 + j] == Self::children_preorder(
                        node.children@.subrange(0, i as int),
                    )[j],
            decreases n - i,
        {
            let pair = &node.children[i];
            Self::collect_children(&pair.1, children);
            proof {
                let prev = node.children@.subrange(0, i as int);
                let now = node.children@.subrange(0, i as int + 1);
                assert(now =~= prev.add(seq![node.children@[i as int]]));
                Self::lemma_cpre_append(prev, seq![node.children@[i as int]]);
                assert(Self::children_preorder(seq![node.children@[i as int]])
                    =~= node.children@[i as int].1.preorder_nodes()) by {
                    let single = seq![node.children@[i as int]];
                    assert(single.subrange(1, 1) =~= Seq::<(u8, TrieNode<V>)>::empty());
                    assert(Self::children_preorder(Seq::<(u8, TrieNode<V>)>::empty())
                        =~= Seq::<TrieNode<V>>::empty());
                    assert(Self::children_preorder(single) == single[0].1.preorder_nodes().add(
                        Self::children_preorder(single.subrange(1, 1)),
                    ));
                }
            }
            i = i + 1;
        }
        proof {
            assert(node.children@.subrange(0, n as int) =~= node.children@);
        }
    }

    /// The values below the node at `path`, or absent when no node sits there.
    pub fn predict(&self, path: &[u8]) -> (r: Option<Vec<&V>>)
        requires
            self.wf(),
        ensures
            match r {
                None => !self.has_node(path@),
                Some(vs) => self.has_node(path@) && vs@.len() == self.spec_child(
                    path@,
                )->0.valued_values().len() && forall|i: int|
                    0 <= i < vs@.len() ==> vs@[i] == self.spec_child(path@)->0.valued_values()[i],
            },
    {
        match self.search_child(path) {
            None => None,
            Some(node) => Some(node.all_children()),
        }
    }
}

/// No sequence repeats in `s`.
pub open spec fn seq_paths_distinct(s: Seq<Seq<u8>>) -> bool {
    forall|a: int, b: int| 0 <= a < b < s.len() ==> s[a] != s[b]
}

/// The shortest prefix length that addresses `h` once it is inserted,
/// computed against the tree before the insertion: at least
/// [`crate::MIN_PREFIX_LEN`]; one past the first depth from there at which
/// the walk along `h` leaves the tree; the full length when the walk never
/// does.
pub open spec fn spec_min_prefix<V>(root: TrieNode<V>, h: Seq<u8>) -> int {
    if !root.has_node(h.take(crate::MIN_PREFIX_LEN as int)) {
        crate::MIN_PREFIX_LEN as int
    } else {
        min_prefix_from(root, h, crate::MIN_PREFIX_LEN as int)
    }
}

/// The walk of [`spec_min_prefix`] from depth `i` on.
pub open spec fn min_prefix_from<V>(root: TrieNode<V>, h: Seq<u8>, i: int) -> int
    decreases h.len() - i,
{
    if i < 0 || i >= h.len() {
        h.len() as int
    } else if !root.has_node(h.take(i + 1)) {
        i + 1
    } else {
        min_prefix_from(root, h, i + 1)
    }
}

/// Bounds and meaning of the walk: the result is `h`'s length, or a depth
/// whose prefix of `h` has no node.
pub proof fn lemma_min_prefix_from<V>(root: TrieNode<V>, h: Seq<u8>, i: int)
    requires
        0 <= i <= h.len(),
    ensures
        i <= min_prefix_from(root, h, i) <= h.len(),
        min_prefix_from(root, h, i) < h.len() ==> !root.has_node(
            h.take(min_prefix_from(root, h, i)),
        ),
    decreases h.len() - i,
{
    if i < h.len() {
        if root.has_node(h.take(i + 1)) {
            lemma_min_prefix_from(root, h, i + 1);
        }
    }
}

/// A trie with a root node; paths are walked from the root.
pub struct Trie<V> {
    /// The root node; its own value slot is unused by [`Trie::insert`],
    /// which always walks at least zero bytes.
    pub root: TrieNode<V>,
}

impl<V> Trie<V> {
    /// An empty trie.
    pub fn new() -> (r: Self)
        ensures
            r.root.wf(),
            forall|p: Seq<u8>| r.root.value_at(p) is None,
            forall|p: Seq<u8>| p.len() > 0 ==> !r.root.has_node(p),
    {
        Trie { root: TrieNode::new() }
    }

    /// Stores `value` at `path`, creating nodes as needed; see
    /// [`TrieNode::insert_path`].
    pub fn insert(&mut self, path: &[u8], value: V)
        requires
            old(self).root.wf(),
        ensures
            final(self).root.wf(),
            forall|q: Seq<u8>|
                #[trigger] final(self).root.value_at(q) == if q == path@ {
                    Some(value)
                } else {
                    old(self).root.value_at(q)
                },
            forall|q: Seq<u8>|
                #[trigger] final(self).root.has_node(q) <==> (old(self).root.has_node(q)
                    || q.is_prefix_of(path@)),
    {
        self.root.insert_path(path, value);
    }

    /// The shortest prefix length that will uniquely address `hash` once it
    /// is inserted, computed against the tree as it stands; see
    /// [`spec_min_prefix`].
    pub fn min_prefix_len(&self, hash: &[u8]) -> (r: usize)
        requires
            self.root.wf(),
            crate::MIN_PREFIX_LEN <= hash@.len(),
        ensures
            r == spec_min_prefix(self.root, hash@),
            crate::MIN_PREFIX_LEN <= r <= hash@.len(),
    {
        let n = hash.len();
        let head = slice_subrange(hash, 0, crate::MIN_PREFIX_LEN);
        proof {
            assert(head@ =~= hash@.take(crate::MIN_PREFIX_LEN as int));
        }
        match self.root.search_child(head) {
            None => {
                proof {
                    assert(!self.root.has_node(hash@.take(crate::MIN_PREFIX_LEN as int)));
                }
                crate::MIN_PREFIX_LEN
            },
            Some(start) => {
                let mut curr: &TrieNode<V> = start;
                let mut i: usize = crate::MIN_PREFIX_LEN;
                proof {
                    lemma_min_prefix_from(self.root, hash@, crate::MIN_PREFIX_LEN as int);
                }
                while i < n
                    invariant
                        crate::MIN_PREFIX_LEN <= i <= n,
                        n == hash@.len(),
                        self.root.wf(),
                        self.root.spec_child(hash@.take(i as int)) == Some(*curr),
                        curr.wf(),
                        min_prefix_from(self.root, hash@, crate::MIN_PREFIX_LEN as int)
                            == min_prefix_from(self.root, hash@, i as int),
                    decreases n - i,
                {
                    let b = *slice_index_get(hash, i);
                    proof {
                        self.root.lemma_spec_child_snoc(hash@.take(i as int), b);
                        assert(hash@.take(i as int).push(b) =~= hash@.take(i as int + 1));
                    }
                    match curr.search_direct_child(b) {
                        None => {
                            proof {
                                assert(self.root.spec_child(hash@.take(i as int)) == Some(*curr));
                                assert(curr.spec_direct_child(b) is None);
                                assert(self.root.spec_child(hash@.take(i as int).push(b)) is None);
                                assert(!self.root.has_node(hash@.take(i as int + 1)));
                                lemma_min_prefix_from(self.root, hash@, i as int);
                                assert(hash@.take(crate::MIN_PREFIX_LEN as int).is_prefix_of(
                                    hash@.take(i as int),
                                ));
                                self.root.lemma_has_node_prefix(
                                    hash@.take(i as int),
                                    hash@.take(crate::MIN_PREFIX_LEN as int),
                                );
                            }
                            return i + 1;
                        },
                        Some(next) => {
                            proof {
                                curr.lemma_wf_direct_child(b);
                            }
                            curr = next;
                        },
                    }
                    i = i + 1;
                }
                proof {
                    assert(hash@.take(crate::MIN_PREFIX_LEN as int).is_prefix_of(
                        hash@.take(n as int),
                    ));
                    self.root.lemma_has_node_prefix(
                        hash@.take(n as int),
                        hash@.take(crate::MIN_PREFIX_LEN as int),
                    );
                }
                n
            },
        }
    }

    /// See [`TrieNode::search`].
    pub fn search(&self, mode: SearchMode, path: &[u8]) -> (r: bool)
        requires
            self.root.wf(),
        ensures
            r == match mode {
                SearchMode::Prefix => self.root.has_node(path@),
                SearchMode::Exact => self.root.valued(path@),
            },
    {
        self.root.search(mode, path)
    }

    /// See [`TrieNode::search_child`].
    pub fn search_child(&self, path: &[u8]) -> (r: Option<&TrieNode<V>>)
        requires
            self.root.wf(),
        ensures
            match r {
                None => !self.root.has_node(path@),
                Some(c) => self.root.spec_child(path@) == Some(*c) && c.wf(),
            },
    {
        self.root.search_child(path)
    }

    /// See [`TrieNode::predict`].
    pub fn predict(&self, path: &[u8]) -> (r: Option<Vec<&V>>)
        requires
            self.root.wf(),
        ensures
            match r {
                None => !self.root.has_node(path@),
                Some(vs) => self.root.has_node(path@) && vs@.len() == self.root.spec_child(
                    path@,
                )->0.valued_values().len() && forall|i: int|
                    0 <= i < vs@.len() ==> vs@[i] == self.root.spec_child(
                        path@,
                    )->0.valued_values()[i],
            },
    {
        self.root.predict(path)
    }

    /// Every stored value; see [`TrieNode::all_children`].
    pub fn all(&self) -> (r: Vec<&V>)
        requires
            self.root.wf(),
        ensures
            r@.len() == self.root.valued_values().len(),
            forall|i: int| 0 <= i < r@.len() ==> r@[i] == self.root.valued_values()[i],
    {
        self.root.all_children()
    }

    /// Every stored value; see [`TrieNode::all_children`].
    pub fn all_children(&self) -> (r: Vec<&V>)
        requires
            self.root.wf(),
        ensures
            r@.len() == self.root.valued_values().len(),
            forall|i: int| 0 <= i < r@.len() ==> r@[i] == self.root.valued_values()[i],
    {
        self.root.all_children()
    }

    /// See [`TrieNode::remove`].
    pub fn remove(&mut self, path: &[u8]) -> (r: Option<TrieNode<V>>)
        requires
            old(self).root.wf(),
            path@.len() >= 1,
        ensures
            final(self).root.wf(),
            r == old(self).root.spec_child(path@),
            forall|q: Seq<u8>|
                !path@.is_prefix_of(q) ==> #[trigger] final(self).root.value_at(q) == old(
                    self,
                ).root.value_at(q) && (final(self).root.has_node(q) <==> old(self).root.has_node(
                    q,
                )),
            forall|q: Seq<u8>| path@.is_prefix_of(q) ==> !#[trigger] final(self).root.has_node(q),
    {
        self.root.remove(path)
    }
}

} // verus!
