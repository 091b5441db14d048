use crate::symbol::Symbol;
use vstd::prelude::*;

verus! {

/// The key sequences held by a vector of key vectors.
pub open spec fn key_views<K>(s: Seq<Vec<K>>) -> Seq<Seq<K>> {
    s.map_values(|x: Vec<K>| x@)
}

/// A sequence splits into any prefix of it and the rest.
proof fn lemma_split_at_prefix<K>(p: Seq<K>, t: Seq<K>)
    requires
        p.is_prefix_of(t),
    ensures
        p + t.skip(p.len() as int) == t,
{
    let plen = p.len() as int;
    assert forall|x: int| 0 <= x < t.len() implies (p + t.skip(plen))[x] == t[x] by {
        if x < plen {
            assert(p[x] == t.subrange(0, plen)[x]);
        }
    }
    assert(p + t.skip(plen) =~= t);
}

/// One vertex of the prefix tree: a mapping from key symbols to owned child
/// nodes, and an optional payload, present exactly when some key ends here.
///
/// Children are kept as a vector of labelled edges with pairwise-distinct
/// labels; the order of the edges carries no meaning.
pub struct Node<K: Symbol, V> {
    /// Labelled edges to the owned children.
    children: Vec<(K, Node<K, V>)>,
    /// Value stored for the key that ends in this node, if any.
    payload: Option<V>,
}

impl<K: Symbol, V> Node<K, V> {
    /// The labelled edges out of this node, in storage order.
    pub closed spec fn edges(self) -> Seq<(K, Node<K, V>)> {
        self.children@
    }

    /// The payload held in this node.
    pub closed spec fn spec_payload(self) -> Option<V> {
        self.payload
    }

    /// How many children this node has.
    pub open spec fn child_count(self) -> nat {
        self.edges().len()
    }

    /// Whether an edge out of this node is labelled `k`.
    pub open spec fn has_child(self, k: K) -> bool {
        exists|i: int| 0 <= i < self.edges().len() && (#[trigger] self.edges()[i]).0 == k
    }

    /// The position of the edge labelled `k`.
    pub open spec fn child_index(self, k: K) -> int {
        choose|i: int| 0 <= i < self.edges().len() && (#[trigger] self.edges()[i]).0 == k
    }

    /// The child reached by the edge labelled `k`.
    pub open spec fn spec_child(self, k: K) -> Option<Node<K, V>> {
        if self.has_child(k) {
            Some(self.edges()[self.child_index(k)].1)
        } else {
            None
        }
    }

    /// A bare node: no children and no payload. The tree keeps no such node
    /// below the root; delete prunes them bottom-up.
    pub open spec fn is_bare(self) -> bool {
        self.spec_payload() is None && self.child_count() == 0
    }

    /// Pairwise-distinct edge labels at this node.
    pub open spec fn labels_distinct(self) -> bool {
        forall|i: int, j: int|
            0 <= i < j < self.edges().len() ==> (#[trigger] self.edges()[i]).0 != (
            #[trigger] self.edges()[j]).0
    }

    /// Well-formed subtree: edge labels are pairwise distinct at this node
    /// and at every node below it.
    pub open spec fn wf(self) -> bool
        decreases self,
    {
        &&& self.labels_distinct()
        &&& (forall|i: int|
            0 <= i < self.edges().len() ==> (#[trigger] self.edges()[i]).1.wf())
    }

    /// Garbage-free subtree: no bare node hangs below this one.
    pub open spec fn pruned(self) -> bool
        decreases self,
    {
        forall|i: int|
            0 <= i < self.edges().len() ==> (#[trigger] self.edges()[i]).1.pruned() && !self.edges()[i].1.is_bare()
    }

    /// The node reached from this one by walking `path`, one edge per symbol.
    pub open spec fn spec_node_at(self, path: Seq<K>) -> Option<Node<K, V>>
        decreases path.len(),
    {
        if path.len() == 0 {
            Some(self)
        } else {
            match self.spec_child(path[0]) {
                Some(c) => c.spec_node_at(path.drop_first()),
                None => None,
            }
        }
    }

    /// The value stored for `key` in this subtree: follow one edge per symbol,
    /// then read the payload of the node reached.
    pub open spec fn spec_get(self, key: Seq<K>) -> Option<V>
        decreases key.len(),
    {
        if key.len() == 0 {
            self.spec_payload()
        } else {
            match self.spec_child(key[0]) {
                Some(c) => c.spec_get(key.drop_first()),
                None => None,
            }
        }
    }

    /// The edge labelled `k` sits exactly where it was found.
    proof fn lemma_child_at(self, i: int)
        requires
            self.labels_distinct(),
            0 <= i < self.edges().len(),
        ensures
            self.spec_child(self.edges()[i].0) == Some(self.edges()[i].1),
            self.child_index(self.edges()[i].0) == i,
    {
        let k = self.edges()[i].0;
        assert(self.has_child(k));
        let j = self.child_index(k);
        assert(0 <= j < self.edges().len() && self.edges()[j].0 == k);
        if i < j {
            assert(self.edges()[i].0 != self.edges()[j].0);
        } else if j < i {
            assert(self.edges()[j].0 != self.edges()[i].0);
        }
    }

    /// Initializes a node with no children and no payload.
    pub fn new() -> (n: Node<K, V>)
        ensures
            n.spec_payload() is None,
            n.child_count() == 0,
            n.is_bare(),
            n.wf(),
            n.pruned(),
            forall|key: Seq<K>| n.spec_get(key) is None,
    {
        let n = Node { children: Vec::new(), payload: None };
        proof {
            assert forall|key: Seq<K>| n.spec_get(key) is None by {
                if key.len() > 0 {
                    assert(!n.has_child(key[0]));
                }
            }
        }
        n
    }

    /// Returns whether this node holds a payload (is the end of a key).
    pub fn is_end(&self) -> (r: bool)
        ensures
            r == (self.spec_payload() is Some),
    {
        self.payload.is_some()
    }

    /// Stores a payload in this node; the children are untouched.
    pub fn set_data(&mut self, data: V)
        ensures
            final(self).spec_payload() == Some(data),
            final(self).edges() == old(self).edges(),
    {
        self.payload = Some(data);
    }

    /// Clears the payload of this node; the children are untouched.
    pub fn remove_data(&mut self)
        ensures
            final(self).spec_payload() is None,
            final(self).edges() == old(self).edges(),
    {
        self.payload = None;
    }

    /// Returns the payload of this node.
    pub fn get_data(&self) -> (r: Option<&V>)
        ensures
            r is Some <==> self.spec_payload() is Some,
            r is Some ==> *r->0 == self.spec_payload()->0,
    {
        self.payload.as_ref()
    }

    /// Finds the position of the edge labelled `letter`, if there is one.
    fn find_child(&self, letter: &K) -> (r: Option<usize>)
        requires
            self.wf(),
        ensures
            match r {
                Some(i) => {
                    &&& i < self.edges().len()
                    &&& self.edges()[i as int].0 == *letter
                    &&& self.child_index(*letter) == i
                    &&& self.spec_child(*letter) == Some(self.edges()[i as int].1)
                },
                None => !self.has_child(*letter),
            },
    {
        let n = self.children.len();
        for i in 0..n
            invariant
                self.wf(),
                n == self.edges().len(),
                forall|j: int| 0 <= j < i ==> (#[trigger] self.edges()[j]).0 != *letter,
        {
            if self.children[i].0.eq_symbol(letter) {
                proof {
                    self.lemma_child_at(i as int);
                }
                return Some(i);
            }
        }
        proof {
            assert(!self.has_child(*letter));
        }
        None
    }

    /// Returns the child for the given symbol.
    pub fn get_opt(&self, letter: &K) -> (r: Option<&Node<K, V>>)
        requires
            self.wf(),
        ensures
            r is Some <==> self.spec_child(*letter) is Some,
            r is Some ==> *r->0 == self.spec_child(*letter)->0,
    {
        match self.find_child(letter) {
            Some(i) => Some(&self.children[i].1),
            None => None,
        }
    }

    /// Returns the child for the given symbol, for writing.
    pub fn get_opt_mut(&mut self, letter: &K) -> (r: Option<&mut Node<K, V>>)
        requires
            old(self).wf(),
        ensures
            match old(self).spec_child(*letter) {
                None => r is None && *final(self) == *old(self),
                Some(c) => {
                    &&& r is Some
                    &&& *r.unwrap() == c
                    &&& final(self).spec_payload() == old(self).spec_payload()
                    &&& final(self).edges() == old(self).edges().update(
                        old(self).child_index(*letter),
                        (*letter, *final(r.unwrap())),
                    )
                },
            },
    {
        match self.find_child(letter) {
            Some(i) => Some(&mut self.children[i].1),
            None => None,
        }
    }

    /// Returns the payload of this node, for writing.
    pub fn get_mut_data(&mut self) -> (r: Option<&mut V>)
        ensures
            final(self).edges() == old(self).edges(),
            match old(self).spec_payload() {
                None => r is None && final(self).spec_payload() is None,
                Some(v) => {
                    &&& r is Some
                    &&& *r.unwrap() == v
                    &&& final(self).spec_payload() == Some(*final(r.unwrap()))
                },
            },
    {
        self.payload.as_mut()
    }

    /// A bare node stores nothing, under any key.
    proof fn lemma_bare_get(self, s: Seq<K>)
        requires
            self.is_bare(),
        ensures
            self.spec_get(s) is None,
    {
        if s.len() > 0 {
            assert(!self.has_child(s[0]));
        }
    }

    /// Returns the child for `letter`, creating a bare child first when there
    /// is none. The final edges of the node are pinned relative to the final
    /// value written through the returned reference.
    pub fn get_or_init(&mut self, letter: &K) -> (r: &mut Node<K, V>)
        requires
            old(self).wf(),
        ensures
            final(self).spec_payload() == old(self).spec_payload(),
            match old(self).spec_child(*letter) {
                Some(c) => {
                    &&& *r == c
                    &&& final(self).edges() == old(self).edges().update(
                        old(self).child_index(*letter),
                        (*letter, *final(r)),
                    )
                },
                None => {
                    &&& r.is_bare()
                    &&& final(self).edges().len() == old(self).edges().len() + 1
                    &&& final(self).edges().last() == (*letter, *final(r))
                    &&& forall|j: int|
                        0 <= j < old(self).edges().len() ==> final(self).edges()[j] == old(
                            self,
                        ).edges()[j]
                },
            },
    {
        let idx: usize;
        match self.find_child(letter) {
            Some(i) => {
                idx = i;
            }
            None => {
                self.children.push((*letter, Node::new()));
                idx = self.children.len() - 1;
            }
        }
        &mut self.children[idx].1
    }

    /// Walks or creates the nodes for `key[i..]` below this node, then stores
    /// `value` at the node reached.
    fn insert_below(&mut self, key: &[K], i: usize, value: V)
        requires
            old(self).wf(),
            i <= key@.len(),
        ensures
            final(self).wf(),
            !final(self).is_bare(),
            old(self).pruned() ==> final(self).pruned(),
            final(self).spec_get(key@.skip(i as int)) == Some(value),
            forall|s: Seq<K>|
                s != key@.skip(i as int) ==> final(self).spec_get(s) == old(self).spec_get(s),
        decreases key@.len() - i,
    {
        if i == key.len() {
            self.set_data(value);
            proof {
                assert(key@.skip(i as int) =~= Seq::<K>::empty());
                assert forall|s: Seq<K>| s != key@.skip(i as int) implies final(self).spec_get(s)
                    == old(self).spec_get(s) by {
                    if s.len() == 0 {
                        assert(s =~= key@.skip(i as int));
                    } else {
                        assert(final(self).spec_child(s[0]) == old(self).spec_child(s[0]));
                    }
                }
            }
        } else {
            let letter = key[i];
            let idx: usize;
            match self.find_child(&letter) {
                Some(j) => {
                    idx = j;
                }
                None => {
                    self.children.push((letter, Node::new()));
                    idx = self.children.len() - 1;
                }
            }
            let ghost mid = *self;
            let ghost c0 = mid.edges()[idx as int].1;
            proof {
                assert(mid.wf()) by {
                    if !old(self).has_child(letter) {
                        assert(forall|j: int|
                            0 <= j < old(self).edges().len() ==> mid.edges()[j] == old(
                                self,
                            ).edges()[j]);
                    }
                }
                mid.lemma_child_at(idx as int);
            }
            self.children[idx].1.insert_below(key, i + 1, value);
            proof {
                let post = *final(self);
                let tail = key@.skip(i as int);
                let c1 = post.edges()[idx as int].1;
                assert(post.edges() == mid.edges().update(idx as int, (letter, c1)));
                assert(post.wf()) by {
                    assert(forall|j: int|
                        0 <= j < post.edges().len() && j != idx ==> post.edges()[j] == mid.edges()[j]);
                }
                post.lemma_child_at(idx as int);
                assert(post.spec_child(letter) == Some(c1));
                assert forall|k: K| k != letter implies post.spec_child(k) == mid.spec_child(k) by {
                    if post.has_child(k) {
                        let j = post.child_index(k);
                        assert(post.edges()[j].0 == k);
                        assert(j != idx);
                        assert(mid.edges()[j].0 == k);
                        mid.lemma_child_at(j);
                        post.lemma_child_at(j);
                    } else if mid.has_child(k) {
                        let j = mid.child_index(k);
                        assert(mid.edges()[j].0 == k);
                        assert(j != idx);
                        assert(post.edges()[j].0 == k);
                        assert(post.has_child(k));
                    }
                }
                assert forall|k: K| k != letter implies mid.spec_child(k) == old(self).spec_child(
                    k,
                ) by {
                    if old(self).has_child(letter) {
                        assert(mid == *old(self));
                    } else {
                        if mid.has_child(k) {
                            let j = mid.child_index(k);
                            assert(mid.edges()[j].0 == k);
                            assert(j != mid.edges().len() - 1);
                            assert(old(self).edges()[j].0 == k);
                            old(self).lemma_child_at(j);
                            mid.lemma_child_at(j);
                        } else if old(self).has_child(k) {
                            let j = old(self).child_index(k);
                            assert(old(self).edges()[j].0 == k);
                            assert(mid.edges()[j].0 == k);
                            assert(mid.has_child(k));
                        }
                    }
                }
                // the key just stored
                assert(tail[0] == letter);
                assert(tail.drop_first() =~= key@.skip(i as int + 1));
                assert(post.spec_get(tail) == Some(value));
                // pruning is preserved: the subtree written into place `idx`
                // is itself pruned and not bare, every other child is as it was
                if old(self).pruned() {
                    assert forall|j: int|
                        0 <= j < post.edges().len() implies (#[trigger] post.edges()[j]).1.pruned()
                        && !post.edges()[j].1.is_bare() by {
                        if j != idx {
                            assert(post.edges()[j] == old(self).edges()[j]);
                        } else {
                            assert(c0.pruned());
                        }
                    }
                }
                // every other key is untouched
                assert forall|s: Seq<K>| s != tail implies post.spec_get(s) == old(self).spec_get(
                    s,
                ) by {
                    if s.len() == 0 {
                        assert(post.spec_payload() == old(self).spec_payload());
                    } else if s[0] != letter {
                        assert(post.spec_child(s[0]) == old(self).spec_child(s[0]));
                    } else {
                        assert(s.drop_first() != key@.skip(i as int + 1)) by {
                            if s.drop_first() == key@.skip(i as int + 1) {
                                assert forall|j: int| 0 <= j < s.len() implies s[j] == tail[j] by {
                                    if j > 0 {
                                        assert(s[j] == s.drop_first()[j - 1]);
                                        assert(tail[j] == tail.drop_first()[j - 1]);
                                    }
                                }
                                assert(s =~= tail);
                            }
                        }
                        assert(post.spec_get(s) == c1.spec_get(s.drop_first()));
                        assert(c1.spec_get(s.drop_first()) == c0.spec_get(s.drop_first()));
                        if old(self).has_child(letter) {
                            assert(old(self).spec_child(letter) == Some(c0));
                        } else {
                            c0.lemma_bare_get(s.drop_first());
                            assert(old(self).spec_get(s) is None);
                        }
                    }
                }
            }
        }
    }

    /// Replacing the subtree at edge `j` in place: the child for that label
    /// becomes the new subtree, every other child and every key not starting
    /// with that label is untouched.
    proof fn lemma_update_edge(pre: Node<K, V>, post: Node<K, V>, j: int)
        requires
            pre.wf(),
            0 <= j < pre.edges().len(),
            post.edges() == pre.edges().update(j, (pre.edges()[j].0, post.edges()[j].1)),
            post.spec_payload() == pre.spec_payload(),
        ensures
            post.labels_distinct(),
            post.edges()[j].1.wf() ==> post.wf(),
            post.spec_child(pre.edges()[j].0) == Some(post.edges()[j].1),
            forall|k: K| k != pre.edges()[j].0 ==> post.spec_child(k) == pre.spec_child(k),
            forall|s: Seq<K>|
                s.len() == 0 || s[0] != pre.edges()[j].0 ==> post.spec_get(s) == pre.spec_get(s),
    {
        let letter = pre.edges()[j].0;
        assert(forall|x: int|
            0 <= x < post.edges().len() && x != j ==> post.edges()[x] == pre.edges()[x]);
        post.lemma_child_at(j);
        assert forall|k: K| k != letter implies post.spec_child(k) == pre.spec_child(k) by {
            if post.has_child(k) {
                let x = post.child_index(k);
                assert(post.edges()[x].0 == k);
                assert(x != j);
                assert(pre.edges()[x].0 == k);
                pre.lemma_child_at(x);
                post.lemma_child_at(x);
            } else if pre.has_child(k) {
                let x = pre.child_index(k);
                assert(pre.edges()[x].0 == k);
                assert(x != j);
                assert(post.edges()[x].0 == k);
                assert(post.has_child(k));
            }
        }
        assert forall|s: Seq<K>|
            s.len() == 0 || s[0] != letter implies post.spec_get(s) == pre.spec_get(s) by {
            if s.len() > 0 {
                assert(post.spec_child(s[0]) == pre.spec_child(s[0]));
            }
        }
    }

    /// Removing the edge at position `j`: the child for that label is gone,
    /// every other child is untouched, and when the removed subtree was bare
    /// no stored key is touched at all.
    proof fn lemma_remove_edge(pre: Node<K, V>, post: Node<K, V>, j: int)
        requires
            pre.wf(),
            0 <= j < pre.edges().len(),
            post.edges() == pre.edges().remove(j),
            post.spec_payload() == pre.spec_payload(),
        ensures
            post.wf(),
            post.spec_child(pre.edges()[j].0) is None,
            forall|k: K| k != pre.edges()[j].0 ==> post.spec_child(k) == pre.spec_child(k),
            pre.edges()[j].1.is_bare() ==> forall|s: Seq<K>|
                post.spec_get(s) == pre.spec_get(s),
    {
        let letter = pre.edges()[j].0;
        assert(forall|x: int|
            0 <= x < post.edges().len() ==> post.edges()[x] == (if x < j {
                pre.edges()[x]
            } else {
                pre.edges()[x + 1]
            }));
        assert(post.wf()) by {
            assert forall|x: int, y: int|
                0 <= x < y < post.edges().len() implies (#[trigger] post.edges()[x]).0 != (
            #[trigger] post.edges()[y]).0 by {}
        }
        assert forall|x: int| 0 <= x < post.edges().len() implies (#[trigger] post.edges()[x]).0
            != letter by {
            if x < j {
                assert(pre.edges()[x].0 != pre.edges()[j].0);
            } else {
                assert(pre.edges()[j].0 != pre.edges()[x + 1].0);
            }
        }
        assert(!post.has_child(letter));
        assert forall|k: K| k != letter implies post.spec_child(k) == pre.spec_child(k) by {
            if post.has_child(k) {
                let x = post.child_index(k);
                assert(post.edges()[x].0 == k);
                if x < j {
                    pre.lemma_child_at(x);
                } else {
                    pre.lemma_child_at(x + 1);
                }
                post.lemma_child_at(x);
            } else if pre.has_child(k) {
                let x = pre.child_index(k);
                assert(pre.edges()[x].0 == k);
                assert(x != j);
                if x < j {
                    assert(post.edges()[x].0 == k);
                } else {
                    assert(post.edges()[x - 1].0 == k);
                }
                assert(post.has_child(k));
            }
        }
        if pre.edges()[j].1.is_bare() {
            assert forall|s: Seq<K>| post.spec_get(s) == pre.spec_get(s) by {
                if s.len() > 0 {
                    if s[0] == letter {
                        pre.lemma_child_at(j);
                        pre.edges()[j].1.lemma_bare_get(s.drop_first());
                        assert(pre.spec_get(s) is None);
                        assert(post.spec_get(s) is None);
                    } else {
                        assert(post.spec_child(s[0]) == pre.spec_child(s[0]));
                    }
                }
            }
        }
    }

    /// Removes the child for `letter` when that child is bare (no children
    /// and no payload); reports whether a removal happened. The stored keys
    /// are untouched either way: only a dead branch is collapsed.
    pub fn remove_if_possible(&mut self, letter: &K) -> (r: bool)
        requires
            old(self).wf(),
        ensures
            final(self).wf(),
            final(self).spec_payload() == old(self).spec_payload(),
            r == (old(self).spec_child(*letter) matches Some(c) && c.is_bare()),
            !r ==> *final(self) == *old(self),
            r ==> final(self).edges() == old(self).edges().remove(old(self).child_index(*letter)),
            r ==> final(self).spec_child(*letter) is None,
            forall|k: K| k != *letter ==> final(self).spec_child(k) == old(self).spec_child(k),
            forall|s: Seq<K>| final(self).spec_get(s) == old(self).spec_get(s),
    {
        match self.find_child(letter) {
            None => false,
            Some(i) => {
                let bare = self.children[i].1.children.is_empty() && self.children[i].1.payload.is_none();
                if bare {
                    self.children.remove(i);
                    proof {
                        Self::lemma_remove_edge(*old(self), *self, i as int);
                    }
                    true
                } else {
                    false
                }
            }
        }
    }

    /// Deletes the key `key[i..]` below this node: clears the payload of the
    /// node reached, then prunes every branch that the deletion left bare,
    /// bottom-up. Reports whether a payload was present. No other key is
    /// touched, and a garbage-free subtree stays garbage-free.
    fn delete_below(&mut self, key: &[K], i: usize) -> (r: bool)
        requires
            old(self).wf(),
            i <= key@.len(),
        ensures
            final(self).wf(),
            r == (old(self).spec_get(key@.skip(i as int)) is Some),
            old(self).pruned() ==> final(self).pruned(),
            !r ==> final(self).is_bare() == old(self).is_bare(),
            forall|s: Seq<K>|
                final(self).spec_get(s) == (if s == key@.skip(i as int) {
                    None::<V>
                } else {
                    old(self).spec_get(s)
                }),
        decreases key@.len() - i,
    {
        if i == key.len() {
            let had = self.is_end();
            self.remove_data();
            proof {
                assert(key@.skip(i as int) =~= Seq::<K>::empty());
                assert forall|s: Seq<K>|
                    final(self).spec_get(s) == (if s == key@.skip(i as int) {
                        None::<V>
                    } else {
                        old(self).spec_get(s)
                    }) by {
                    if s.len() == 0 {
                        assert(s =~= key@.skip(i as int));
                    } else {
                        assert(final(self).spec_child(s[0]) == old(self).spec_child(s[0]));
                    }
                }
            }
            had
        } else {
            let letter = key[i];
            match self.find_child(&letter) {
                None => {
                    proof {
                        let tail = key@.skip(i as int);
                        assert(tail[0] == letter);
                        assert(old(self).spec_get(tail) is None);
                    }
                    false
                }
                Some(j) => {
                    let ghost pre = *self;
                    let ghost c0 = pre.edges()[j as int].1;
                    proof {
                        pre.lemma_child_at(j as int);
                    }
                    let deleted = self.children[j].1.delete_below(key, i + 1);
                    let ghost mid = *self;
                    let ghost c1 = mid.edges()[j as int].1;
                    proof {
                        assert(mid.edges() == pre.edges().update(j as int, (letter, c1)));
                        Self::lemma_update_edge(pre, mid, j as int);
                    }
                    if deleted {
                        self.remove_if_possible(&letter);
                    }
                    proof {
                        let tail = key@.skip(i as int);
                        let tail1 = key@.skip(i as int + 1);
                        let post = *final(self);
                        assert(tail[0] == letter);
                        assert(tail.drop_first() =~= tail1);
                        assert(pre.spec_get(tail) == c0.spec_get(tail1));
                        // what survives of the middle state
                        assert(post.wf());
                        assert(forall|s: Seq<K>| post.spec_get(s) == mid.spec_get(s));
                        mid.lemma_child_at(j as int);
                        // every key other than the deleted one is untouched
                        assert forall|s: Seq<K>|
                            post.spec_get(s) == (if s == tail {
                                None::<V>
                            } else {
                                pre.spec_get(s)
                            }) by {
                            if s.len() == 0 {
                                assert(mid.spec_get(s) == pre.spec_get(s));
                                assert(s != tail);
                            } else if s[0] != letter {
                                assert(mid.spec_get(s) == pre.spec_get(s));
                                assert(s != tail);
                            } else {
                                assert(mid.spec_get(s) == c1.spec_get(s.drop_first()));
                                assert(pre.spec_get(s) == c0.spec_get(s.drop_first()));
                                if s == tail {
                                    assert(c1.spec_get(tail1) is None);
                                } else {
                                    assert(s.drop_first() != tail1) by {
                                        if s.drop_first() == tail1 {
                                            assert forall|x: int| 0 <= x < s.len() implies s[x]
                                                == tail[x] by {
                                                if x > 0 {
                                                    assert(s[x] == s.drop_first()[x - 1]);
                                                    assert(tail[x] == tail.drop_first()[x - 1]);
                                                }
                                            }
                                            assert(s =~= tail);
                                        }
                                    }
                                    assert(c1.spec_get(s.drop_first()) == c0.spec_get(
                                        s.drop_first(),
                                    ));
                                }
                            }
                        }
                        // a garbage-free subtree stays garbage-free
                        if pre.pruned() {
                            assert(c0.pruned() && !c0.is_bare());
                            assert forall|x: int|
                                0 <= x < post.edges().len() implies (#[trigger] post.edges()[x]).1.pruned()
                                && !post.edges()[x].1.is_bare() by {
                                if deleted && (mid.spec_child(letter) matches Some(c) && c.is_bare()) {
                                    // the bare branch was removed; the rest is as before
                                    assert(post.edges() == mid.edges().remove(
                                        mid.child_index(letter),
                                    ));
                                    assert(mid.child_index(letter) == j);
                                    if x < j {
                                        assert(post.edges()[x] == pre.edges()[x]);
                                    } else {
                                        assert(post.edges()[x] == pre.edges()[x + 1]);
                                    }
                                } else {
                                    assert(post == mid);
                                    if x != j {
                                        assert(mid.edges()[x] == pre.edges()[x]);
                                    } else {
                                        assert(c1.pruned());
                                        assert(!c1.is_bare());
                                    }
                                }
                            }
                        }
                        // nothing removed leaves the node as bare as it was
                        if !deleted {
                            assert(post == mid);
                            assert(mid.edges().len() == pre.edges().len());
                        }
                    }
                    deleted
                }
            }
        }
    }

    /// After grafting a subtree in place of edge `j`, the keys of the node are
    /// those of the graft below that label, and the old keys elsewhere.
    proof fn lemma_graft_get(pre: Node<K, V>, mid: Node<K, V>, j: int, s: Seq<K>)
        requires
            pre.wf(),
            0 <= j < pre.edges().len(),
            mid.edges() == pre.edges().update(j, (pre.edges()[j].0, mid.edges()[j].1)),
            mid.spec_payload() == pre.spec_payload(),
        ensures
            mid.spec_get(s) == (if s.len() > 0 && s[0] == pre.edges()[j].0 {
                mid.edges()[j].1.spec_get(s.drop_first())
            } else {
                pre.spec_get(s)
            }),
            s.len() > 0 && s[0] == pre.edges()[j].0 ==> pre.spec_get(s) == pre.edges()[j].1.spec_get(
                s.drop_first(),
            ),
    {
        Self::lemma_update_edge(pre, mid, j);
        pre.lemma_child_at(j);
        if s.len() > 0 && s[0] != pre.edges()[j].0 {
            assert(mid.spec_child(s[0]) == pre.spec_child(s[0]));
        }
    }

    /// Returns the value stored for `key[i..]` below this node, for writing.
    /// Nothing else is touched: every other key keeps its value, and the
    /// shape of the subtree is kept as it was.
    fn get_mut_below(&mut self, key: &[K], i: usize) -> (r: Option<&mut V>)
        requires
            old(self).wf(),
            i <= key@.len(),
        ensures
            final(self).wf(),
            old(self).pruned() ==> final(self).pruned(),
            final(self).is_bare() == old(self).is_bare(),
            match old(self).spec_get(key@.skip(i as int)) {
                None => r is None && (forall|s: Seq<K>|
                    final(self).spec_get(s) == old(self).spec_get(s)),
                Some(v) => {
                    &&& r is Some
                    &&& *r.unwrap() == v
                    &&& (forall|s: Seq<K>|
                        final(self).spec_get(s) == (if s == key@.skip(i as int) {
                            Some(*final(r.unwrap()))
                        } else {
                            old(self).spec_get(s)
                        }))
                },
            },
        decreases key@.len() - i,
    {
        if i == key.len() {
            proof {
                let tail = key@.skip(i as int);
                assert(tail =~= Seq::<K>::empty());
                assert forall|b: Node<K, V>, s: Seq<K>|
                    b.edges() == self.edges() && s.len() > 0 implies #[trigger] b.spec_get(s)
                    == self.spec_get(s) by {
                    assert(b.spec_child(s[0]) == self.spec_child(s[0]));
                }
                assert forall|b: Node<K, V>|
                    b.edges() == self.edges() implies (#[trigger] b.wf() <==> self.wf()) && (
                b.pruned() <==> self.pruned()) by {}
                assert forall|s: Seq<K>| s != tail implies s.len() > 0 by {
                    if s.len() == 0 {
                        assert(s =~= tail);
                    }
                }
            }
            self.get_mut_data()
        } else {
            let letter = key[i];
            match self.find_child(&letter) {
                None => {
                    proof {
                        let tail = key@.skip(i as int);
                        assert(tail[0] == letter);
                        assert(old(self).spec_get(tail) is None);
                    }
                    None
                }
                Some(j) => {
                    proof {
                        let pre = *self;
                        let tail = key@.skip(i as int);
                        let tail1 = key@.skip(i as int + 1);
                        let c0 = pre.edges()[j as int].1;
                        pre.lemma_child_at(j as int);
                        assert(tail[0] == letter);
                        assert(tail.drop_first() =~= tail1);
                        assert(pre.spec_get(tail) == c0.spec_get(tail1)) by {
                            assert(pre.edges() == pre.edges().update(
                                j as int,
                                (letter, pre.edges()[j as int].1),
                            ));
                            Self::lemma_graft_get(pre, pre, j as int, tail);
                        }
                        // any sequence that agrees with the key below this
                        // symbol is the key itself
                        assert forall|s: Seq<K>|
                            s.len() > 0 && s[0] == letter && s.drop_first() == tail1 implies s
                            == tail by {
                            assert forall|x: int| 0 <= x < s.len() implies s[x] == tail[x] by {
                                if x > 0 {
                                    assert(s[x] == s.drop_first()[x - 1]);
                                    assert(tail[x] == tail.drop_first()[x - 1]);
                                }
                            }
                            assert(s =~= tail);
                        }
                        // what any graft at edge `j` does to this node
                        assert forall|mid: Node<K, V>, s: Seq<K>|
                            mid.edges() == pre.edges().update(
                                j as int,
                                (letter, mid.edges()[j as int].1),
                            ) && mid.spec_payload() == pre.spec_payload() implies #[trigger] mid.spec_get(
                            s,
                        ) == (if s.len() > 0 && s[0] == letter {
                            mid.edges()[j as int].1.spec_get(s.drop_first())
                        } else {
                            pre.spec_get(s)
                        }) by {
                            Self::lemma_graft_get(pre, mid, j as int, s);
                        }
                        assert forall|mid: Node<K, V>|
                            mid.edges() == pre.edges().update(
                                j as int,
                                (letter, mid.edges()[j as int].1),
                            ) && mid.spec_payload() == pre.spec_payload() && #[trigger] mid.edges()[j as int].1.wf()
                            implies mid.wf() by {
                            Self::lemma_update_edge(pre, mid, j as int);
                        }
                        assert forall|mid: Node<K, V>|
                            mid.edges() == pre.edges().update(
                                j as int,
                                (letter, mid.edges()[j as int].1),
                            ) && pre.pruned() && #[trigger] mid.edges()[j as int].1.pruned()
                            && !mid.edges()[j as int].1.is_bare() implies mid.pruned() by {
                            assert forall|x: int|
                                0 <= x < mid.edges().len() implies (#[trigger] mid.edges()[x]).1.pruned()
                                && !mid.edges()[x].1.is_bare() by {
                                if x != j {
                                    assert(mid.edges()[x] == pre.edges()[x]);
                                }
                            }
                        }
                    }
                    self.children[j].1.get_mut_below(key, i + 1)
                }
            }
        }
    }

    /// Returns the children of this node, as labelled edges.
    pub fn get_children(&self) -> (r: &Vec<(K, Node<K, V>)>)
        ensures
            r@ == self.edges(),
    {
        &self.children
    }

    /// Collects one full key, `prefix` extended by the key's path below this
    /// node, for every key stored in this subtree, by a depth-first walk.
    /// The collected keys are exactly those, each once; their order carries
    /// no meaning.
    fn keys_below(&self, prefix: Vec<K>) -> (r: Vec<Vec<K>>)
        requires
            self.wf(),
        ensures
            forall|s: Seq<K>| #[trigger]
                self.spec_get(s) is Some ==> key_views(r@).contains(prefix@ + s),
            forall|t: Seq<K>| #[trigger]
                key_views(r@).contains(t) ==> prefix@.is_prefix_of(t) && self.spec_get(
                    t.skip(prefix@.len() as int),
                ) is Some,
            key_views(r@).no_duplicates(),
        decreases self,
    {
        let mut returned_values: Vec<Vec<K>> = Vec::new();
        let n = self.children.len();
        let ghost plen = prefix@.len() as int;
        for j in 0..n
            invariant
                self.wf(),
                n == self.edges().len(),
                plen == prefix@.len(),
                forall|t: Seq<K>| #[trigger]
                    key_views(returned_values@).contains(t) ==> {
                        &&& prefix@.is_prefix_of(t)
                        &&& t.len() > plen
                        &&& self.spec_get(t.skip(plen)) is Some
                        &&& exists|x: int|
                            0 <= x < j && (#[trigger] self.edges()[x]).0 == t[plen]
                    },
                forall|s: Seq<K>|
                    (s.len() > 0 && (exists|x: int|
                        0 <= x < j && (#[trigger] self.edges()[x]).0 == s[0]) && #[trigger] self.spec_get(
                        s,
                    ) is Some) ==> key_views(returned_values@).contains(prefix@ + s),
                key_views(returned_values@).no_duplicates(),
        {
            let ghost pre_acc = returned_values@;
            let mut prefix_for_child = vstd::slice::slice_to_vec(prefix.as_slice());
            prefix_for_child.push(self.children[j].0);
            let ghost cprefix = prefix_for_child@;
            let ghost letter = self.edges()[j as int].0;
            let ghost child = self.edges()[j as int].1;
            proof {
                self.lemma_child_at(j as int);
                assert(cprefix =~= prefix@ + seq![letter]);
            }
            let mut sub = self.children[j].1.keys_below(prefix_for_child);
            let ghost sub_keys = key_views(sub@);
            returned_values.append(&mut sub);
            proof {
                assert(key_views(returned_values@) =~= key_views(pre_acc) + sub_keys);
                let acc = key_views(returned_values@);
                // what the new batch holds
                assert forall|t: Seq<K>| #[trigger] sub_keys.contains(t) implies {
                    &&& prefix@.is_prefix_of(t)
                    &&& t.len() > plen
                    &&& t[plen] == letter
                    &&& self.spec_get(t.skip(plen)) is Some
                } by {
                    assert(cprefix.is_prefix_of(t));
                    assert(child.spec_get(t.skip(plen + 1)) is Some);
                    let s = t.skip(plen);
                    assert(t[plen] == cprefix[plen]);
                    assert(s.len() > 0);
                    assert(s[0] == letter);
                    assert(s.drop_first() =~= t.skip(plen + 1));
                    assert(self.spec_child(letter) == Some(child));
                    assert(self.spec_get(s) == child.spec_get(s.drop_first()));
                    assert(prefix@ =~= t.subrange(0, plen));
                }
                // membership in the joined collection splits over its parts
                assert forall|t: Seq<K>| #[trigger] acc.contains(t) implies key_views(
                    pre_acc,
                ).contains(t) || sub_keys.contains(t) by {
                    let x = choose|x: int| 0 <= x < acc.len() && acc[x] == t;
                    if x < pre_acc.len() {
                        assert(key_views(pre_acc)[x] == t);
                    } else {
                        assert(sub_keys[x - pre_acc.len()] == t);
                    }
                }
                // soundness of the accumulator is kept
                assert forall|t: Seq<K>| #[trigger] acc.contains(t) implies {
                    &&& prefix@.is_prefix_of(t)
                    &&& t.len() > plen
                    &&& self.spec_get(t.skip(plen)) is Some
                    &&& exists|x: int|
                        0 <= x < j + 1 && (#[trigger] self.edges()[x]).0 == t[plen]
                } by {
                    if key_views(pre_acc).contains(t) {
                    } else {
                        assert(sub_keys.contains(t));
                        assert(self.edges()[j as int].0 == t[plen]);
                    }
                }
                // completeness of the accumulator is kept
                assert forall|s: Seq<K>|
                    (s.len() > 0 && (exists|x: int|
                        0 <= x < j + 1 && (#[trigger] self.edges()[x]).0 == s[0])
                        && #[trigger] self.spec_get(s) is Some) implies acc.contains(
                    prefix@ + s,
                ) by {
                    let x = choose|x: int|
                        0 <= x < j + 1 && (#[trigger] self.edges()[x]).0 == s[0];
                    if x < j {
                        assert(key_views(pre_acc).contains(prefix@ + s));
                        let y = choose|y: int|
                            0 <= y < key_views(pre_acc).len() && key_views(pre_acc)[y] == prefix@
                                + s;
                        assert(acc[y] == prefix@ + s);
                    } else {
                        // the key runs below the child just walked
                        assert(self.edges()[j as int].0 == s[0]);
                        assert(self.spec_child(s[0]) == Some(child));
                        assert(child.spec_get(s.drop_first()) is Some);
                        assert(sub_keys.contains(cprefix + s.drop_first()));
                        assert(cprefix + s.drop_first() =~= prefix@ + s);
                        let y = choose|y: int|
                            0 <= y < sub_keys.len() && sub_keys[y] == prefix@ + s;
                        assert(acc[pre_acc.len() + y] == prefix@ + s);
                    }
                }
                // no key is collected twice: the parts hold no duplicates and
                // share no key, the new batch being below a fresh edge label
                assert forall|x: int, y: int|
                    0 <= x < acc.len() && 0 <= y < acc.len() && x != y implies acc[x] != acc[y] by {
                    if x < pre_acc.len() && y < pre_acc.len() {
                        assert(key_views(pre_acc)[x] != key_views(pre_acc)[y]);
                    } else if x >= pre_acc.len() && y >= pre_acc.len() {
                        assert(sub_keys[x - pre_acc.len()] != sub_keys[y - pre_acc.len()]);
                    } else {
                        let (a, b) = if x < pre_acc.len() {
                            (x, y)
                        } else {
                            (y, x)
                        };
                        let ta = acc[a];
                        let tb = acc[b];
                        assert(key_views(pre_acc).contains(ta));
                        assert(sub_keys.contains(tb));
                        assert(tb[plen] == letter);
                        let w = choose|w: int|
                            0 <= w < j && (#[trigger] self.edges()[w]).0 == ta[plen];
                        assert(self.edges()[w].0 != self.edges()[j as int].0);
                        assert(ta[plen] != tb[plen]);
                    }
                }
            }
        }
        let ghost walked = key_views(returned_values@);
        if self.is_end() {
            returned_values.push(prefix);
            proof {
                assert(key_views(returned_values@) =~= walked.push(prefix@));
            }
        }
        proof {
            let acc = key_views(returned_values@);
            assert forall|s: Seq<K>| #[trigger] self.spec_get(s) is Some implies acc.contains(
                prefix@ + s,
            ) by {
                if s.len() == 0 {
                    assert(prefix@ + s =~= prefix@);
                    assert(acc[acc.len() - 1] == prefix@);
                } else {
                    assert(self.has_child(s[0]));
                    let x = self.child_index(s[0]);
                    assert(self.edges()[x].0 == s[0]);
                    assert(walked.contains(prefix@ + s));
                    let y = choose|y: int| 0 <= y < walked.len() && walked[y] == prefix@ + s;
                    assert(acc[y] == prefix@ + s);
                }
            }
            assert forall|t: Seq<K>| #[trigger] acc.contains(t) implies prefix@.is_prefix_of(t)
                && self.spec_get(t.skip(prefix@.len() as int)) is Some by {
                let x = choose|x: int| 0 <= x < acc.len() && acc[x] == t;
                if x < walked.len() {
                    assert(walked[x] == t);
                    assert(walked.contains(t));
                } else {
                    assert(t == prefix@);
                    assert(t.skip(plen) =~= Seq::<K>::empty());
                    assert(prefix@.is_prefix_of(t)) by {
                        assert(prefix@ =~= t.subrange(0, plen));
                    }
                }
            }
            assert(acc.no_duplicates()) by {
                assert forall|x: int, y: int|
                    0 <= x < acc.len() && 0 <= y < acc.len() && x != y implies acc[x] != acc[y] by {
                    if x < walked.len() && y < walked.len() {
                        assert(walked[x] != walked[y]);
                    } else {
                        let (a, b) = if x < walked.len() {
                            (x, y)
                        } else {
                            (y, x)
                        };
                        if a < walked.len() {
                            assert(walked.contains(walked[a]));
                            assert(acc[a].len() > plen);
                            assert(acc[b] == prefix@);
                        }
                    }
                }
            }
        }
        returned_values
    }

    /// Walking a concatenated path walks its two parts in turn.
    proof fn lemma_node_at_concat(self, p: Seq<K>, q: Seq<K>)
        ensures
            self.spec_node_at(p + q) == (match self.spec_node_at(p) {
                Some(n) => n.spec_node_at(q),
                None => None::<Node<K, V>>,
            }),
        decreases p.len(),
    {
        if p.len() == 0 {
            assert(p + q =~= q);
        } else {
            assert((p + q)[0] == p[0]);
            assert((p + q).drop_first() =~= p.drop_first() + q);
            if self.spec_child(p[0]) is Some {
                self.spec_child(p[0]).unwrap().lemma_node_at_concat(p.drop_first(), q);
            }
        }
    }

    /// Extending a walked path by one symbol steps to that child.
    proof fn lemma_node_at_snoc(self, p: Seq<K>, k: K)
        ensures
            self.spec_node_at(p.push(k)) == (match self.spec_node_at(p) {
                Some(n) => n.spec_child(k),
                None => None::<Node<K, V>>,
            }),
    {
        assert(p.push(k) =~= p + seq![k]);
        self.lemma_node_at_concat(p, seq![k]);
        if self.spec_node_at(p) is Some {
            let n = self.spec_node_at(p).unwrap();
            assert(seq![k].drop_first() =~= Seq::<K>::empty());
            if n.spec_child(k) is Some {
                let c = n.spec_child(k).unwrap();
                assert(seq![k][0] == k);
                assert(c.spec_node_at(Seq::<K>::empty()) == Some(c));
                assert(n.spec_node_at(seq![k]) == c.spec_node_at(seq![k].drop_first()));
                assert(n.spec_node_at(seq![k]) == n.spec_child(k));
            }
        }
    }

    /// Below a garbage-free node, every existing branch leads to a node that
    /// is itself garbage-free, and not bare unless it is the node itself.
    proof fn lemma_node_at_pruned(self, path: Seq<K>)
        requires
            self.pruned(),
            self.spec_node_at(path) is Some,
        ensures
            self.spec_node_at(path).unwrap().pruned(),
            path.len() > 0 ==> !self.spec_node_at(path).unwrap().is_bare(),
        decreases path.len(),
    {
        if path.len() > 0 {
            let c = self.spec_child(path[0]).unwrap();
            assert(c.pruned() && !c.is_bare());
            c.lemma_node_at_pruned(path.drop_first());
            if path.drop_first().len() == 0 {
                assert(self.spec_node_at(path) == Some(c));
            }
        }
    }

    /// A garbage-free node that is not bare stores at least one key.
    proof fn lemma_nonbare_has_key(self)
        requires
            self.pruned(),
            !self.is_bare(),
        ensures
            exists|s: Seq<K>| self.spec_get(s) is Some,
        decreases self,
    {
        if self.spec_payload() is Some {
            assert(self.spec_get(Seq::<K>::empty()) is Some);
        } else {
            let k0 = self.edges()[0].0;
            assert(self.has_child(k0));
            let c = self.spec_child(k0).unwrap();
            assert(c == self.edges()[self.child_index(k0)].1);
            assert(c.pruned() && !c.is_bare());
            c.lemma_nonbare_has_key();
            let s0 = choose|s0: Seq<K>| c.spec_get(s0) is Some;
            let s = seq![k0] + s0;
            assert(s[0] == k0);
            assert(s.drop_first() =~= s0);
            assert(self.spec_get(s) == c.spec_get(s0));
        }
    }

    /// The value stored for a key is the payload of the node its path reaches.
    proof fn lemma_get_via_node_at(self, key: Seq<K>)
        ensures
            self.spec_get(key) == (match self.spec_node_at(key) {
                Some(n) => n.spec_payload(),
                None => None::<V>,
            }),
        decreases key.len(),
    {
        if key.len() > 0 {
            if self.spec_child(key[0]) is Some {
                self.spec_child(key[0]).unwrap().lemma_get_via_node_at(key.drop_first());
            }
        }
    }
}

/// Prefix tree ("trie"): a map from symbol-sequence keys to values that can
/// also enumerate all stored keys sharing a given prefix. It owns exactly one
/// root node, and keeps two invariants: every node's edge labels are distinct,
/// and no bare node (childless and payloadless) hangs below the root — delete
/// prunes dead branches bottom-up the moment they arise.
pub struct Trie<K: Symbol, V> {
    /// The root of the prefix tree.
    root: Node<K, V>,
}

impl<K: Symbol, V> View for Trie<K, V> {
    type V = Map<Seq<K>, V>;

    /// The trie viewed as the map it stores.
    closed spec fn view(&self) -> Map<Seq<K>, V> {
        Map::new(
            |k: Seq<K>| self.root.spec_get(k) is Some,
            |k: Seq<K>| self.root.spec_get(k).unwrap(),
        )
    }
}

impl<K: Symbol, V> Trie<K, V> {
    /// The invariant every operation preserves: distinct edge labels at every
    /// node, and no bare node below the root.
    pub closed spec fn well_formed(self) -> bool {
        self.root.wf() && self.root.pruned()
    }

    /// Whether a node for the branch `path` exists in the tree.
    pub closed spec fn branch_exists(self, path: Seq<K>) -> bool {
        self.root.spec_node_at(path) is Some
    }

    /// Initializes an empty trie.
    pub fn init() -> (t: Trie<K, V>)
        ensures
            t.well_formed(),
            t@ == Map::<Seq<K>, V>::empty(),
    {
        let t = Trie { root: Node::new() };
        proof {
            assert(t@ =~= Map::<Seq<K>, V>::empty());
        }
        t
    }

    /// Inserts a value under the given key, overwriting any value already
    /// stored under exactly that key.
    pub fn insert(&mut self, key: &[K], value: V)
        requires
            old(self).well_formed(),
        ensures
            final(self).well_formed(),
            final(self)@ == old(self)@.insert(key@, value),
    {
        self.root.insert_below(key, 0, value);
        proof {
            assert(key@.skip(0) =~= key@);
            assert(self@ =~= old(self)@.insert(key@, value));
        }
    }

    /// Returns the node for the given key, if its branch exists.
    fn get_node_for_string(&self, key: &[K]) -> (r: Option<&Node<K, V>>)
        requires
            self.well_formed(),
        ensures
            match self.root.spec_node_at(key@) {
                Some(n) => r is Some && *r->0 == n && n.wf(),
                None => r is None,
            },
    {
        let mut cur: &Node<K, V> = &self.root;
        let n = key.len();
        for i in 0..n
            invariant
                self.well_formed(),
                n == key@.len(),
                self.root.spec_node_at(key@.take(i as int)) == Some(*cur),
                cur.wf(),
        {
            proof {
                self.root.lemma_node_at_snoc(key@.take(i as int), key@[i as int]);
                assert(key@.take(i as int).push(key@[i as int]) =~= key@.take(i as int + 1));
            }
            match cur.get_opt(&key[i]) {
                Some(next) => {
                    cur = next;
                }
                None => {
                    proof {
                        let p = key@.take(i as int + 1);
                        let q = key@.skip(i as int + 1);
                        assert(p + q =~= key@);
                        self.root.lemma_node_at_concat(p, q);
                    }
                    return None;
                }
            }
        }
        proof {
            assert(key@.take(n as int) =~= key@);
        }
        Some(cur)
    }

    /// Returns the value stored under the given key.
    pub fn get_for_string(&self, key: &[K]) -> (r: Option<&V>)
        requires
            self.well_formed(),
        ensures
            r is Some <==> self@.dom().contains(key@),
            r is Some ==> *r->0 == self@[key@],
    {
        proof {
            self.root.lemma_get_via_node_at(key@);
        }
        match self.get_node_for_string(key) {
            Some(node) => node.get_data(),
            None => None,
        }
    }

    /// Returns the value stored under the given key, for writing. Writing
    /// through the returned reference replaces that one value; every other
    /// key is untouched.
    pub fn get_mut_for_string(&mut self, key: &[K]) -> (r: Option<&mut V>)
        requires
            old(self).well_formed(),
        ensures
            final(self).well_formed(),
            !old(self)@.dom().contains(key@) ==> r is None && final(self)@ == old(self)@,
            old(self)@.dom().contains(key@) ==> r is Some && *r.unwrap() == old(self)@[key@]
                && final(self)@ == old(self)@.insert(key@, *final(r.unwrap())),
    {
        proof {
            assert(key@.skip(0) =~= key@);
        }
        self.root.get_mut_below(key, 0)
    }

    /// Returns whether the given key is stored in the trie.
    pub fn contains(&self, key: &[K]) -> (r: bool)
        requires
            self.well_formed(),
        ensures
            r == self@.dom().contains(key@),
    {
        self.get_for_string(key).is_some()
    }

    /// Returns every stored key that starts with the given prefix, each once,
    /// in no particular order. An absent prefix yields an empty result.
    pub fn get_keys_for_prefix(&self, prefix: &[K]) -> (r: Vec<Vec<K>>)
        requires
            self.well_formed(),
        ensures
            forall|t: Seq<K>| #[trigger]
                key_views(r@).contains(t) <==> self@.dom().contains(t) && prefix@.is_prefix_of(t),
            key_views(r@).no_duplicates(),
    {
        let ghost plen = prefix@.len() as int;
        match self.get_node_for_string(prefix) {
            Some(node) => {
                let r = node.keys_below(vstd::slice::slice_to_vec(prefix));
                proof {
                    let m = *node;
                    assert forall|t: Seq<K>| #[trigger]
                        key_views(r@).contains(t) <==> self@.dom().contains(t)
                            && prefix@.is_prefix_of(t) by {
                        if key_views(r@).contains(t) {
                            assert(prefix@.is_prefix_of(t));
                            assert(m.spec_get(t.skip(plen)) is Some);
                            lemma_split_at_prefix(prefix@, t);
                            self.root.lemma_node_at_concat(prefix@, t.skip(plen));
                            self.root.lemma_get_via_node_at(t);
                            m.lemma_get_via_node_at(t.skip(plen));
                            assert(self.root.spec_get(t) is Some);
                        } else if self@.dom().contains(t) && prefix@.is_prefix_of(t) {
                            assert(self.root.spec_get(t) is Some);
                            lemma_split_at_prefix(prefix@, t);
                            self.root.lemma_node_at_concat(prefix@, t.skip(plen));
                            self.root.lemma_get_via_node_at(t);
                            m.lemma_get_via_node_at(t.skip(plen));
                            assert(m.spec_get(t.skip(plen)) is Some);
                            assert(key_views(r@).contains(prefix@ + t.skip(plen)));
                        }
                    }
                }
                r
            }
            None => {
                let r: Vec<Vec<K>> = Vec::new();
                proof {
                    assert(key_views(r@) =~= Seq::<Seq<K>>::empty());
                    assert forall|t: Seq<K>|
                        !(self@.dom().contains(t) && prefix@.is_prefix_of(t)) by {
                        if self@.dom().contains(t) && prefix@.is_prefix_of(t) {
                            lemma_split_at_prefix(prefix@, t);
                            self.root.lemma_node_at_concat(prefix@, t.skip(plen));
                            self.root.lemma_get_via_node_at(t);
                            assert(self.root.spec_get(t) is None);
                        }
                    }
                }
                r
            }
        }
    }

    /// Law: a well-formed tree keeps no dead branches. Every branch that
    /// exists below the root leads to at least one stored key; so once a
    /// delete removes the only key extending a branch, no node for that
    /// branch remains reachable from the root.
    pub proof fn lemma_live_branch(self, path: Seq<K>)
        requires
            self.well_formed(),
            self.branch_exists(path),
            path.len() > 0,
        ensures
            exists|k: Seq<K>| #[trigger] self@.dom().contains(k) && path.is_prefix_of(k),
    {
        let m = self.root.spec_node_at(path).unwrap();
        self.root.lemma_node_at_pruned(path);
        m.lemma_nonbare_has_key();
        let s = choose|s: Seq<K>| m.spec_get(s) is Some;
        let k = path + s;
        self.root.lemma_node_at_concat(path, s);
        self.root.lemma_get_via_node_at(k);
        m.lemma_get_via_node_at(s);
        assert(self.root.spec_node_at(k) == m.spec_node_at(s));
        assert(self.root.spec_get(k) is Some);
        assert(path.is_prefix_of(k)) by {
            assert(path =~= k.subrange(0, path.len() as int));
        }
        assert(self@.dom().contains(k) && path.is_prefix_of(k));
    }

    /// Law: delete is idempotent in its report. Deleting a key removes it
    /// from the stored map, so a second delete of the same key finds nothing
    /// to remove.
    pub proof fn lemma_second_delete_finds_nothing(m: Map<Seq<K>, V>, key: Seq<K>)
        ensures
            !m.remove(key).dom().contains(key),
    {
    }

    /// Law: the empty prefix is a prefix of every key, so a prefix scan with
    /// the empty prefix lists every stored key.
    pub proof fn lemma_empty_prefix_matches_all(t: Seq<K>)
        ensures
            Seq::<K>::empty().is_prefix_of(t),
    {
        assert(Seq::<K>::empty() =~= t.subrange(0, 0));
    }

    /// Deletes the value under the given key; reports whether a value was
    /// there. Every branch the deletion leaves dead is pruned, bottom-up.
    pub fn delete(&mut self, key: &[K]) -> (r: bool)
        requires
            old(self).well_formed(),
        ensures
            final(self).well_formed(),
            r == old(self)@.dom().contains(key@),
            final(self)@ == old(self)@.remove(key@),
    {
        let r = self.root.delete_below(key, 0);
        proof {
            assert(key@.skip(0) =~= key@);
            assert(self@ =~= old(self)@.remove(key@));
        }
        r
    }
}

} // verus!
