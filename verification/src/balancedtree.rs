//! A size-augmented binary search tree.
//!
//! Every node stores the number of nodes in the subtree rooted at it, which
//! makes the order-statistics queries `select` and `rank` run in time
//! proportional to the height of the tree. The tree is modelled by its
//! in-order entry sequence, and every operation's contract says what it does
//! to that sequence.

use vstd::prelude::*;

use crate::entries::{
    entries_sorted, has_key, key_le, keys_of, lemma_get_append, lemma_get_has_key,
    lemma_get_prepend, lemma_keys_of_add, lemma_put_append, lemma_put_get, lemma_put_keys_between,
    lemma_put_len, lemma_put_prepend, lemma_put_sorted, lemma_range_add, lemma_range_empty,
    lemma_rank_add, lemma_rank_at_index, lemma_rank_full, lemma_rank_le_len, lemma_rank_zero,
    lemma_remove_append, lemma_remove_le_len, lemma_remove_prepend, lemma_remove_subset, spec_get,
    spec_put, spec_range, spec_rank, spec_remove,
};
use crate::keys::{Dup, KeyCmp, OrdKey};

verus! {

/// A tree node: a key, its value, the node count `n` of the subtree rooted
/// here, and the two child links.
pub struct Node<K, V> {
    pub key: K,
    pub value: V,
    pub n: usize,
    pub left: Option<Box<Node<K, V>>>,
    pub right: Option<Box<Node<K, V>>>,
}

/// An ordered symbol table: a binary search tree whose nodes carry subtree
/// sizes, plus a running count of the key comparisons spent in `put` calls
/// (a diagnostic, not part of the table's meaning).
pub struct BalancedTree<K, V> {
    pub root: Option<Box<Node<K, V>>>,
    pub compares_put: usize,
}

/// The in-order entry sequence of the subtree behind a link.
pub open spec fn link_entries<K, V>(link: Option<Box<Node<K, V>>>) -> Seq<(K, V)>
    decreases link,
{
    match link {
        None => Seq::empty(),
        Some(node) => node.entries(),
    }
}

/// Well-formedness of the subtree behind a link.
pub open spec fn link_wf<K: OrdKey, V>(link: Option<Box<Node<K, V>>>) -> bool
    decreases link,
{
    match link {
        None => true,
        Some(node) => node.wf(),
    }
}

impl<K, V> Node<K, V> {
    /// The in-order entry sequence: left subtree, this node, right subtree.
    pub open spec fn entries(self) -> Seq<(K, V)>
        decreases self,
    {
        link_entries(self.left) + seq![(self.key, self.value)] + link_entries(self.right)
    }

    /// A fresh node without children.
    pub fn new(key: K, value: V, n: usize) -> (node: Node<K, V>)
        ensures
            node.key == key,
            node.value == value,
            node.n == n,
            node.left is None,
            node.right is None,
    {
        Node { key, value, n, left: None, right: None }
    }
}

impl<K: OrdKey, V> Node<K, V> {
    /// The search-tree shape: keys on the left come strictly before this
    /// node's key, keys on the right strictly after, the children are
    /// well formed, and `n` counts this subtree's nodes.
    pub open spec fn wf(self) -> bool
        decreases self,
    {
        &&& link_wf(self.left)
        &&& link_wf(self.right)
        &&& forall|i: int|
            0 <= i < link_entries(self.left).len() ==> (#[trigger] link_entries(
                self.left,
            )[i]).0.lt(self.key)
        &&& forall|i: int|
            0 <= i < link_entries(self.right).len() ==> self.key.lt(
                (#[trigger] link_entries(self.right)[i]).0,
            )
        &&& self.n == link_entries(self.left).len() + 1 + link_entries(self.right).len()
    }
}

/// A well-formed subtree lists its entries in strictly ascending key order.
pub proof fn lemma_link_sorted<K: OrdKey, V>(link: Option<Box<Node<K, V>>>)
    requires
        link_wf(link),
    ensures
        entries_sorted(link_entries(link)),
    decreases link,
{
    match link {
        None => {
        }
        Some(node) => {
            lemma_link_sorted(node.left);
            lemma_link_sorted(node.right);
            let l = link_entries(node.left);
            let r = link_entries(node.right);
            let s = node.entries();
            assert forall|i: int, j: int| 0 <= i < j < s.len() implies (#[trigger] s[i]).0.lt(
                (#[trigger] s[j]).0,
            ) by {
                let m = l.len() as int;
                if i < m {
                    assert(s[i] == l[i]);
                }
                if i > m {
                    assert(s[i] == r[i - m - 1]);
                }
                if j < m {
                    assert(s[j] == l[j]);
                }
                if j > m {
                    assert(s[j] == r[j - m - 1]);
                }
                if i < m && j == m {
                } else if i < m && j > m {
                    K::lemma_lt_transitive(l[i].0, node.key, r[j - m - 1].0);
                } else if i == m && j > m {
                }
            }
        }
    }
}

impl<K: OrdKey, V> View for BalancedTree<K, V> {
    type V = Seq<(K, V)>;

    open spec fn view(&self) -> Seq<(K, V)> {
        link_entries(self.root)
    }
}

impl<K: OrdKey, V> BalancedTree<K, V> {
    /// The table is a well-formed search tree.
    pub open spec fn wf(self) -> bool {
        link_wf(self.root)
    }
}

impl<K: OrdKey + Dup, V: Dup> BalancedTree<K, V> {
    /// An empty table.
    pub fn new() -> (table: Self)
        ensures
            table.wf(),
            table@ == Seq::<(K, V)>::empty(),
    {
        BalancedTree { root: None, compares_put: 0 }
    }

    /// The node count of the subtree behind a link, read from its root.
    fn link_size(link: &Option<Box<Node<K, V>>>) -> (size: usize)
        requires
            link_wf(*link),
        ensures
            size == link_entries(*link).len(),
    {
        match link {
            None => 0,
            Some(node) => node.n,
        }
    }

    /// The number of key/value pairs in the table.
    pub fn size(&self) -> (size: usize)
        requires
            self.wf(),
        ensures
            size == self@.len(),
    {
        Self::link_size(&self.root)
    }

    /// Whether the table holds no pair at all.
    pub fn is_empty(&self) -> (empty: bool)
        requires
            self.wf(),
        ensures
            empty == (self@.len() == 0),
    {
        self.size() == 0
    }

    /// The value bound to the given key, if any.
    pub fn get(&self, key: K) -> (value: Option<V>)
        requires
            self.wf(),
        ensures
            value == spec_get(self@, key),
    {
        Self::get_r(&self.root, &key)
    }

    fn get_r(link: &Option<Box<Node<K, V>>>, key: &K) -> (value: Option<V>)
        requires
            link_wf(*link),
        ensures
            value == spec_get(link_entries(*link), *key),
        decreases *link,
    {
        match link {
            None => None,
            Some(node) => {
                let ghost l = link_entries(node.left);
                let ghost r = link_entries(node.right);
                let ghost mid = seq![(node.key, node.value)];
                match key.cmp_key(&node.key) {
                    KeyCmp::Less => {
                        proof {
                            assert forall|j: int| 0 <= j < (mid + r).len() implies !(#[trigger] (mid
                                + r)[j]).0.eqv(*key) by {
                                if j == 0 {
                                    assert((mid + r)[0].0 == node.key);
                                } else {
                                    assert((mid + r)[j].0 == r[j - 1].0);
                                    K::lemma_lt_transitive(*key, node.key, r[j - 1].0);
                                }
                                K::lemma_trichotomy((mid + r)[j].0, *key);
                            }
                            assert(link_entries(*link) =~= l + (mid + r));
                            lemma_get_prepend(l, mid + r, *key);
                        }
                        Self::get_r(&node.left, key)
                    }
                    KeyCmp::Equal => {
                        proof {
                            assert forall|i: int| 0 <= i < l.len() implies !(#[trigger] l[i]).0.eqv(
                                *key,
                            ) by {
                                K::lemma_eqv_congruent(*key, node.key, l[i].0);
                                K::lemma_trichotomy(l[i].0, *key);
                            }
                            assert(link_entries(*link) =~= l + (mid + r));
                            lemma_get_append(l, mid + r, *key);
                            assert((mid + r)[0] == (node.key, node.value));
                            assert((mid + r)[0].0.eqv(*key)) by {
                                K::lemma_trichotomy(*key, node.key);
                            }
                        }
                        Some(node.value.dup())
                    }
                    KeyCmp::Greater => {
                        proof {
                            assert forall|i: int| 0 <= i < (l + mid).len() implies !(#[trigger] (l
                                + mid)[i]).0.eqv(*key) by {
                                if i < l.len() {
                                    assert((l + mid)[i] == l[i]);
                                    K::lemma_lt_transitive(l[i].0, node.key, *key);
                                } else {
                                    assert((l + mid)[i].0 == node.key);
                                }
                                K::lemma_trichotomy((l + mid)[i].0, *key);
                            }
                            assert(link_entries(*link) =~= (l + mid) + r);
                            lemma_get_append(l + mid, r, *key);
                        }
                        Self::get_r(&node.right, key)
                    }
                }
            }
        }
    }

    /// Whether a value is bound to the given key.
    pub fn contains(&self, key: K) -> (found: bool)
        requires
            self.wf(),
        ensures
            found == has_key(self@, key),
    {
        let value = self.get(key);
        proof {
            lemma_get_has_key(self@, key);
        }
        value.is_some()
    }

    /// Bind `key` to `value`: overwrite the value if the key is present,
    /// otherwise add a new entry at its sorted position.
    pub fn put(&mut self, key: K, value: V)
        requires
            old(self).wf(),
            old(self)@.len() < usize::MAX,
        ensures
            final(self).wf(),
            final(self)@ == spec_put(old(self)@, key, value),
    {
        Self::put_r(&mut self.root, key, value, &mut self.compares_put);
    }

    fn put_r(link: &mut Option<Box<Node<K, V>>>, key: K, value: V, compares_put: &mut usize)
        requires
            link_wf(*old(link)),
            link_entries(*old(link)).len() < usize::MAX,
        ensures
            link_wf(*final(link)),
            link_entries(*final(link)) == spec_put(link_entries(*old(link)), key, value),
        decreases *old(link),
    {
        match link.take() {
            None => {
                *link = Some(Box::new(Node::new(key, value, 1)));
                proof {
                    assert(link_entries(*link) =~= seq![(key, value)]);
                }
            }
            Some(mut node) => {
                let ghost orig: Node<K, V> = *node;
                let ghost l = link_entries(orig.left);
                let ghost r = link_entries(orig.right);
                let ghost mid = seq![(orig.key, orig.value)];
                proof {
                    assert(orig.entries() =~= l + (mid + r));
                    assert(orig.entries() =~= (l + mid) + r);
                    lemma_link_sorted(*old(link));
                    lemma_put_len::<K, V>(orig.entries(), key, value);
                }
                let ord = key.cmp_key(&node.key);
                if *compares_put < usize::MAX {
                    *compares_put = *compares_put + 1;
                }
                match ord {
                    KeyCmp::Less => {
                        Self::put_r(&mut node.left, key, value, compares_put);
                        proof {
                            assert forall|j: int| 0 <= j < (mid + r).len() implies key.lt(
                                (#[trigger] (mid + r)[j]).0,
                            ) by {
                                if j == 0 {
                                    assert((mid + r)[0].0 == orig.key);
                                } else {
                                    assert((mid + r)[j].0 == r[j - 1].0);
                                    K::lemma_lt_transitive(key, orig.key, r[j - 1].0);
                                }
                            }
                            lemma_put_prepend(l, mid + r, key, value);
                            lemma_put_keys_between(l, key, value);
                            assert forall|i: int|
                                0 <= i < link_entries(node.left).len() implies (
                                #[trigger] link_entries(node.left)[i]).0.lt(node.key) by {
                                if link_entries(node.left)[i].0 != key {
                                    let w = choose|w: int|
                                        0 <= w < l.len() && (#[trigger] l[w]).0 == link_entries(
                                            node.left,
                                        )[i].0;
                                    assert(l[w].0.lt(orig.key));
                                }
                            }
                        }
                    }
                    KeyCmp::Equal => {
                        node.value = value;
                        proof {
                            assert forall|i: int| 0 <= i < l.len() implies (#[trigger] l[i]).0.lt(
                                key,
                            ) by {
                                K::lemma_eqv_congruent(key, orig.key, l[i].0);
                            }
                            lemma_put_append(l, mid + r, key, value);
                            assert((mid + r)[0].0 == orig.key);
                            assert(!key.lt(orig.key) && key.eqv(orig.key)) by {
                                K::lemma_trichotomy(key, orig.key);
                            }
                            assert(spec_put(mid + r, key, value) == seq![(orig.key, value)] + (mid
                                + r).drop_first());
                            assert((mid + r).drop_first() =~= r);
                            assert(node.entries() =~= l + (seq![(orig.key, value)] + r));
                            assert(link_entries(*old(link)) == orig.entries());
                        }
                    }
                    KeyCmp::Greater => {
                        Self::put_r(&mut node.right, key, value, compares_put);
                        proof {
                            assert forall|i: int| 0 <= i < (l + mid).len() implies (#[trigger] (l
                                + mid)[i]).0.lt(key) by {
                                if i < l.len() {
                                    assert((l + mid)[i] == l[i]);
                                    K::lemma_lt_transitive(l[i].0, orig.key, key);
                                } else {
                                    assert((l + mid)[i].0 == orig.key);
                                }
                            }
                            lemma_put_append(l + mid, r, key, value);
                            lemma_put_keys_between(r, key, value);
                            assert forall|i: int|
                                0 <= i < link_entries(node.right).len() implies orig.key.lt(
                                (#[trigger] link_entries(node.right)[i]).0,
                            ) by {
                                if link_entries(node.right)[i].0 != key {
                                    let w = choose|w: int|
                                        0 <= w < r.len() && (#[trigger] r[w]).0 == link_entries(
                                            node.right,
                                        )[i].0;
                                    assert(orig.key.lt(r[w].0));
                                }
                            }
                        }
                    }
                }
                proof {
                    lemma_link_sorted(node.left);
                    lemma_link_sorted(node.right);
                }
                let left_size = Self::link_size(&node.left);
                let right_size = Self::link_size(&node.right);
                proof {
                    assert(link_entries(node.left).len() + link_entries(node.right).len() + 1
                        <= orig.entries().len() + 1);
                }
                node.n = left_size + right_size + 1;
                *link = Some(node);
                proof {
                    assert(link_entries(*link) == link.unwrap().entries());
                }
            }
        }
    }
}

impl<K: OrdKey + Dup, V: Dup> BalancedTree<K, V> {
    /// The smallest key. The table must not be empty.
    pub fn min(&self) -> (k: K)
        requires
            self.wf(),
            self@.len() > 0,
        ensures
            k == self@[0].0,
    {
        Self::min_r(&self.root)
    }

    fn min_r(link: &Option<Box<Node<K, V>>>) -> (k: K)
        requires
            link_wf(*link),
            link_entries(*link).len() > 0,
        ensures
            k == link_entries(*link)[0].0,
        decreases *link,
    {
        let node = link.as_ref().unwrap();
        let ghost l = link_entries(node.left);
        match &node.left {
            Some(_) => {
                proof {
                    assert(link_entries(*link)[0] == l[0]);
                }
                Self::min_r(&node.left)
            }
            None => {
                proof {
                    assert(link_entries(*link)[0] == (node.key, node.value));
                }
                node.key.dup()
            }
        }
    }

    /// The largest key. The table must not be empty.
    pub fn max(&self) -> (k: K)
        requires
            self.wf(),
            self@.len() > 0,
        ensures
            k == self@.last().0,
    {
        Self::max_r(&self.root)
    }

    fn max_r(link: &Option<Box<Node<K, V>>>) -> (k: K)
        requires
            link_wf(*link),
            link_entries(*link).len() > 0,
        ensures
            k == link_entries(*link).last().0,
        decreases *link,
    {
        let node = link.as_ref().unwrap();
        let ghost r = link_entries(node.right);
        match &node.right {
            Some(_) => {
                proof {
                    assert(link_entries(*link).last() == r.last());
                }
                Self::max_r(&node.right)
            }
            None => {
                proof {
                    assert(link_entries(*link).last() == (node.key, node.value));
                }
                node.key.dup()
            }
        }
    }

    /// The largest key that does not come after `key`: `None` exactly when
    /// every key in the table comes after `key`.
    pub fn floor(&self, key: K) -> (res: Option<K>)
        requires
            self.wf(),
        ensures
            res matches Some(f) ==> (exists|i: int|
                0 <= i < self@.len() && (#[trigger] self@[i]).0 == f) && key_le(f, key) && (forall|
                i: int,
            |
                0 <= i < self@.len() && key_le((#[trigger] self@[i]).0, key) ==> key_le(
                    self@[i].0,
                    f,
                )),
            res is None ==> forall|i: int| 0 <= i < self@.len() ==> key.lt((#[trigger] self@[i]).0),
    {
        let res = Self::floor_r(&self.root, &key);
        proof {
            if res is Some {
                let f = res.unwrap();
                let w = choose|w: int|
                    0 <= w < link_entries(self.root).len() && (#[trigger] link_entries(
                        self.root,
                    )[w]).0 == f;
                assert(self@[w].0 == f);
            }
        }
        res
    }

    fn floor_r(link: &Option<Box<Node<K, V>>>, key: &K) -> (res: Option<K>)
        requires
            link_wf(*link),
        ensures
            res matches Some(f) ==> (exists|i: int|
                0 <= i < link_entries(*link).len() && (#[trigger] link_entries(*link)[i]).0 == f)
                && key_le(f, *key) && (forall|i: int|
                0 <= i < link_entries(*link).len() && key_le(
                    (#[trigger] link_entries(*link)[i]).0,
                    *key,
                ) ==> key_le(link_entries(*link)[i].0, f)),
            res is None ==> forall|i: int|
                0 <= i < link_entries(*link).len() ==> key.lt(
                    (#[trigger] link_entries(*link)[i]).0,
                ),
        decreases *link,
    {
        match link {
            None => None,
            Some(node) => {
                let ghost l = link_entries(node.left);
                let ghost r = link_entries(node.right);
                let ghost s = link_entries(*link);
                let ghost m = l.len() as int;
                proof {
                    assert(s[m] == (node.key, node.value));
                    assert forall|i: int| 0 <= i < s.len() implies #[trigger] s[i] == (if i < m {
                        l[i]
                    } else if i == m {
                        (node.key, node.value)
                    } else {
                        r[i - m - 1]
                    }) by {}
                }
                match key.cmp_key(&node.key) {
                    KeyCmp::Less => {
                        let res = Self::floor_r(&node.left, key);
                        proof {
                            K::lemma_trichotomy(*key, node.key);
                            assert forall|i: int| m <= i < s.len() implies key.lt(s[i].0)
                                && !key_le(s[i].0, *key) by {
                                if i > m {
                                    K::lemma_lt_transitive(*key, node.key, s[i].0);
                                }
                                K::lemma_trichotomy(s[i].0, *key);
                                K::lemma_trichotomy(*key, s[i].0);
                            }
                            if res is Some {
                                let f = res.unwrap();
                                let w = choose|w: int| 0 <= w < l.len() && (#[trigger] l[w]).0 == f;
                                assert(s[w].0 == f);
                            }
                        }
                        res
                    }
                    KeyCmp::Equal => {
                        proof {
                            K::lemma_trichotomy(*key, node.key);
                            assert(key_le(node.key, *key));
                            assert forall|i: int| 0 <= i < s.len() && key_le(
                                s[i].0,
                                *key,
                            ) implies key_le(s[i].0, node.key) by {
                                if i < m {
                                    assert(s[i].0.lt(node.key));
                                } else if i == m {
                                    K::lemma_trichotomy(node.key, node.key);
                                } else {
                                    assert(node.key.lt(s[i].0));
                                    K::lemma_eqv_congruent(*key, node.key, s[i].0);
                                    K::lemma_trichotomy(s[i].0, node.key);
                                    K::lemma_trichotomy(s[i].0, *key);
                                    K::lemma_trichotomy(*key, s[i].0);
                                }
                            }
                        }
                        Some(node.key.dup())
                    }
                    KeyCmp::Greater => {
                        let res = Self::floor_r(&node.right, key);
                        match res {
                            Some(f) => {
                                proof {
                                    let w = choose|w: int|
                                        0 <= w < r.len() && (#[trigger] r[w]).0 == f;
                                    assert(s[m + 1 + w].0 == f);
                                    assert(node.key.lt(f));
                                    assert forall|i: int| 0 <= i < s.len() && key_le(
                                        s[i].0,
                                        *key,
                                    ) implies key_le(s[i].0, f) by {
                                        if i < m {
                                            K::lemma_lt_transitive(s[i].0, node.key, f);
                                        } else if i == m {
                                        }
                                    }
                                }
                                Some(f)
                            }
                            None => {
                                proof {
                                    assert(key_le(node.key, *key));
                                    assert forall|i: int| 0 <= i < s.len() && key_le(
                                        s[i].0,
                                        *key,
                                    ) implies key_le(s[i].0, node.key) by {
                                        if i > m {
                                            assert(key.lt(s[i].0));
                                            K::lemma_trichotomy(s[i].0, *key);
                                            K::lemma_trichotomy(*key, s[i].0);
                                        } else if i == m {
                                            K::lemma_trichotomy(node.key, node.key);
                                        }
                                    }
                                }
                                Some(node.key.dup())
                            }
                        }
                    }
                }
            }
        }
    }

    /// The smallest key that does not come before `key`: `None` exactly when
    /// every key in the table comes before `key`.
    pub fn ceiling(&self, key: K) -> (res: Option<K>)
        requires
            self.wf(),
        ensures
            res matches Some(c) ==> (exists|i: int|
                0 <= i < self@.len() && (#[trigger] self@[i]).0 == c) && key_le(key, c) && (forall|
                i: int,
            |
                0 <= i < self@.len() && key_le(key, (#[trigger] self@[i]).0) ==> key_le(
                    c,
                    self@[i].0,
                )),
            res is None ==> forall|i: int| 0 <= i < self@.len() ==> (#[trigger] self@[i]).0.lt(key),
    {
        let res = Self::ceiling_r(&self.root, &key);
        proof {
            if res is Some {
                let c = res.unwrap();
                let w = choose|w: int|
                    0 <= w < link_entries(self.root).len() && (#[trigger] link_entries(
                        self.root,
                    )[w]).0 == c;
                assert(self@[w].0 == c);
            }
        }
        res
    }

    fn ceiling_r(link: &Option<Box<Node<K, V>>>, key: &K) -> (res: Option<K>)
        requires
            link_wf(*link),
        ensures
            res matches Some(c) ==> (exists|i: int|
                0 <= i < link_entries(*link).len() && (#[trigger] link_entries(*link)[i]).0 == c)
                && key_le(*key, c) && (forall|i: int|
                0 <= i < link_entries(*link).len() && key_le(
                    *key,
                    (#[trigger] link_entries(*link)[i]).0,
                ) ==> key_le(c, link_entries(*link)[i].0)),
            res is None ==> forall|i: int|
                0 <= i < link_entries(*link).len() ==> (#[trigger] link_entries(*link)[i]).0.lt(
                    *key,
                ),
        decreases *link,
    {
        match link {
            None => None,
            Some(node) => {
                let ghost l = link_entries(node.left);
                let ghost r = link_entries(node.right);
                let ghost s = link_entries(*link);
                let ghost m = l.len() as int;
                proof {
                    assert(s[m] == (node.key, node.value));
                    assert forall|i: int| 0 <= i < s.len() implies #[trigger] s[i] == (if i < m {
                        l[i]
                    } else if i == m {
                        (node.key, node.value)
                    } else {
                        r[i - m - 1]
                    }) by {}
                }
                match key.cmp_key(&node.key) {
                    KeyCmp::Greater => {
                        let res = Self::ceiling_r(&node.right, key);
                        proof {
                            K::lemma_trichotomy(node.key, *key);
                            assert forall|i: int| 0 <= i <= m implies s[i].0.lt(*key) && !key_le(
                                *key,
                                s[i].0,
                            ) by {
                                if i < m {
                                    K::lemma_lt_transitive(s[i].0, node.key, *key);
                                }
                                K::lemma_trichotomy(*key, s[i].0);
                                K::lemma_trichotomy(s[i].0, *key);
                            }
                            if res is Some {
                                let c = res.unwrap();
                                let w = choose|w: int| 0 <= w < r.len() && (#[trigger] r[w]).0 == c;
                                assert(s[m + 1 + w].0 == c);
                            }
                        }
                        res
                    }
                    KeyCmp::Equal => {
                        proof {
                            K::lemma_trichotomy(*key, node.key);
                            assert(key_le(*key, node.key));
                            assert forall|i: int| 0 <= i < s.len() && key_le(
                                *key,
                                s[i].0,
                            ) implies key_le(node.key, s[i].0) by {
                                if i > m {
                                    assert(node.key.lt(s[i].0));
                                } else if i == m {
                                    K::lemma_trichotomy(node.key, node.key);
                                } else {
                                    assert(s[i].0.lt(node.key));
                                    K::lemma_eqv_congruent(*key, node.key, s[i].0);
                                    K::lemma_trichotomy(s[i].0, *key);
                                    K::lemma_trichotomy(*key, s[i].0);
                                }
                            }
                        }
                        Some(node.key.dup())
                    }
                    KeyCmp::Less => {
                        let res = Self::ceiling_r(&node.left, key);
                        match res {
                            Some(c) => {
                                proof {
                                    let w = choose|w: int|
                                        0 <= w < l.len() && (#[trigger] l[w]).0 == c;
                                    assert(s[w].0 == c);
                                    assert(c.lt(node.key));
                                    assert forall|i: int| 0 <= i < s.len() && key_le(
                                        *key,
                                        s[i].0,
                                    ) implies key_le(c, s[i].0) by {
                                        if i > m {
                                            K::lemma_lt_transitive(c, node.key, s[i].0);
                                        } else if i == m {
                                        }
                                    }
                                }
                                Some(c)
                            }
                            None => {
                                proof {
                                    assert(key_le(*key, node.key));
                                    assert forall|i: int| 0 <= i < s.len() && key_le(
                                        *key,
                                        s[i].0,
                                    ) implies key_le(node.key, s[i].0) by {
                                        if i < m {
                                            assert(s[i].0.lt(*key));
                                            K::lemma_trichotomy(*key, s[i].0);
                                            K::lemma_trichotomy(s[i].0, *key);
                                        } else if i == m {
                                            K::lemma_trichotomy(node.key, node.key);
                                        }
                                    }
                                }
                                Some(node.key.dup())
                            }
                        }
                    }
                }
            }
        }
    }

    /// The key of rank `k`: the key with exactly `k` smaller keys in the
    /// table. `k` must lie below the table's size.
    pub fn select(&self, k: usize) -> (key: K)
        requires
            self.wf(),
            k < self@.len(),
        ensures
            key == self@[k as int].0,
    {
        Self::select_r(&self.root, k)
    }

    fn select_r(link: &Option<Box<Node<K, V>>>, k: usize) -> (key: K)
        requires
            link_wf(*link),
            k < link_entries(*link).len(),
        ensures
            key == link_entries(*link)[k as int].0,
        decreases *link,
    {
        let node = link.as_ref().unwrap();
        let ghost l = link_entries(node.left);
        let ghost r = link_entries(node.right);
        let ghost s = link_entries(*link);
        let ghost m = l.len() as int;
        let t = Self::link_size(&node.left);
        if k == t {
            proof {
                assert(s[m] == (node.key, node.value));
            }
            node.key.dup()
        } else if k < t {
            proof {
                assert(s[k as int] == l[k as int]);
            }
            Self::select_r(&node.left, k)
        } else {
            proof {
                assert(s[k as int] == r[k - t - 1]);
            }
            Self::select_r(&node.right, k - t - 1)
        }
    }

    /// The number of keys in the table that come strictly before `key`.
    pub fn rank(&self, key: K) -> (count: usize)
        requires
            self.wf(),
        ensures
            count == spec_rank(self@, key),
    {
        Self::rank_r(&self.root, &key)
    }

    fn rank_r(link: &Option<Box<Node<K, V>>>, key: &K) -> (count: usize)
        requires
            link_wf(*link),
        ensures
            count == spec_rank(link_entries(*link), *key),
        decreases *link,
    {
        match link {
            None => 0,
            Some(node) => {
                let ghost l = link_entries(node.left);
                let ghost r = link_entries(node.right);
                let ghost mid = seq![(node.key, node.value)];
                let ghost s = link_entries(*link);
                proof {
                    assert(s =~= l + (mid + r));
                    assert(s =~= (l + mid) + r);
                    lemma_rank_add(l, mid + r, *key);
                    lemma_rank_add(mid, r, *key);
                    lemma_rank_add(l + mid, r, *key);
                    lemma_rank_add(l, mid, *key);
                }
                match key.cmp_key(&node.key) {
                    KeyCmp::Less => {
                        proof {
                            assert forall|j: int| 0 <= j < (mid + r).len() implies !(#[trigger] (mid
                                + r)[j]).0.lt(*key) by {
                                if j == 0 {
                                    assert((mid + r)[0].0 == node.key);
                                } else {
                                    assert((mid + r)[j] == r[j - 1]);
                                    K::lemma_lt_transitive(*key, node.key, r[j - 1].0);
                                }
                                K::lemma_trichotomy(*key, (mid + r)[j].0);
                            }
                            lemma_rank_zero(mid + r, *key);
                        }
                        Self::rank_r(&node.left, key)
                    }
                    KeyCmp::Equal => {
                        proof {
                            assert forall|i: int| 0 <= i < l.len() implies (#[trigger] l[i]).0.lt(
                                *key,
                            ) by {
                                K::lemma_eqv_congruent(*key, node.key, l[i].0);
                            }
                            lemma_rank_full(l, *key);
                            assert forall|j: int| 0 <= j < (mid + r).len() implies !(#[trigger] (mid
                                + r)[j]).0.lt(*key) by {
                                if j == 0 {
                                    assert((mid + r)[0].0 == node.key);
                                    K::lemma_trichotomy(*key, node.key);
                                } else {
                                    assert((mid + r)[j] == r[j - 1]);
                                    K::lemma_eqv_congruent(*key, node.key, r[j - 1].0);
                                    K::lemma_trichotomy(r[j - 1].0, node.key);
                                }
                            }
                            lemma_rank_zero(mid + r, *key);
                        }
                        Self::link_size(&node.left)
                    }
                    KeyCmp::Greater => {
                        proof {
                            assert forall|i: int| 0 <= i < (l + mid).len() implies (#[trigger] (l
                                + mid)[i]).0.lt(*key) by {
                                if i < l.len() {
                                    assert((l + mid)[i] == l[i]);
                                    K::lemma_lt_transitive(l[i].0, node.key, *key);
                                } else {
                                    assert((l + mid)[i].0 == node.key);
                                }
                            }
                            lemma_rank_full(l + mid, *key);
                            lemma_rank_le_len(r, *key);
                        }
                        let t = Self::link_size(&node.left);
                        let rest = Self::rank_r(&node.right, key);
                        t + 1 + rest
                    }
                }
            }
        }
    }

    /// All keys in the table, in ascending order.
    pub fn keys(&self) -> (ks: Vec<K>)
        requires
            self.wf(),
        ensures
            ks@ == keys_of(self@),
    {
        let mut acc: Vec<K> = Vec::new();
        Self::keys_r(&self.root, &mut acc);
        proof {
            assert(Seq::<K>::empty() + keys_of(self@) =~= keys_of(self@));
        }
        acc
    }

    fn keys_r(link: &Option<Box<Node<K, V>>>, acc: &mut Vec<K>)
        requires
            link_wf(*link),
        ensures
            final(acc)@ == old(acc)@ + keys_of(link_entries(*link)),
        decreases *link,
    {
        match link {
            None => {
                proof {
                    assert(old(acc)@ + keys_of(link_entries(*link)) =~= acc@);
                }
            }
            Some(node) => {
                let ghost l = link_entries(node.left);
                let ghost r = link_entries(node.right);
                let ghost mid = seq![(node.key, node.value)];
                Self::keys_r(&node.left, acc);
                acc.push(node.key.dup());
                Self::keys_r(&node.right, acc);
                proof {
                    lemma_keys_of_add(l + mid, r);
                    lemma_keys_of_add(l, mid);
                    assert(keys_of(mid) =~= seq![node.key]);
                    assert(link_entries(*link) == (l + mid) + r);
                    assert(acc@ =~= old(acc)@ + keys_of(link_entries(*link)));
                }
            }
        }
    }

    /// All entries in the table, in ascending key order.
    pub fn show(&self) -> (items: Vec<(K, V)>)
        requires
            self.wf(),
        ensures
            items@ == self@,
    {
        let mut acc: Vec<(K, V)> = Vec::new();
        Self::show_r(&self.root, &mut acc);
        proof {
            assert(Seq::<(K, V)>::empty() + self@ =~= self@);
        }
        acc
    }

    fn show_r(link: &Option<Box<Node<K, V>>>, acc: &mut Vec<(K, V)>)
        requires
            link_wf(*link),
        ensures
            final(acc)@ == old(acc)@ + link_entries(*link),
        decreases *link,
    {
        match link {
            None => {
                proof {
                    assert(old(acc)@ + link_entries(*link) =~= acc@);
                }
            }
            Some(node) => {
                Self::show_r(&node.left, acc);
                acc.push((node.key.dup(), node.value.dup()));
                Self::show_r(&node.right, acc);
                proof {
                    assert(acc@ =~= old(acc)@ + link_entries(*link));
                }
            }
        }
    }

    /// The keys between `lo` and `hi`, both inclusive, in ascending order.
    pub fn keys_in_range(&self, lo: K, hi: K) -> (ks: Vec<K>)
        requires
            self.wf(),
        ensures
            ks@ == keys_of(spec_range(self@, lo, hi)),
    {
        let mut acc: Vec<K> = Vec::new();
        Self::keys_in_range_r(&self.root, &lo, &hi, &mut acc);
        proof {
            assert(Seq::<K>::empty() + keys_of(spec_range(self@, lo, hi)) =~= keys_of(
                spec_range(self@, lo, hi),
            ));
        }
        acc
    }

    fn keys_in_range_r(link: &Option<Box<Node<K, V>>>, lo: &K, hi: &K, acc: &mut Vec<K>)
        requires
            link_wf(*link),
        ensures
            final(acc)@ == old(acc)@ + keys_of(spec_range(link_entries(*link), *lo, *hi)),
        decreases *link,
    {
        match link {
            None => {
                proof {
                    assert(old(acc)@ + keys_of(spec_range(link_entries(*link), *lo, *hi))
                        =~= acc@);
                }
            }
            Some(node) => {
                let ghost l = link_entries(node.left);
                let ghost r = link_entries(node.right);
                let ghost mid = seq![(node.key, node.value)];
                proof {
                    assert(link_entries(*link) == (l + mid) + r);
                    lemma_range_add(l + mid, r, *lo, *hi);
                    lemma_range_add(l, mid, *lo, *hi);
                }
                let ord_lo = lo.cmp_key(&node.key);
                let ord_hi = node.key.cmp_key(hi);
                if ord_lo == KeyCmp::Less {
                    Self::keys_in_range_r(&node.left, lo, hi, acc);
                } else {
                    proof {
                        assert forall|i: int| 0 <= i < l.len() implies !(key_le(
                            *lo,
                            (#[trigger] l[i]).0,
                        ) && key_le(l[i].0, *hi)) by {
                            if ord_lo is Equal {
                                K::lemma_eqv_congruent(*lo, node.key, l[i].0);
                                K::lemma_trichotomy(l[i].0, node.key);
                                K::lemma_trichotomy(*lo, l[i].0);
                                K::lemma_trichotomy(l[i].0, *lo);
                            } else {
                                K::lemma_lt_transitive(l[i].0, node.key, *lo);
                                K::lemma_trichotomy(*lo, l[i].0);
                                K::lemma_trichotomy(l[i].0, *lo);
                            }
                        }
                        lemma_range_empty(l, *lo, *hi);
                    }
                }
                let include_mid = (ord_lo == KeyCmp::Less || ord_lo == KeyCmp::Equal) && (ord_hi
                    == KeyCmp::Less || ord_hi == KeyCmp::Equal);
                if include_mid {
                    proof {
                        if ord_lo is Equal {
                            K::lemma_trichotomy(*lo, node.key);
                        }
                        if ord_hi is Equal {
                        }
                        assert(key_le(*lo, node.key) && key_le(node.key, *hi));
                        assert(spec_range(mid, *lo, *hi) == seq![(node.key, node.value)]
                            + spec_range(mid.drop_first(), *lo, *hi));
                        assert(mid.drop_first().len() == 0);
                        assert(spec_range(mid, *lo, *hi) =~= mid);
                    }
                    acc.push(node.key.dup());
                } else {
                    proof {
                        assert(!(key_le(*lo, node.key) && key_le(node.key, *hi))) by {
                            if ord_lo is Greater {
                                K::lemma_trichotomy(*lo, node.key);
                                K::lemma_trichotomy(node.key, *lo);
                            }
                            if ord_hi is Greater {
                                K::lemma_trichotomy(node.key, *hi);
                                K::lemma_trichotomy(*hi, node.key);
                            }
                        }
                        assert(mid[0].0 == node.key);
                        assert(mid.drop_first().len() == 0);
                        assert(spec_range(mid.drop_first(), *lo, *hi) =~= Seq::<(K, V)>::empty());
                        assert(spec_range(mid, *lo, *hi) == Seq::<(K, V)>::empty() + spec_range(
                            mid.drop_first(),
                            *lo,
                            *hi,
                        ));
                        assert(spec_range(mid, *lo, *hi) =~= Seq::<(K, V)>::empty());
                    }
                }
                if ord_hi == KeyCmp::Less {
                    Self::keys_in_range_r(&node.right, lo, hi, acc);
                } else {
                    proof {
                        assert forall|j: int| 0 <= j < r.len() implies !(key_le(
                            *lo,
                            (#[trigger] r[j]).0,
                        ) && key_le(r[j].0, *hi)) by {
                            if ord_hi is Equal {
                                K::lemma_eqv_congruent(node.key, *hi, r[j].0);
                                K::lemma_trichotomy(node.key, r[j].0);
                                K::lemma_trichotomy(r[j].0, *hi);
                                K::lemma_trichotomy(*hi, r[j].0);
                            } else {
                                K::lemma_lt_transitive(*hi, node.key, r[j].0);
                                K::lemma_trichotomy(r[j].0, *hi);
                                K::lemma_trichotomy(*hi, r[j].0);
                            }
                        }
                        lemma_range_empty(r, *lo, *hi);
                    }
                }
                proof {
                    lemma_keys_of_add(
                        spec_range(l, *lo, *hi) + spec_range(mid, *lo, *hi),
                        spec_range(r, *lo, *hi),
                    );
                    lemma_keys_of_add(spec_range(l, *lo, *hi), spec_range(mid, *lo, *hi));
                    assert(acc@ =~= old(acc)@ + keys_of(
                        spec_range(link_entries(*link), *lo, *hi),
                    ));
                }
            }
        }
    }

    /// Remove the pair with the smallest key; without effect on an empty
    /// table.
    pub fn delete_min(&mut self)
        requires
            old(self).wf(),
        ensures
            final(self).wf(),
            old(self)@.len() > 0 ==> final(self)@ == old(self)@.drop_first(),
            old(self)@.len() == 0 ==> final(self)@ == old(self)@,
    {
        if self.root.is_some() {
            let _ = Self::pop_min(&mut self.root);
        }
    }

    /// Remove the pair with the largest key; without effect on an empty
    /// table.
    pub fn delete_max(&mut self)
        requires
            old(self).wf(),
        ensures
            final(self).wf(),
            old(self)@.len() > 0 ==> final(self)@ == old(self)@.drop_last(),
            old(self)@.len() == 0 ==> final(self)@ == old(self)@,
    {
        if self.root.is_some() {
            let _ = Self::pop_max(&mut self.root);
        }
    }

    /// Unlink the smallest entry of a non-empty subtree and hand it back.
    fn pop_min(link: &mut Option<Box<Node<K, V>>>) -> (entry: (K, V))
        requires
            *old(link) is Some,
            link_wf(*old(link)),
        ensures
            link_wf(*final(link)),
            entry == link_entries(*old(link))[0],
            link_entries(*final(link)) == link_entries(*old(link)).drop_first(),
        decreases *old(link),
    {
        let mut node = link.take().unwrap();
        let ghost orig: Node<K, V> = *node;
        let ghost l = link_entries(orig.left);
        let ghost r = link_entries(orig.right);
        let ghost s = orig.entries();
        if node.left.is_none() {
            proof {
                assert(l.len() == 0);
                assert(s[0] == (orig.key, orig.value));
                assert(link_entries(orig.right) =~= s.drop_first());
            }
            *link = node.right;
            (node.key, node.value)
        } else {
            let entry = Self::pop_min(&mut node.left);
            proof {
                assert(s[0] == l[0]);
                assert forall|i: int|
                    0 <= i < link_entries(node.left).len() implies (#[trigger] link_entries(
                    node.left,
                )[i]).0.lt(node.key) by {
                    assert(link_entries(node.left)[i] == l[i + 1]);
                }
            }
            let left_size = Self::link_size(&node.left);
            let right_size = Self::link_size(&node.right);
            node.n = left_size + right_size + 1;
            *link = Some(node);
            proof {
                assert(link_entries(*link) =~= s.drop_first());
            }
            entry
        }
    }

    /// Unlink the largest entry of a non-empty subtree and hand it back.
    fn pop_max(link: &mut Option<Box<Node<K, V>>>) -> (entry: (K, V))
        requires
            *old(link) is Some,
            link_wf(*old(link)),
        ensures
            link_wf(*final(link)),
            entry == link_entries(*old(link)).last(),
            link_entries(*final(link)) == link_entries(*old(link)).drop_last(),
        decreases *old(link),
    {
        let mut node = link.take().unwrap();
        let ghost orig: Node<K, V> = *node;
        let ghost l = link_entries(orig.left);
        let ghost r = link_entries(orig.right);
        let ghost s = orig.entries();
        if node.right.is_none() {
            proof {
                assert(r.len() == 0);
                assert(s.last() == (orig.key, orig.value));
                assert(link_entries(orig.left) =~= s.drop_last());
            }
            *link = node.left;
            (node.key, node.value)
        } else {
            let entry = Self::pop_max(&mut node.right);
            proof {
                assert(s.last() == r.last());
                assert forall|i: int|
                    0 <= i < link_entries(node.right).len() implies node.key.lt(
                    (#[trigger] link_entries(node.right)[i]).0,
                ) by {
                    assert(link_entries(node.right)[i] == r[i]);
                }
            }
            let left_size = Self::link_size(&node.left);
            let right_size = Self::link_size(&node.right);
            node.n = left_size + right_size + 1;
            *link = Some(node);
            proof {
                assert(link_entries(*link) =~= s.drop_last());
            }
            entry
        }
    }

    /// Remove the pair whose key compares as equal to `key`, if one exists.
    pub fn delete(&mut self, key: K)
        requires
            old(self).wf(),
        ensures
            final(self).wf(),
            final(self)@ == spec_remove(old(self)@, key),
    {
        Self::delete_r(&mut self.root, &key);
    }

    fn delete_r(link: &mut Option<Box<Node<K, V>>>, key: &K)
        requires
            link_wf(*old(link)),
        ensures
            link_wf(*final(link)),
            link_entries(*final(link)) == spec_remove(link_entries(*old(link)), *key),
        decreases *old(link),
    {
        match link.take() {
            None => {
            }
            Some(mut node) => {
                let ghost orig: Node<K, V> = *node;
                let ghost l = link_entries(orig.left);
                let ghost r = link_entries(orig.right);
                let ghost mid = seq![(orig.key, orig.value)];
                let ghost s = orig.entries();
                proof {
                    assert(s =~= l + (mid + r));
                    assert(s =~= (l + mid) + r);
                }
                match key.cmp_key(&node.key) {
                    KeyCmp::Less => {
                        proof {
                            assert forall|j: int| 0 <= j < (mid + r).len() implies !(#[trigger] (mid
                                + r)[j]).0.eqv(*key) by {
                                if j == 0 {
                                    assert((mid + r)[0].0 == orig.key);
                                } else {
                                    assert((mid + r)[j] == r[j - 1]);
                                    K::lemma_lt_transitive(*key, orig.key, r[j - 1].0);
                                }
                                K::lemma_trichotomy((mid + r)[j].0, *key);
                                K::lemma_trichotomy(*key, (mid + r)[j].0);
                            }
                            lemma_remove_prepend(l, mid + r, *key);
                            lemma_remove_subset(l, *key);
                        }
                        Self::delete_r(&mut node.left, key);
                        proof {
                            lemma_remove_le_len(l, *key);
                            assert forall|i: int|
                                0 <= i < link_entries(node.left).len() implies (
                                #[trigger] link_entries(node.left)[i]).0.lt(node.key) by {
                                let w = choose|w: int|
                                    0 <= w < l.len() && l[w] == #[trigger] link_entries(
                                        node.left,
                                    )[i];
                                assert(l[w].0.lt(orig.key));
                            }
                        }
                        let left_size = Self::link_size(&node.left);
                        let right_size = Self::link_size(&node.right);
                        node.n = left_size + right_size + 1;
                        *link = Some(node);
                        proof {
                            assert(link_entries(*link) =~= spec_remove(s, *key));
                        }
                    }
                    KeyCmp::Greater => {
                        proof {
                            assert forall|i: int| 0 <= i < (l + mid).len() implies !(#[trigger] (l
                                + mid)[i]).0.eqv(*key) by {
                                if i < l.len() {
                                    assert((l + mid)[i] == l[i]);
                                    K::lemma_lt_transitive(l[i].0, orig.key, *key);
                                } else {
                                    assert((l + mid)[i].0 == orig.key);
                                }
                                K::lemma_trichotomy((l + mid)[i].0, *key);
                                K::lemma_trichotomy(*key, (l + mid)[i].0);
                            }
                            lemma_remove_append(l + mid, r, *key);
                            lemma_remove_subset(r, *key);
                        }
                        Self::delete_r(&mut node.right, key);
                        proof {
                            lemma_remove_le_len(r, *key);
                            assert forall|i: int|
                                0 <= i < link_entries(node.right).len() implies node.key.lt(
                                (#[trigger] link_entries(node.right)[i]).0,
                            ) by {
                                let w = choose|w: int|
                                    0 <= w < r.len() && r[w] == #[trigger] link_entries(
                                        node.right,
                                    )[i];
                                assert(orig.key.lt(r[w].0));
                            }
                        }
                        let left_size = Self::link_size(&node.left);
                        let right_size = Self::link_size(&node.right);
                        node.n = left_size + right_size + 1;
                        *link = Some(node);
                        proof {
                            assert(link_entries(*link) =~= spec_remove(s, *key));
                        }
                    }
                    KeyCmp::Equal => {
                        proof {
                            assert forall|i: int| 0 <= i < l.len() implies !(#[trigger] l[i]).0.eqv(
                                *key,
                            ) by {
                                K::lemma_eqv_congruent(*key, orig.key, l[i].0);
                                K::lemma_trichotomy(l[i].0, orig.key);
                                K::lemma_trichotomy(l[i].0, *key);
                                K::lemma_trichotomy(*key, l[i].0);
                            }
                            lemma_remove_append(l, mid + r, *key);
                            assert((mid + r)[0].0 == orig.key);
                            assert((mid + r)[0].0.eqv(*key)) by {
                                K::lemma_trichotomy(*key, orig.key);
                            }
                            assert(spec_remove(mid + r, *key) == (mid + r).drop_first());
                            assert((mid + r).drop_first() =~= r);
                            assert(spec_remove(s, *key) == l + r);
                        }
                        if node.left.is_none() {
                            proof {
                                assert(l.len() == 0);
                                assert(l + r =~= r);
                            }
                            *link = node.right;
                        } else if node.right.is_none() {
                            proof {
                                assert(r.len() == 0);
                                assert(l + r =~= l);
                            }
                            *link = node.left;
                        } else {
                            let successor = Self::pop_min(&mut node.right);
                            node.key = successor.0;
                            node.value = successor.1;
                            proof {
                                lemma_link_sorted(orig.right);
                                assert(node.key == r[0].0);
                                assert forall|i: int| 0 <= i < l.len() implies (#[trigger] l[
                                    i]).0.lt(node.key) by {
                                    K::lemma_lt_transitive(l[i].0, orig.key, r[0].0);
                                }
                                assert forall|i: int|
                                    0 <= i < link_entries(node.right).len() implies node.key.lt(
                                    (#[trigger] link_entries(node.right)[i]).0,
                                ) by {
                                    assert(link_entries(node.right)[i] == r[i + 1]);
                                }
                            }
                            let left_size = Self::link_size(&node.left);
                            let right_size = Self::link_size(&node.right);
                            node.n = left_size + right_size + 1;
                            *link = Some(node);
                            proof {
                                assert(link_entries(*link) =~= l + r);
                            }
                        }
                    }
                }
            }
        }
    }

    /// How many keys lie between `lo` and `hi`, both inclusive.
    pub fn size_in_range(&self, lo: K, hi: K) -> (count: usize)
        requires
            self.wf(),
        ensures
            count == spec_range(self@, lo, hi).len(),
    {
        let ks = self.keys_in_range(lo, hi);
        ks.len()
    }
}

/// Law: in a well-formed table the in-order key sequence is strictly
/// ascending. Every operation of [`BalancedTree`] keeps the table well
/// formed, so this holds of any table built from `new` by those operations.
pub proof fn lemma_inorder_ascending<K: OrdKey, V>(table: BalancedTree<K, V>)
    requires
        table.wf(),
    ensures
        forall|i: int, j: int|
            0 <= i < j < table@.len() ==> (#[trigger] table@[i]).0.lt((#[trigger] table@[j]).0),
{
    lemma_link_sorted(table.root);
}

/// Law: in a well-formed subtree, every node's count field `n` is one more
/// than the entry counts of its two subtrees, and equals the entry count of
/// its own subtree.
pub proof fn lemma_size_field<K: OrdKey, V>(node: Node<K, V>)
    requires
        node.wf(),
    ensures
        node.n == 1 + link_entries(node.left).len() + link_entries(node.right).len(),
        node.n == node.entries().len(),
{
}

/// Law: binding a key twice leaves the entry count as after the first
/// binding, and a lookup of the key finds the second value.
pub proof fn lemma_put_twice<K: OrdKey, V>(s: Seq<(K, V)>, k: K, v1: V, v2: V)
    requires
        entries_sorted(s),
    ensures
        spec_put(spec_put(s, k, v1), k, v2).len() == spec_put(s, k, v1).len(),
        spec_get(spec_put(spec_put(s, k, v1), k, v2), k) == Some(v2),
{
    let s1 = spec_put(s, k, v1);
    lemma_put_sorted(s, k, v1);
    assert(k.eqv(k)) by {
        K::lemma_trichotomy(k, k);
    }
    lemma_put_get(s, k, v1, k);
    lemma_get_has_key(s1, k);
    lemma_put_len(s1, k, v2);
    lemma_put_get(s1, k, v2, k);
}

/// Law: `rank` inverts `select`. For every position `k` below the size of a
/// well-formed table, the number of keys before the key at position `k` is
/// exactly `k`; `select` returns that key and `rank` that number.
pub proof fn lemma_select_rank_inverse<K: OrdKey, V>(table: BalancedTree<K, V>, k: int)
    requires
        table.wf(),
        0 <= k < table@.len(),
    ensures
        spec_rank(table@, table@[k].0) == k,
{
    lemma_link_sorted(table.root);
    lemma_rank_at_index(table@, k);
}

} // verus!
