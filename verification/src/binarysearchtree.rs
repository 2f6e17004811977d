//! A binary search tree with rotations and root insertion.
//!
//! The tree stores items that carry an orderable key. Besides plain
//! insertion it offers single left and right rotations, and an insert that
//! rotates the fresh item all the way up so that it becomes the root, while
//! the in-order item sequence stays the sorted one.

use vstd::prelude::*;

use crate::entries::{key_le, lemma_le_lt_trans, lemma_le_trans, lemma_lt_le_trans};
use crate::item::Item;
use crate::keys::{Dup, KeyCmp, OrdKey};

verus! {

/// A link to a subtree: absent, or an owned node.
pub type Link<I> = Option<Box<Node<I>>>;

/// A node of the tree: an item and two child links.
#[derive(Debug, PartialEq)]
pub struct Node<I> {
    pub item: I,
    pub left: Link<I>,
    pub right: Link<I>,
}

/// A symbol table on a binary search tree. Items with equal keys may be
/// stored more than once; a later duplicate sits to the right of an earlier
/// one. `count` counts the items added through `insert`.
pub struct BinarySearchTree<I> {
    pub head: Link<I>,
    pub count: usize,
}

/// The in-order item sequence of the subtree behind a link.
pub open spec fn tree_items<I>(link: Link<I>) -> Seq<I>
    decreases link,
{
    match link {
        None => Seq::empty(),
        Some(node) => node.items(),
    }
}

/// Well-formedness of the subtree behind a link.
pub open spec fn tree_wf<I: Item>(link: Link<I>) -> bool
    decreases link,
{
    match link {
        None => true,
        Some(node) => node.wf(),
    }
}

impl<I> Node<I> {
    /// The in-order item sequence: left subtree, this node, right subtree.
    pub open spec fn items(self) -> Seq<I>
        decreases self,
    {
        tree_items(self.left) + seq![self.item] + tree_items(self.right)
    }

    /// A fresh node without children.
    pub fn new(item: I) -> (node: Node<I>)
        ensures
            node.item == item,
            node.left is None,
            node.right is None,
    {
        Node { item, left: None, right: None }
    }
}

impl<I: Item> Node<I> {
    /// Keys on the left do not come after this node's key, keys on the
    /// right do not come before it. The order is non-strict on both sides
    /// because the tree admits items with equal keys, and a rotation may
    /// carry an equal-keyed item to either side of its duplicate.
    pub open spec fn wf(self) -> bool
        decreases self,
    {
        &&& tree_wf(self.left)
        &&& tree_wf(self.right)
        &&& forall|i: int|
            0 <= i < tree_items(self.left).len() ==> key_le(
                (#[trigger] tree_items(self.left)[i]).key_spec(),
                self.item.key_spec(),
            )
        &&& forall|i: int|
            0 <= i < tree_items(self.right).len() ==> key_le(
                self.item.key_spec(),
                (#[trigger] tree_items(self.right)[i]).key_spec(),
            )
    }
}

/// What a right rotation leaves behind: the left child, when there is one,
/// becomes the subtree's root and keeps its left subtree; the old root takes
/// over the left child's right subtree and keeps its own right one. Without
/// a left child the subtree is untouched.
pub open spec fn spec_rotate_right<I>(link: Link<I>) -> Link<I> {
    match link {
        None => link,
        Some(s) => match s.left {
            None => link,
            Some(e) => Some(
                Box::new(
                    Node {
                        item: e.item,
                        left: e.left,
                        right: Some(
                            Box::new(Node { item: s.item, left: e.right, right: s.right }),
                        ),
                    },
                ),
            ),
        },
    }
}

/// The mirror image of [`spec_rotate_right`]: the right child, when there is
/// one, becomes the subtree's root.
pub open spec fn spec_rotate_left<I>(link: Link<I>) -> Link<I> {
    match link {
        None => link,
        Some(a) => match a.right {
            None => link,
            Some(e) => Some(
                Box::new(
                    Node {
                        item: e.item,
                        left: Some(Box::new(Node { item: a.item, left: a.left, right: e.left })),
                        right: e.right,
                    },
                ),
            ),
        },
    }
}

/// Law: a right rotation does not change the in-order item sequence.
pub proof fn lemma_rotate_right_inorder<I>(link: Link<I>)
    ensures
        tree_items(spec_rotate_right(link)) == tree_items(link),
{
    match link {
        None => {
        }
        Some(s) => match s.left {
            None => {
            }
            Some(e) => {
                assert(tree_items(link) == s.items());
                assert(tree_items(s.left) == e.items());
                let rotated = spec_rotate_right(link);
                assert(tree_items(rotated) == rotated.unwrap().items());
                assert(tree_items(rotated.unwrap().right) == rotated.unwrap().right.unwrap().items());
                assert(tree_items(spec_rotate_right(link)) =~= tree_items(link));
            }
        },
    }
}

/// Law: a left rotation does not change the in-order item sequence.
pub proof fn lemma_rotate_left_inorder<I>(link: Link<I>)
    ensures
        tree_items(spec_rotate_left(link)) == tree_items(link),
{
    match link {
        None => {
        }
        Some(a) => match a.right {
            None => {
            }
            Some(e) => {
                assert(tree_items(link) == a.items());
                assert(tree_items(a.right) == e.items());
                let rotated = spec_rotate_left(link);
                assert(tree_items(rotated) == rotated.unwrap().items());
                assert(tree_items(rotated.unwrap().left) == rotated.unwrap().left.unwrap().items());
                assert(tree_items(spec_rotate_left(link)) =~= tree_items(link));
            }
        },
    }
}

/// A right rotation keeps the search-tree shape.
pub proof fn lemma_rotate_right_wf<I: Item>(link: Link<I>)
    requires
        tree_wf(link),
    ensures
        tree_wf(spec_rotate_right(link)),
{
    match link {
        None => {
        }
        Some(s) => match s.left {
            None => {
            }
            Some(e) => {
                let el = tree_items(e.left);
                let er = tree_items(e.right);
                let r = tree_items(s.right);
                let ik = e.item.key_spec();
                let sk = s.item.key_spec();
                assert(s.wf());
                assert(tree_wf(s.left) == e.wf());
                assert(e.wf());
                assert(tree_items(s.left) == e.items());
                assert forall|i: int| 0 <= i < el.len() implies key_le(
                    (#[trigger] el[i]).key_spec(),
                    ik,
                ) by {
                    assert(e.items()[i] == el[i]);
                }
                assert forall|i: int| 0 <= i < er.len() implies key_le(ik, (
                #[trigger] er[i]).key_spec()) && key_le((#[trigger] er[i]).key_spec(), sk) by {
                    assert(e.items()[el.len() + 1 + i] == er[i]);
                }
                assert(key_le(ik, sk)) by {
                    assert(e.items()[el.len() as int] == e.item);
                }
                let inner = Node { item: s.item, left: e.right, right: s.right };
                assert(inner.wf());
                assert forall|i: int| 0 <= i < inner.items().len() implies key_le(
                    ik,
                    (#[trigger] inner.items()[i]).key_spec(),
                ) by {
                    let m = er.len() as int;
                    if i < m {
                        assert(inner.items()[i] == er[i]);
                    } else if i == m {
                        assert(inner.items()[i] == s.item);
                    } else {
                        assert(inner.items()[i] == r[i - m - 1]);
                        assert(key_le(sk, r[i - m - 1].key_spec()));
                        lemma_le_trans(ik, sk, r[i - m - 1].key_spec());
                    }
                }
                let top = spec_rotate_right(link).unwrap();
                assert(top.right.unwrap() == inner);
                assert(tree_items(top.right) == inner.items());
                assert(tree_wf(top.right) == inner.wf());
                assert(top.wf());
            }
        },
    }
}

/// A left rotation keeps the search-tree shape.
pub proof fn lemma_rotate_left_wf<I: Item>(link: Link<I>)
    requires
        tree_wf(link),
    ensures
        tree_wf(spec_rotate_left(link)),
{
    match link {
        None => {
        }
        Some(a) => match a.right {
            None => {
            }
            Some(e) => {
                let l = tree_items(a.left);
                let el = tree_items(e.left);
                let er = tree_items(e.right);
                let ak = a.item.key_spec();
                let ek = e.item.key_spec();
                assert(a.wf());
                assert(tree_wf(a.right) == e.wf());
                assert(e.wf());
                assert(tree_items(a.right) == e.items());
                assert forall|i: int| 0 <= i < el.len() implies key_le(ak, (
                #[trigger] el[i]).key_spec()) && key_le((#[trigger] el[i]).key_spec(), ek) by {
                    assert(e.items()[i] == el[i]);
                }
                assert forall|i: int| 0 <= i < er.len() implies key_le(ek, (
                #[trigger] er[i]).key_spec()) by {
                    assert(e.items()[el.len() + 1 + i] == er[i]);
                }
                assert(key_le(ak, ek)) by {
                    assert(e.items()[el.len() as int] == e.item);
                }
                let inner = Node { item: a.item, left: a.left, right: e.left };
                assert(inner.wf());
                assert forall|i: int| 0 <= i < inner.items().len() implies key_le(
                    (#[trigger] inner.items()[i]).key_spec(),
                    ek,
                ) by {
                    let m = l.len() as int;
                    if i < m {
                        assert(inner.items()[i] == l[i]);
                        assert(key_le(inner.items()[i].key_spec(), ak));
                        lemma_le_trans(inner.items()[i].key_spec(), ak, ek);
                    } else if i == m {
                        assert(inner.items()[i] == a.item);
                    } else {
                        assert(inner.items()[i] == el[i - m - 1]);
                    }
                }
                let top = spec_rotate_left(link).unwrap();
                assert(top.left.unwrap() == inner);
                assert(tree_items(top.left) == inner.items());
                assert(tree_wf(top.left) == inner.wf());
                assert(top.wf());
            }
        },
    }
}

/// Where a new item lands in the in-order sequence: after every item whose
/// key does not come after the new item's key, before everything else.
pub open spec fn spec_insert_item<I: Item>(s: Seq<I>, item: I) -> Seq<I>
    decreases s.len(),
{
    if s.len() == 0 {
        seq![item]
    } else if item.key_spec().lt(s[0].key_spec()) {
        seq![item] + s
    } else {
        seq![s[0]] + spec_insert_item(s.drop_first(), item)
    }
}

/// An insertion that belongs before `b` happens entirely inside `a`.
pub proof fn lemma_insert_item_prepend<I: Item>(a: Seq<I>, b: Seq<I>, item: I)
    requires
        forall|j: int| 0 <= j < b.len() ==> item.key_spec().lt((#[trigger] b[j]).key_spec()),
    ensures
        spec_insert_item(a + b, item) == spec_insert_item(a, item) + b,
    decreases a.len(),
{
    if a.len() == 0 {
        assert(a + b =~= b);
        if b.len() == 0 {
            assert(spec_insert_item(a + b, item) =~= spec_insert_item(a, item) + b);
        } else {
            assert(item.key_spec().lt(b[0].key_spec()));
            assert(spec_insert_item(a, item) + b =~= seq![item] + b);
        }
    } else {
        assert((a + b)[0] == a[0]);
        if item.key_spec().lt(a[0].key_spec()) {
            assert(seq![item] + (a + b) =~= (seq![item] + a) + b);
        } else {
            assert((a + b).drop_first() =~= a.drop_first() + b);
            lemma_insert_item_prepend(a.drop_first(), b, item);
            assert(seq![a[0]] + (spec_insert_item(a.drop_first(), item) + b) =~= (seq![a[0]]
                + spec_insert_item(a.drop_first(), item)) + b);
        }
    }
}

/// An insertion that belongs after `a` happens entirely inside `b`.
pub proof fn lemma_insert_item_append<I: Item>(a: Seq<I>, b: Seq<I>, item: I)
    requires
        forall|i: int| 0 <= i < a.len() ==> !item.key_spec().lt((#[trigger] a[i]).key_spec()),
    ensures
        spec_insert_item(a + b, item) == a + spec_insert_item(b, item),
    decreases a.len(),
{
    if a.len() == 0 {
        assert(a + b =~= b);
        assert(a + spec_insert_item(b, item) =~= spec_insert_item(b, item));
    } else {
        assert((a + b)[0] == a[0]);
        assert((a + b).drop_first() =~= a.drop_first() + b);
        lemma_insert_item_append(a.drop_first(), b, item);
        assert(seq![a[0]] + (a.drop_first() + spec_insert_item(b, item)) =~= a + spec_insert_item(
            b,
            item,
        ));
    }
}

/// Every member of an insertion result is the new item or an old member.
pub proof fn lemma_insert_item_members<I: Item>(s: Seq<I>, item: I)
    ensures
        forall|j: int|
            0 <= j < spec_insert_item(s, item).len() ==> #[trigger] spec_insert_item(s, item)[j]
                == item || exists|i: int|
                0 <= i < s.len() && #[trigger] s[i] == spec_insert_item(s, item)[j],
    decreases s.len(),
{
    let t = spec_insert_item(s, item);
    if s.len() == 0 {
    } else if item.key_spec().lt(s[0].key_spec()) {
        assert forall|j: int| 0 <= j < t.len() implies #[trigger] t[j] == item || exists|i: int|
            0 <= i < s.len() && #[trigger] s[i] == t[j] by {
            if j > 0 {
                assert(s[j - 1] == t[j]);
            }
        }
    } else {
        lemma_insert_item_members(s.drop_first(), item);
        let u = spec_insert_item(s.drop_first(), item);
        assert forall|j: int| 0 <= j < t.len() implies #[trigger] t[j] == item || exists|i: int|
            0 <= i < s.len() && #[trigger] s[i] == t[j] by {
            if j == 0 {
                assert(s[0] == t[0]);
            } else {
                assert(t[j] == u[j - 1]);
                if t[j] != item {
                    let w = choose|w: int|
                        0 <= w < s.drop_first().len() && #[trigger] s.drop_first()[w] == u[j - 1];
                    assert(s[w + 1] == t[j]);
                }
            }
        }
    }
}

impl<I: Item + Dup> View for BinarySearchTree<I> {
    type V = Seq<I>;

    open spec fn view(&self) -> Seq<I> {
        tree_items(self.head)
    }
}

impl<I: Item + Dup> BinarySearchTree<I> {
    /// The tree is a well-formed search tree.
    pub open spec fn wf(self) -> bool {
        tree_wf(self.head)
    }

    /// An empty tree.
    pub fn new() -> (tree: Self)
        ensures
            tree.wf(),
            tree@ == Seq::<I>::empty(),
            tree.count == 0,
    {
        BinarySearchTree { head: None, count: 0 }
    }

    /// How many items were added through `insert`.
    pub fn count(&self) -> (n: usize)
        ensures
            n == self.count,
    {
        self.count
    }

    /// Add an item by plain descent: strictly smaller keys go left, all
    /// others go right.
    pub fn insert(&mut self, item: I)
        requires
            old(self).wf(),
            old(self).count < usize::MAX,
        ensures
            final(self).wf(),
            final(self)@ == spec_insert_item(old(self)@, item),
            final(self).count == old(self).count + 1,
    {
        Self::insert_r(&mut self.head, item);
        self.count = self.count + 1;
    }

    fn insert_r(root: &mut Link<I>, item: I)
        requires
            tree_wf(*old(root)),
        ensures
            tree_wf(*final(root)),
            tree_items(*final(root)) == spec_insert_item(tree_items(*old(root)), item),
        decreases *old(root),
    {
        match root.take() {
            None => {
                *root = Some(Box::new(Node::new(item)));
                proof {
                    assert(tree_items(*root) =~= seq![item]);
                }
            }
            Some(mut node) => {
                let ghost orig: Node<I> = *node;
                let ghost l = tree_items(orig.left);
                let ghost r = tree_items(orig.right);
                let ghost mid = seq![orig.item];
                let ghost s = orig.items();
                let ghost ik = item.key_spec();
                let ghost nk = orig.item.key_spec();
                proof {
                    assert(s =~= l + (mid + r));
                    assert(s =~= (l + mid) + r);
                }
                let item_key = item.key();
                let node_key = node.item.key();
                let ord = item_key.cmp_key(&node_key);
                if ord == KeyCmp::Less {
                    Self::insert_r(&mut node.left, item);
                    proof {
                        assert forall|j: int| 0 <= j < (mid + r).len() implies ik.lt(
                            (#[trigger] (mid + r)[j]).key_spec(),
                        ) by {
                            if j == 0 {
                                assert((mid + r)[0] == orig.item);
                            } else {
                                assert((mid + r)[j] == r[j - 1]);
                                lemma_lt_le_trans(ik, nk, r[j - 1].key_spec());
                            }
                        }
                        lemma_insert_item_prepend(l, mid + r, item);
                        lemma_insert_item_members(l, item);
                        assert forall|i: int|
                            0 <= i < tree_items(node.left).len() implies key_le(
                            (#[trigger] tree_items(node.left)[i]).key_spec(),
                            nk,
                        ) by {
                            if tree_items(node.left)[i] != item {
                                let w = choose|w: int|
                                    0 <= w < l.len() && #[trigger] l[w] == tree_items(node.left)[i];
                                assert(key_le(l[w].key_spec(), nk));
                            }
                        }
                    }
                } else {
                    Self::insert_r(&mut node.right, item);
                    proof {
                        assert(key_le(nk, ik)) by {
                            <I::Key as OrdKey>::lemma_trichotomy(ik, nk);
                        }
                        assert forall|i: int| 0 <= i < (l + mid).len() implies !ik.lt(
                            (#[trigger] (l + mid)[i]).key_spec(),
                        ) by {
                            if i < l.len() {
                                assert((l + mid)[i] == l[i]);
                                lemma_le_trans(l[i].key_spec(), nk, ik);
                                <I::Key as OrdKey>::lemma_trichotomy(l[i].key_spec(), ik);
                            } else {
                                assert((l + mid)[i] == orig.item);
                                <I::Key as OrdKey>::lemma_trichotomy(ik, nk);
                            }
                        }
                        lemma_insert_item_append(l + mid, r, item);
                        lemma_insert_item_members(r, item);
                        assert forall|i: int|
                            0 <= i < tree_items(node.right).len() implies key_le(
                            nk,
                            (#[trigger] tree_items(node.right)[i]).key_spec(),
                        ) by {
                            if tree_items(node.right)[i] != item {
                                let w = choose|w: int|
                                    0 <= w < r.len() && #[trigger] r[w] == tree_items(
                                        node.right,
                                    )[i];
                                assert(key_le(nk, r[w].key_spec()));
                            }
                        }
                    }
                }
                *root = Some(node);
            }
        }
    }

    /// Insert an item so that it ends up at the root of the whole tree: a
    /// recursive insertion, with a rotation at every node on the way back
    /// up that carries the fresh item to the top. The in-order sequence is
    /// the same as after a plain `insert`; `count` is not touched.
    pub fn insert_at_root(&mut self, item: I)
        requires
            old(self).wf(),
        ensures
            final(self).wf(),
            final(self)@ == spec_insert_item(old(self)@, item),
            final(self).head is Some,
            final(self).head.unwrap().item == item,
            final(self).count == old(self).count,
    {
        Self::insert_at_root_r(&mut self.head, item);
    }

    fn insert_at_root_r(root: &mut Link<I>, item: I)
        requires
            tree_wf(*old(root)),
        ensures
            tree_wf(*final(root)),
            tree_items(*final(root)) == spec_insert_item(tree_items(*old(root)), item),
            *final(root) is Some,
            (*final(root)).unwrap().item == item,
        decreases *old(root),
    {
        match root.take() {
            None => {
                *root = Some(Box::new(Node::new(item)));
                proof {
                    assert(tree_items(*root) =~= seq![item]);
                }
            }
            Some(mut node) => {
                let ghost orig: Node<I> = *node;
                let ghost l = tree_items(orig.left);
                let ghost r = tree_items(orig.right);
                let ghost mid = seq![orig.item];
                let ghost s = orig.items();
                let ghost ik = item.key_spec();
                let ghost nk = orig.item.key_spec();
                proof {
                    assert(s =~= l + (mid + r));
                    assert(s =~= (l + mid) + r);
                }
                let item_key = item.key();
                let node_key = node.item.key();
                let ord = item_key.cmp_key(&node_key);
                if ord == KeyCmp::Less {
                    Self::insert_at_root_r(&mut node.left, item);
                    proof {
                        assert forall|j: int| 0 <= j < (mid + r).len() implies ik.lt(
                            (#[trigger] (mid + r)[j]).key_spec(),
                        ) by {
                            if j == 0 {
                                assert((mid + r)[0] == orig.item);
                            } else {
                                assert((mid + r)[j] == r[j - 1]);
                                lemma_lt_le_trans(ik, nk, r[j - 1].key_spec());
                            }
                        }
                        lemma_insert_item_prepend(l, mid + r, item);
                        lemma_insert_item_members(l, item);
                        assert forall|i: int|
                            0 <= i < tree_items(node.left).len() implies key_le(
                            (#[trigger] tree_items(node.left)[i]).key_spec(),
                            nk,
                        ) by {
                            if tree_items(node.left)[i] != item {
                                let w = choose|w: int|
                                    0 <= w < l.len() && #[trigger] l[w] == tree_items(node.left)[i];
                                assert(key_le(l[w].key_spec(), nk));
                            }
                        }
                    }
                    *root = Some(node);
                    let ghost pre = *root;
                    proof {
                        assert(tree_wf(pre));
                        assert(tree_items(pre) =~= spec_insert_item(s, item));
                    }
                    Self::rotate_right(root);
                    proof {
                        assert((*root).unwrap().item == pre.unwrap().left.unwrap().item);
                    }
                } else {
                    Self::insert_at_root_r(&mut node.right, item);
                    proof {
                        assert(key_le(nk, ik)) by {
                            <I::Key as OrdKey>::lemma_trichotomy(ik, nk);
                        }
                        assert forall|i: int| 0 <= i < (l + mid).len() implies !ik.lt(
                            (#[trigger] (l + mid)[i]).key_spec(),
                        ) by {
                            if i < l.len() {
                                assert((l + mid)[i] == l[i]);
                                lemma_le_trans(l[i].key_spec(), nk, ik);
                                <I::Key as OrdKey>::lemma_trichotomy(l[i].key_spec(), ik);
                            } else {
                                assert((l + mid)[i] == orig.item);
                                <I::Key as OrdKey>::lemma_trichotomy(ik, nk);
                            }
                        }
                        lemma_insert_item_append(l + mid, r, item);
                        lemma_insert_item_members(r, item);
                        assert forall|i: int|
                            0 <= i < tree_items(node.right).len() implies key_le(
                            nk,
                            (#[trigger] tree_items(node.right)[i]).key_spec(),
                        ) by {
                            if tree_items(node.right)[i] != item {
                                let w = choose|w: int|
                                    0 <= w < r.len() && #[trigger] r[w] == tree_items(
                                        node.right,
                                    )[i];
                                assert(key_le(nk, r[w].key_spec()));
                            }
                        }
                    }
                    *root = Some(node);
                    let ghost pre = *root;
                    proof {
                        assert(tree_wf(pre));
                        assert(tree_items(pre) =~= spec_insert_item(s, item));
                    }
                    Self::rotate_left(root);
                    proof {
                        assert((*root).unwrap().item == pre.unwrap().right.unwrap().item);
                    }
                }
            }
        }
    }

    /// Find an item carrying the given key. With duplicates in the tree the
    /// search hands back the one its descent meets first.
    pub fn search(&self, key: I::Key) -> (res: Option<I>)
        requires
            self.wf(),
        ensures
            res matches Some(found) ==> (exists|i: int|
                0 <= i < self@.len() && #[trigger] self@[i] == found) && key.eqv(found.key_spec()),
            res is None ==> forall|i: int|
                0 <= i < self@.len() ==> !key.eqv((#[trigger] self@[i]).key_spec()),
    {
        let res = Self::search_r(&self.head, &key);
        proof {
            if res is Some {
                let found = res.unwrap();
                let w = choose|w: int|
                    0 <= w < tree_items(self.head).len() && #[trigger] tree_items(self.head)[w]
                        == found;
                assert(self@[w] == found);
            }
        }
        res
    }

    fn search_r(root: &Link<I>, key: &I::Key) -> (res: Option<I>)
        requires
            tree_wf(*root),
        ensures
            res matches Some(found) ==> (exists|i: int|
                0 <= i < tree_items(*root).len() && #[trigger] tree_items(*root)[i] == found)
                && key.eqv(found.key_spec()),
            res is None ==> forall|i: int|
                0 <= i < tree_items(*root).len() ==> !key.eqv(
                    (#[trigger] tree_items(*root)[i]).key_spec(),
                ),
        decreases *root,
    {
        match root {
            None => None,
            Some(node) => {
                let ghost l = tree_items(node.left);
                let ghost r = tree_items(node.right);
                let ghost s = tree_items(*root);
                let ghost m = l.len() as int;
                let ghost nk = node.item.key_spec();
                proof {
                    assert(s[m] == node.item);
                    assert forall|i: int| 0 <= i < s.len() implies #[trigger] s[i] == (if i < m {
                        l[i]
                    } else if i == m {
                        node.item
                    } else {
                        r[i - m - 1]
                    }) by {}
                }
                let node_key = node.item.key();
                match key.cmp_key(&node_key) {
                    KeyCmp::Less => {
                        let res = Self::search_r(&node.left, key);
                        proof {
                            assert forall|i: int| m <= i < s.len() implies !key.eqv(
                                (#[trigger] s[i]).key_spec(),
                            ) by {
                                if i > m {
                                    lemma_lt_le_trans(*key, nk, s[i].key_spec());
                                }
                                <I::Key as OrdKey>::lemma_trichotomy(*key, s[i].key_spec());
                            }
                            if res is Some {
                                let found = res.unwrap();
                                let w = choose|w: int|
                                    0 <= w < l.len() && #[trigger] l[w] == found;
                                assert(s[w] == found);
                            }
                        }
                        res
                    }
                    KeyCmp::Equal => {
                        Some(node.item.dup())
                    }
                    KeyCmp::Greater => {
                        let res = Self::search_r(&node.right, key);
                        proof {
                            assert forall|i: int| 0 <= i <= m implies !key.eqv(
                                (#[trigger] s[i]).key_spec(),
                            ) by {
                                if i < m {
                                    lemma_le_lt_trans(s[i].key_spec(), nk, *key);
                                }
                                <I::Key as OrdKey>::lemma_trichotomy(s[i].key_spec(), *key);
                                <I::Key as OrdKey>::lemma_trichotomy(*key, s[i].key_spec());
                            }
                            if res is Some {
                                let found = res.unwrap();
                                let w = choose|w: int|
                                    0 <= w < r.len() && #[trigger] r[w] == found;
                                assert(s[m + 1 + w] == found);
                            }
                        }
                        res
                    }
                }
            }
        }
    }

    /// All items of the tree, in ascending key order.
    pub fn show(&self) -> (items_out: Vec<I>)
        requires
            self.wf(),
        ensures
            items_out@ == self@,
    {
        let mut acc: Vec<I> = Vec::new();
        Self::show_r(&self.head, &mut acc);
        proof {
            assert(Seq::<I>::empty() + self@ =~= self@);
        }
        acc
    }

    fn show_r(root: &Link<I>, acc: &mut Vec<I>)
        requires
            tree_wf(*root),
        ensures
            final(acc)@ == old(acc)@ + tree_items(*root),
        decreases *root,
    {
        match root {
            None => {
                proof {
                    assert(old(acc)@ + tree_items(*root) =~= acc@);
                }
            }
            Some(node) => {
                Self::show_r(&node.left, acc);
                acc.push(node.item.dup());
                Self::show_r(&node.right, acc);
                proof {
                    assert(acc@ =~= old(acc)@ + tree_items(*root));
                }
            }
        }
    }

    /// Right rotation at the given link: the left child becomes the
    /// subtree's root. Without effect when the subtree or its left child is
    /// absent.
    pub fn rotate_right(root: &mut Link<I>)
        ensures
            *final(root) == spec_rotate_right(*old(root)),
            tree_items(*final(root)) == tree_items(*old(root)),
            tree_wf(*old(root)) ==> tree_wf(*final(root)),
    {
        proof {
            lemma_rotate_right_inorder(*old(root));
            if tree_wf(*old(root)) {
                lemma_rotate_right_wf(*old(root));
            }
        }
        match root.take() {
            None => {
            }
            Some(mut s_node) => {
                match s_node.left.take() {
                    None => {
                        *root = Some(s_node);
                    }
                    Some(mut e_node) => {
                        s_node.left = e_node.right.take();
                        e_node.right = Some(s_node);
                        *root = Some(e_node);
                    }
                }
            }
        }
    }

    /// Left rotation at the given link: the right child becomes the
    /// subtree's root. Without effect when the subtree or its right child is
    /// absent.
    pub fn rotate_left(root: &mut Link<I>)
        ensures
            *final(root) == spec_rotate_left(*old(root)),
            tree_items(*final(root)) == tree_items(*old(root)),
            tree_wf(*old(root)) ==> tree_wf(*final(root)),
    {
        proof {
            lemma_rotate_left_inorder(*old(root));
            if tree_wf(*old(root)) {
                lemma_rotate_left_wf(*old(root));
            }
        }
        match root.take() {
            None => {
            }
            Some(mut a_node) => {
                match a_node.right.take() {
                    None => {
                        *root = Some(a_node);
                    }
                    Some(mut e_node) => {
                        a_node.right = e_node.left.take();
                        e_node.left = Some(a_node);
                        *root = Some(e_node);
                    }
                }
            }
        }
    }
}

impl<I: Item + Dup> Default for BinarySearchTree<I> {
    fn default() -> (tree: Self)
        ensures
            tree.wf(),
            tree@ == Seq::<I>::empty(),
            tree.count == 0,
    {
        Self::new()
    }
}

/// Law: [`spec_insert_item`] places an item at its sorted position. A
/// non-decreasing item sequence stays non-decreasing, the new item appears
/// at some position, and every other position keeps its old item in order.
pub proof fn lemma_insert_item_sorted<I: Item>(s: Seq<I>, item: I)
    requires
        forall|i: int, j: int|
            0 <= i < j < s.len() ==> key_le(
                (#[trigger] s[i]).key_spec(),
                (#[trigger] s[j]).key_spec(),
            ),
    ensures
        spec_insert_item(s, item).len() == s.len() + 1,
        exists|p: int|
            {
                &&& 0 <= p < spec_insert_item(s, item).len()
                &&& #[trigger] spec_insert_item(s, item)[p] == item
                &&& (forall|i: int| 0 <= i < p ==> #[trigger] spec_insert_item(s, item)[i] == s[i])
                &&& (forall|i: int|
                    p < i < spec_insert_item(s, item).len() ==> #[trigger] spec_insert_item(
                        s,
                        item,
                    )[i] == s[i - 1])
            },
        forall|i: int, j: int|
            0 <= i < j < spec_insert_item(s, item).len() ==> key_le(
                (#[trigger] spec_insert_item(s, item)[i]).key_spec(),
                (#[trigger] spec_insert_item(s, item)[j]).key_spec(),
            ),
    decreases s.len(),
{
    let t = spec_insert_item(s, item);
    let ik = item.key_spec();
    if s.len() == 0 {
        assert(t[0] == item);
    } else if ik.lt(s[0].key_spec()) {
        assert(t[0] == item);
        assert forall|i: int| 0 < i < t.len() implies #[trigger] t[i] == s[i - 1] by {}
        assert forall|i: int, j: int| 0 <= i < j < t.len() implies key_le(
            (#[trigger] t[i]).key_spec(),
            (#[trigger] t[j]).key_spec(),
        ) by {
            assert(t[j] == s[j - 1]);
            if i == 0 {
                if j > 1 {
                    lemma_lt_le_trans(ik, s[0].key_spec(), s[j - 1].key_spec());
                }
            } else {
                assert(t[i] == s[i - 1]);
            }
        }
    } else {
        assert forall|i: int, j: int|
            0 <= i < j < s.drop_first().len() implies key_le(
            (#[trigger] s.drop_first()[i]).key_spec(),
            (#[trigger] s.drop_first()[j]).key_spec(),
        ) by {
            assert(s.drop_first()[i] == s[i + 1]);
            assert(s.drop_first()[j] == s[j + 1]);
        }
        lemma_insert_item_sorted(s.drop_first(), item);
        let u = spec_insert_item(s.drop_first(), item);
        let q = choose|q: int|
            {
                &&& 0 <= q < u.len()
                &&& u[q] == item
                &&& (forall|i: int| 0 <= i < q ==> #[trigger] u[i] == s.drop_first()[i])
                &&& (forall|i: int| q < i < u.len() ==> #[trigger] u[i] == s.drop_first()[i - 1])
            };
        assert(t[q + 1] == item);
        assert forall|i: int| 0 <= i < q + 1 implies #[trigger] t[i] == s[i] by {
            if i > 0 {
                assert(t[i] == u[i - 1]);
                assert(u[i - 1] == s.drop_first()[i - 1]);
            }
        }
        assert forall|i: int| q + 1 < i < t.len() implies #[trigger] t[i] == s[i - 1] by {
            assert(t[i] == u[i - 1]);
            assert(u[i - 1] == s.drop_first()[i - 2]);
        }
        let p = q + 1;
        assert(0 <= p < t.len() && t[p] == item && (forall|i: int|
            0 <= i < p ==> #[trigger] t[i] == s[i]) && (forall|i: int|
            p < i < t.len() ==> #[trigger] t[i] == s[i - 1]));
        assert forall|i: int, j: int| 0 <= i < j < t.len() implies key_le(
            (#[trigger] t[i]).key_spec(),
            (#[trigger] t[j]).key_spec(),
        ) by {
            <I::Key as OrdKey>::lemma_trichotomy(ik, s[0].key_spec());
            assert(key_le(s[0].key_spec(), ik));
            if i == 0 {
                assert(t[0] == s[0]);
                if j < p {
                    assert(t[j] == s[j]);
                } else if j == p {
                } else {
                    assert(t[j] == s[j - 1]);
                }
            } else {
                assert(t[i] == u[i - 1]);
                assert(t[j] == u[j - 1]);
            }
        }
    }
}

/// Law: in a well-formed tree the in-order key sequence never decreases.
/// Every operation of [`BinarySearchTree`] keeps the tree well formed, so
/// this holds of any tree built from `new` by those operations.
pub proof fn lemma_bst_inorder_sorted<I: Item>(link: Link<I>)
    requires
        tree_wf(link),
    ensures
        forall|i: int, j: int|
            0 <= i < j < tree_items(link).len() ==> key_le(
                (#[trigger] tree_items(link)[i]).key_spec(),
                (#[trigger] tree_items(link)[j]).key_spec(),
            ),
    decreases link,
{
    match link {
        None => {
        }
        Some(node) => {
            lemma_bst_inorder_sorted(node.left);
            lemma_bst_inorder_sorted(node.right);
            let l = tree_items(node.left);
            let r = tree_items(node.right);
            let s = node.items();
            let nk = node.item.key_spec();
            assert forall|i: int, j: int| 0 <= i < j < s.len() implies key_le(
                (#[trigger] s[i]).key_spec(),
                (#[trigger] s[j]).key_spec(),
            ) by {
                let m = l.len() as int;
                if i < m {
                    assert(s[i] == l[i]);
                }
                if i > m {
                    assert(s[i] == r[i - m - 1]);
                }
                if j < m {
                    assert(s[j] == l[j]);
                }
                if j > m {
                    assert(s[j] == r[j - m - 1]);
                }
                if i < m && j == m {
                } else if i < m && j > m {
                    lemma_le_trans(l[i].key_spec(), nk, r[j - m - 1].key_spec());
                } else if i == m && j > m {
                }
            }
        }
    }
}

} // verus!
