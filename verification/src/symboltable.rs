//! Simple symbol tables: key-indexed, ordered-array and linked-list
//! storage. These are straight-line companions of the tree tables, with the
//! same item interface.

use vstd::prelude::*;

use crate::binarysearchtree::{lemma_insert_item_append, lemma_insert_item_members, spec_insert_item};
use crate::entries::{key_le, lemma_le_trans, lemma_lt_le_trans};
use crate::item::Item;
use crate::keys::{Dup, KeyCmp, OrdKey};

verus! {

/// How many slots hold an item.
pub open spec fn occupied_count<I>(slots: Seq<Option<I>>, upto: int) -> nat
    decreases upto,
{
    if upto <= 0 {
        0
    } else {
        occupied_count(slots, upto - 1) + (if slots[upto - 1] is Some {
            1nat
        } else {
            0nat
        })
    }
}

/// The item of rank `k` among the occupied slots, scanning upward.
pub open spec fn kth_occupied<I>(slots: Seq<Option<I>>, k: nat) -> Option<I>
    decreases slots.len(),
{
    if slots.len() == 0 {
        None
    } else {
        match slots[0] {
            Some(item) => if k == 0 {
                Some(item)
            } else {
                kth_occupied(slots.drop_first(), (k - 1) as nat)
            },
            None => kth_occupied(slots.drop_first(), k),
        }
    }
}

/// The items of the occupied slots that are not null, in slot order.
pub open spec fn visible_items<I: Item>(slots: Seq<Option<I>>) -> Seq<I>
    decreases slots.len(),
{
    if slots.len() == 0 {
        Seq::empty()
    } else {
        visible_items(slots.drop_last()) + (match slots.last() {
            Some(item) => if item.is_null() {
                Seq::empty()
            } else {
                seq![item]
            },
            None => Seq::empty(),
        })
    }
}

/// The items without the null ones, in order.
pub open spec fn non_null_items<I: Item>(s: Seq<I>) -> Seq<I>
    decreases s.len(),
{
    if s.len() == 0 {
        s
    } else {
        non_null_items(s.drop_last()) + (if s.last().is_null() {
            Seq::empty()
        } else {
            seq![s.last()]
        })
    }
}

/// The items, with the first one whose key compares as equal to `k`, if
/// any, taken out.
pub open spec fn spec_array_remove<I: Item>(s: Seq<I>, k: I::Key) -> Seq<I>
    decreases s.len(),
{
    if s.len() == 0 {
        s
    } else if s[0].key_spec().eqv(k) {
        s.drop_first()
    } else {
        seq![s[0]] + spec_array_remove(s.drop_first(), k)
    }
}

/// Removing a key that matches first at position `i` takes out exactly the
/// item at `i`.
pub proof fn lemma_array_remove_at<I: Item>(s: Seq<I>, k: I::Key, i: int)
    requires
        0 <= i < s.len(),
        s[i].key_spec().eqv(k),
        forall|j: int| 0 <= j < i ==> !(#[trigger] s[j]).key_spec().eqv(k),
    ensures
        spec_array_remove(s, k) == s.remove(i),
    decreases i,
{
    if i == 0 {
        assert(s.drop_first() =~= s.remove(0));
    } else {
        assert(!s[0].key_spec().eqv(k));
        assert forall|j: int| 0 <= j < i - 1 implies !(#[trigger] s.drop_first()[
        j]).key_spec().eqv(k) by {
            assert(s.drop_first()[j] == s[j + 1]);
        }
        assert(s.drop_first()[i - 1] == s[i]);
        lemma_array_remove_at(s.drop_first(), k, i - 1);
        assert(seq![s[0]] + s.drop_first().remove(i - 1) =~= s.remove(i));
    }
}

/// Removing an absent key changes nothing.
pub proof fn lemma_array_remove_absent<I: Item>(s: Seq<I>, k: I::Key)
    requires
        forall|j: int| 0 <= j < s.len() ==> !(#[trigger] s[j]).key_spec().eqv(k),
    ensures
        spec_array_remove(s, k) == s,
    decreases s.len(),
{
    if s.len() > 0 {
        assert forall|j: int|
            0 <= j < s.drop_first().len() implies !(#[trigger] s.drop_first()[j]).key_spec().eqv(
            k,
        ) by {
            assert(s.drop_first()[j] == s[j + 1]);
        }
        lemma_array_remove_absent(s.drop_first(), k);
        assert(seq![s[0]] + s.drop_first() =~= s);
    }
}

/// A key-indexed symbol table: keys are small numbers used as indices into
/// an array of slots.
pub struct KeyIndexedSymbolTable<I> {
    pub items: Vec<Option<I>>,
    pub m: usize,
}

impl<I: Item<Key = usize> + Dup> KeyIndexedSymbolTable<I> {
    /// The table's slots match its capacity.
    pub open spec fn wf(self) -> bool {
        self.items@.len() == self.m
    }

    /// An empty table with `m` slots.
    pub fn new(m: usize) -> (table: Self)
        ensures
            table.wf(),
            table.m == m,
            forall|i: int| 0 <= i < m ==> table.items@[i] is None,
    {
        let mut items: Vec<Option<I>> = Vec::new();
        let mut i: usize = 0;
        while i < m
            invariant
                i <= m,
                items@.len() == i,
                forall|j: int| 0 <= j < i ==> items@[j] is None,
            decreases m - i,
        {
            items.push(None);
            i = i + 1;
        }
        KeyIndexedSymbolTable { items, m }
    }

    /// How many items the table holds.
    pub fn count(&self) -> (n: usize)
        requires
            self.wf(),
        ensures
            n == occupied_count(self.items@, self.m as int),
    {
        let mut n: usize = 0;
        let mut i: usize = 0;
        while i < self.m
            invariant
                i <= self.m,
                self.wf(),
                n == occupied_count(self.items@, i as int),
                n <= i,
            decreases self.m - i,
        {
            if self.items[i].is_some() {
                n = n + 1;
            }
            i = i + 1;
        }
        n
    }

    /// The item stored under the given key, if any.
    pub fn search(&self, key: usize) -> (res: Option<I>)
        requires
            self.wf(),
            key < self.m,
        ensures
            res == self.items@[key as int],
    {
        match &self.items[key] {
            Some(item) => Some(item.dup()),
            None => None,
        }
    }

    /// Store an item under its own key.
    pub fn insert(&mut self, item: I)
        requires
            old(self).wf(),
            item.key_spec() < old(self).m,
        ensures
            final(self).wf(),
            final(self).m == old(self).m,
            final(self).items@ == old(self).items@.update(item.key_spec() as int, Some(item)),
    {
        let key = item.key();
        self.items.set(key, Some(item));
    }

    /// Clear the slot the item's key names.
    pub fn remove(&mut self, item: I)
        requires
            old(self).wf(),
            item.key_spec() < old(self).m,
        ensures
            final(self).wf(),
            final(self).m == old(self).m,
            final(self).items@ == old(self).items@.update(
                item.key_spec() as int,
                None::<I>,
            ),
    {
        let key = item.key();
        self.items.set(key, None);
    }

    /// The `k`-th smallest stored item: slot order is key order here.
    pub fn select(&self, k: usize) -> (res: Option<I>)
        requires
            self.wf(),
        ensures
            res == kth_occupied(self.items@, k as nat),
    {
        proof {
            assert(self.items@.skip(0) =~= self.items@);
        }
        Self::select_r(&self.items, 0, k)
    }

    fn select_r(items: &Vec<Option<I>>, i: usize, k: usize) -> (res: Option<I>)
        requires
            i <= items@.len(),
        ensures
            res == kth_occupied(items@.skip(i as int), k as nat),
        decreases items@.len() - i,
    {
        if i == items.len() {
            None
        } else {
            proof {
                assert(items@.skip(i as int)[0] == items@[i as int]);
                assert(items@.skip(i as int).drop_first() =~= items@.skip(i + 1));
            }
            match &items[i] {
                Some(item) => {
                    if k == 0 {
                        Some(item.dup())
                    } else {
                        Self::select_r(items, i + 1, k - 1)
                    }
                }
                None => Self::select_r(items, i + 1, k),
            }
        }
    }

    /// The stored items in slot order, without the null ones.
    pub fn show(&self) -> (res: Vec<I>)
        requires
            self.wf(),
        ensures
            res@ == visible_items(self.items@),
    {
        let n = self.items.len();
        let mut res: Vec<I> = Vec::new();
        let mut i: usize = 0;
        while i < n
            invariant
                i <= n,
                n == self.items@.len(),
                res@ == visible_items(self.items@.take(i as int)),
            decreases n - i,
        {
            proof {
                assert(self.items@.take(i + 1).drop_last() =~= self.items@.take(i as int));
                assert(self.items@.take(i + 1).last() == self.items@[i as int]);
            }
            match &self.items[i] {
                Some(item) => {
                    if !item.null() {
                        res.push(item.dup());
                    }
                }
                None => {
                }
            }
            proof {
                assert(res@ =~= visible_items(self.items@.take(i + 1)));
            }
            i = i + 1;
        }
        proof {
            assert(self.items@.take(n as int) =~= self.items@);
        }
        res
    }
}

/// An ordered-array symbol table: the items are kept sorted by key, and
/// insertion shifts larger items up, as in insertion sort.
pub struct ArraySymbolTable<I> {
    pub items: Vec<I>,
}

impl<I: Item + Dup> ArraySymbolTable<I> {
    /// The items never decrease in key order.
    pub open spec fn wf(self) -> bool {
        forall|i: int, j: int|
            0 <= i < j < self.items@.len() ==> key_le(
                (#[trigger] self.items@[i]).key_spec(),
                (#[trigger] self.items@[j]).key_spec(),
            )
    }

    /// An empty table with room for `m` items.
    pub fn new(m: usize) -> (table: Self)
        ensures
            table.wf(),
            table.items@.len() == 0,
    {
        ArraySymbolTable { items: Vec::with_capacity(m) }
    }

    /// How many items the table holds.
    pub fn count(&self) -> (n: usize)
        ensures
            n == self.items@.len(),
    {
        self.items.len()
    }

    /// The position of the first item whose key compares as equal to the
    /// given item's key, if one exists.
    pub fn find_index(&self, item: I) -> (res: Option<usize>)
        ensures
            res matches Some(i) ==> i < self.items@.len() && (#[trigger] self.items@[
                i as int]).key_spec().eqv(item.key_spec()) && (forall|j: int|
                0 <= j < i ==> !(#[trigger] self.items@[j]).key_spec().eqv(item.key_spec())),
            res is None ==> forall|j: int|
                0 <= j < self.items@.len() ==> !(#[trigger] self.items@[j]).key_spec().eqv(
                    item.key_spec(),
                ),
    {
        let key = item.key();
        let n = self.items.len();
        let mut i: usize = 0;
        while i < n
            invariant
                i <= n,
                n == self.items@.len(),
                key == item.key_spec(),
                forall|j: int|
                    0 <= j < i ==> !(#[trigger] self.items@[j]).key_spec().eqv(item.key_spec()),
            decreases n - i,
        {
            let ord = self.items[i].key().cmp_key(&key);
            if ord == KeyCmp::Equal {
                return Some(i);
            }
            proof {
                <I::Key as OrdKey>::lemma_trichotomy(self.items@[i as int].key_spec(), key);
            }
            i = i + 1;
        }
        None
    }

    /// The item carrying the given key, if one is stored.
    pub fn search(&self, key: I::Key) -> (res: Option<I>)
        requires
            self.wf(),
        ensures
            res matches Some(found) ==> (exists|i: int|
                0 <= i < self.items@.len() && #[trigger] self.items@[i] == found)
                && found.key_spec().eqv(key),
            res is None ==> forall|i: int|
                0 <= i < self.items@.len() ==> !(#[trigger] self.items@[i]).key_spec().eqv(key),
    {
        let n = self.items.len();
        let mut i: usize = 0;
        while i < n
            invariant
                i <= n,
                n == self.items@.len(),
                self.wf(),
                forall|j: int|
                    0 <= j < i ==> !(#[trigger] self.items@[j]).key_spec().eqv(key),
            decreases n - i,
        {
            let ord = self.items[i].key().cmp_key(&key);
            if ord == KeyCmp::Equal {
                return Some(self.items[i].dup());
            }
            proof {
                <I::Key as OrdKey>::lemma_trichotomy(self.items@[i as int].key_spec(), key);
            }
            i = i + 1;
        }
        None
    }

    /// Add an item, keeping the array in key order by moving larger items
    /// up to make room, as in insertion sort.
    pub fn insert(&mut self, item: I)
        requires
            old(self).wf(),
            old(self).items@.len() < usize::MAX,
        ensures
            final(self).wf(),
            final(self).items@ == spec_insert_item(old(self).items@, item),
    {
        let ghost orig = self.items@;
        let ghost ik = item.key_spec();
        let key = item.key();
        let n = self.items.len();
        let mut i: usize = n;
        let mut done = i == 0;
        while !done
            invariant
                i <= n,
                n == orig.len(),
                self.items@ == orig,
                self.wf(),
                key == ik,
                forall|j: int| i <= j < n ==> ik.lt((#[trigger] orig[j]).key_spec()),
                done ==> i == 0 || !ik.lt(orig[i - 1].key_spec()),
            decreases i + (if done {
                0int
            } else {
                1int
            }),
        {
            if i == 0 {
                done = true;
            } else {
                let ord = self.items[i - 1].key().cmp_key(&key);
                if ord == KeyCmp::Greater {
                    proof {
                        assert(ik.lt(orig[i - 1].key_spec()));
                        assert forall|j: int| i - 1 <= j < n implies ik.lt(
                            (#[trigger] orig[j]).key_spec(),
                        ) by {
                            if j > i - 1 {
                                lemma_lt_le_trans(ik, orig[i - 1].key_spec(), orig[j].key_spec());
                            }
                        }
                    }
                    i = i - 1;
                } else {
                    proof {
                        <I::Key as OrdKey>::lemma_trichotomy(orig[i - 1].key_spec(), ik);
                        <I::Key as OrdKey>::lemma_trichotomy(ik, orig[i - 1].key_spec());
                    }
                    done = true;
                }
            }
        }
        proof {
            assert(orig =~= orig.take(i as int) + orig.skip(i as int));
            assert forall|j: int| 0 <= j < i implies !ik.lt(
                (#[trigger] orig.take(i as int)[j]).key_spec(),
            ) by {
                assert(orig.take(i as int)[j] == orig[j]);
                <I::Key as OrdKey>::lemma_trichotomy(orig[i - 1].key_spec(), ik);
                assert(key_le(orig[i - 1].key_spec(), ik));
                if j < i - 1 {
                    lemma_le_trans(orig[j].key_spec(), orig[i - 1].key_spec(), ik);
                }
                <I::Key as OrdKey>::lemma_trichotomy(orig[j].key_spec(), ik);
                <I::Key as OrdKey>::lemma_trichotomy(ik, orig[j].key_spec());
            }
            lemma_insert_item_append(orig.take(i as int), orig.skip(i as int), item);
            if i < n {
                assert(orig.skip(i as int)[0] == orig[i as int]);
                assert(spec_insert_item(orig.skip(i as int), item) == seq![item] + orig.skip(
                    i as int,
                ));
            } else {
                assert(orig.skip(i as int).len() == 0);
                assert(spec_insert_item(orig.skip(i as int), item) =~= seq![item] + orig.skip(
                    i as int,
                ));
            }
            assert(spec_insert_item(orig, item) == orig.take(i as int) + (seq![item] + orig.skip(
                i as int,
            )));
            assert(spec_insert_item(orig, item) =~= orig.insert(i as int, item));
        }
        self.items.insert(i, item);
        proof {
            let t = spec_insert_item(orig, item);
            lemma_insert_item_members(orig, item);
            assert forall|a: int, b: int| 0 <= a < b < t.len() implies key_le(
                (#[trigger] t[a]).key_spec(),
                (#[trigger] t[b]).key_spec(),
            ) by {
                assert(t == orig.insert(i as int, item));
                if a < i && b < i {
                    assert(t[a] == orig[a] && t[b] == orig[b]);
                } else if a < i && b == i {
                    assert(t[a] == orig[a] && t[b] == item);
                    <I::Key as OrdKey>::lemma_trichotomy(orig[a].key_spec(), ik);
                    <I::Key as OrdKey>::lemma_trichotomy(ik, orig[a].key_spec());
                } else if a < i && b > i {
                    assert(t[a] == orig[a] && t[b] == orig[b - 1]);
                } else if a == i && b > i {
                    assert(t[a] == item && t[b] == orig[b - 1]);
                } else if a > i && b > i {
                    assert(t[a] == orig[a - 1] && t[b] == orig[b - 1]);
                }
            }
        }
    }

    /// Take out the first item whose key compares as equal to the given
    /// item's key; a miss leaves the table alone.
    pub fn remove(&mut self, item: I)
        requires
            old(self).wf(),
        ensures
            final(self).wf(),
            final(self).items@ == spec_array_remove(old(self).items@, item.key_spec()),
    {
        let ghost orig = self.items@;
        let found = self.find_index(item);
        match found {
            Some(i) => {
                proof {
                    lemma_array_remove_at(orig, item.key_spec(), i as int);
                }
                self.items.remove(i);
                proof {
                    assert forall|a: int, b: int|
                        0 <= a < b < self.items@.len() implies key_le(
                        (#[trigger] self.items@[a]).key_spec(),
                        (#[trigger] self.items@[b]).key_spec(),
                    ) by {
                        let a0: int = if a < i as int {
                            a
                        } else {
                            a + 1
                        };
                        let b0: int = if b < i as int {
                            b
                        } else {
                            b + 1
                        };
                        assert(self.items@[a] == orig[a0]);
                        assert(self.items@[b] == orig[b0]);
                    }
                }
            }
            None => {
                proof {
                    lemma_array_remove_absent(orig, item.key_spec());
                }
            }
        }
    }

    /// The item at position `k` of the key order.
    pub fn select(&self, k: usize) -> (res: I)
        requires
            self.wf(),
            k < self.items@.len(),
        ensures
            res == self.items@[k as int],
    {
        self.items[k].dup()
    }

    /// The stored items in key order, without the null ones.
    pub fn show(&self) -> (res: Vec<I>)
        ensures
            res@ == non_null_items(self.items@),
    {
        let n = self.items.len();
        let mut res: Vec<I> = Vec::new();
        let mut i: usize = 0;
        while i < n
            invariant
                i <= n,
                n == self.items@.len(),
                res@ == non_null_items(self.items@.take(i as int)),
            decreases n - i,
        {
            proof {
                assert(self.items@.take(i + 1).drop_last() =~= self.items@.take(i as int));
                assert(self.items@.take(i + 1).last() == self.items@[i as int]);
            }
            if !self.items[i].null() {
                res.push(self.items[i].dup());
            }
            proof {
                if self.items@[i as int].is_null() {
                    assert(non_null_items(self.items@.take(i + 1)) =~= non_null_items(
                        self.items@.take(i as int),
                    ));
                } else {
                    assert(non_null_items(self.items@.take(i + 1)) =~= non_null_items(
                        self.items@.take(i as int),
                    ) + seq![self.items@[i as int]]);
                    assert(res@ =~= non_null_items(self.items@.take(i + 1)));
                }
            }
            i = i + 1;
        }
        proof {
            assert(self.items@.take(n as int) =~= self.items@);
        }
        res
    }
}

/// A node of the linked symbol table: an item and the rest of the list.
pub struct Node<I> {
    pub item: I,
    pub next: Option<Box<Node<I>>>,
}

impl<I> Node<I> {
    /// A list cell.
    pub fn new(item: I, next: Option<Box<Node<I>>>) -> (node: Node<I>)
        ensures
            node.item == item,
            node.next == next,
    {
        Node { item, next }
    }
}

/// The items of a list, most recently added first.
pub open spec fn list_items<I>(link: Option<Box<Node<I>>>) -> Seq<I>
    decreases link,
{
    match link {
        None => Seq::empty(),
        Some(node) => seq![node.item] + list_items(node.next),
    }
}

/// The first item of a list whose key compares as equal to `k`.
pub open spec fn spec_list_search<I: Item>(s: Seq<I>, k: I::Key) -> Option<I>
    decreases s.len(),
{
    if s.len() == 0 {
        None
    } else if s[0].key_spec().eqv(k) {
        Some(s[0])
    } else {
        spec_list_search(s.drop_first(), k)
    }
}

/// A linked-list symbol table: unordered storage with newest items first.
pub struct LinkedSymbolTable<I> {
    pub head: Option<Box<Node<I>>>,
    pub count: usize,
}

impl<I: Item + Dup> LinkedSymbolTable<I> {
    /// An empty table.
    pub fn new() -> (table: Self)
        ensures
            list_items(table.head) == Seq::<I>::empty(),
            table.count == 0,
    {
        LinkedSymbolTable { head: None, count: 0 }
    }

    /// How many items were inserted.
    pub fn count(&self) -> (n: usize)
        ensures
            n == self.count,
    {
        self.count
    }

    /// Add an item at the front of the list.
    pub fn insert(&mut self, item: I)
        requires
            old(self).count < usize::MAX,
        ensures
            list_items(final(self).head) == seq![item] + list_items(old(self).head),
            final(self).count == old(self).count + 1,
    {
        let mut head = None;
        std::mem::swap(&mut head, &mut self.head);
        self.head = Some(Box::new(Node::new(item, head)));
        self.count = self.count + 1;
    }

    /// The most recently added item carrying the given key, if any.
    pub fn search(&self, key: I::Key) -> (res: Option<I>)
        ensures
            res == spec_list_search(list_items(self.head), key),
    {
        Self::search_r(&self.head, &key)
    }

    /// Recursive search through the list.
    pub fn search_r(link: &Option<Box<Node<I>>>, key: &I::Key) -> (res: Option<I>)
        ensures
            res == spec_list_search(list_items(*link), *key),
        decreases *link,
    {
        match link {
            Some(node) => {
                proof {
                    assert(list_items(*link)[0] == node.item);
                    assert(list_items(*link).drop_first() =~= list_items(node.next));
                }
                let node_key = node.item.key();
                let ord = node_key.cmp_key(key);
                proof {
                    <I::Key as OrdKey>::lemma_trichotomy(node.item.key_spec(), *key);
                }
                if ord == KeyCmp::Equal {
                    Some(node.item.dup())
                } else {
                    Self::search_r(&node.next, key)
                }
            }
            None => None,
        }
    }
}

} // verus!
