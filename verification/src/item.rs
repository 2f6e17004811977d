//! Items that can be stored in symbol tables.

use vstd::prelude::*;

use crate::keys::{Dup, KeyCmp, OrdKey};

verus! {

/// Interface of items that can be stored in a symbol table: an item carries
/// an orderable key, and can tell whether it is a null item of its type.
pub trait Item: Sized {
    type Key: OrdKey;

    /// The key the item carries.
    spec fn key_spec(self) -> Self::Key;

    /// Whether the item counts as null.
    spec fn is_null(self) -> bool;

    /// Hand out the item's key.
    fn key(&self) -> (k: Self::Key)
        ensures
            k == self.key_spec(),
    ;

    /// Decide whether the item counts as null.
    fn null(&self) -> (b: bool)
        ensures
            b == self.is_null(),
    ;
}

/// An item holding a key of any ordered type. An item is null when its key
/// compares as equal to the key type's default. The second type parameter
/// names the value type that a richer item of this kind would carry; no
/// value is stored.
#[derive(Debug, PartialEq)]
pub struct GenericItem<K, V> {
    key: K,
    null_key: K,
    value: core::marker::PhantomData<V>,
}

impl<K: OrdKey + core::default::Default, V> GenericItem<K, V> {
    /// An item carrying the given key.
    pub fn new(key: K) -> (item: Self)
        ensures
            item.key_spec() == key,
    {
        GenericItem { key, null_key: K::default(), value: core::marker::PhantomData }
    }
}

impl<K: OrdKey, V> Item for GenericItem<K, V> {
    type Key = K;

    closed spec fn key_spec(self) -> K {
        self.key
    }

    closed spec fn is_null(self) -> bool {
        self.key.eqv(self.null_key)
    }

    fn key(&self) -> (k: K)
        ensures
            k == self.key_spec(),
    {
        self.key.dup()
    }

    fn null(&self) -> (b: bool)
        ensures
            b == self.is_null(),
    {
        let ord = self.key.cmp_key(&self.null_key);
        proof {
            K::lemma_trichotomy(self.key, self.null_key);
            K::lemma_trichotomy(self.null_key, self.key);
        }
        ord == KeyCmp::Equal
    }
}

impl<K: Dup, V> Clone for GenericItem<K, V> {
    fn clone(&self) -> (copy: Self)
        ensures
            copy == *self,
    {
        self.dup()
    }
}

impl<K: Dup, V> Dup for GenericItem<K, V> {
    fn dup(&self) -> (copy: Self)
        ensures
            copy == *self,
    {
        GenericItem {
            key: self.key.dup(),
            null_key: self.null_key.dup(),
            value: core::marker::PhantomData,
        }
    }
}

} // verus!
