//! The narrow capability set {insert, retrieve, size} over a cache store.
use vstd::prelude::*;
use crate::cache::{LruCache, put_model, get_model, deref_opt};
use crate::key::CacheKey;

verus! {

/// Operations a cache store offers, independent of how it is built.
pub trait CacheOps<K, V>: Sized {
    /// The store's own consistency condition.
    spec fn ops_wf(&self) -> bool;

    /// What `insert(key, value)` may do, taking `pre` to `post` with result `r`.
    spec fn insert_post(pre: &Self, post: &Self, key: K, value: V, r: Option<V>) -> bool;

    /// What `retrieve(key)` may do, taking `pre` to `post` with result `r`.
    spec fn retrieve_post(pre: &Self, post: &Self, key: &K, r: Option<V>) -> bool;

    /// The number of stored entries.
    spec fn size_spec(&self) -> nat;

    fn insert(&mut self, key: K, value: V) -> (r: Option<V>)
        requires
            old(self).ops_wf(),
        ensures
            final(self).ops_wf(),
            Self::insert_post(old(self), final(self), key, value, r),
    ;

    fn retrieve(&mut self, key: &K) -> (r: Option<&V>)
        requires
            old(self).ops_wf(),
        ensures
            final(self).ops_wf(),
            Self::retrieve_post(old(self), final(self), key, deref_opt(r)),
    ;

    fn size(&self) -> (r: usize)
        ensures
            r == self.size_spec(),
    ;
}

impl<K: CacheKey, V> CacheOps<K, V> for LruCache<K, V> {
    open spec fn ops_wf(&self) -> bool {
        self.wf()
    }

    open spec fn insert_post(pre: &Self, post: &Self, key: K, value: V, r: Option<V>) -> bool {
        &&& post.spec_capacity() == pre.spec_capacity()
        &&& (post@, r) == put_model(pre@, pre.spec_capacity(), key@, value)
    }

    open spec fn retrieve_post(pre: &Self, post: &Self, key: &K, r: Option<V>) -> bool {
        &&& post.spec_capacity() == pre.spec_capacity()
        &&& post@ == get_model(pre@, key@).0
        &&& r == get_model(pre@, key@).1
    }

    open spec fn size_spec(&self) -> nat {
        self@.len()
    }

    fn insert(&mut self, key: K, value: V) -> (r: Option<V>) {
        self.put(key, value)
    }

    fn retrieve(&mut self, key: &K) -> (r: Option<&V>) {
        self.get(key)
    }

    fn size(&self) -> (r: usize) {
        self.len()
    }
}

/// Inserting through the capability interface ends in the same contents and
/// the same result as `put` on the same store and arguments.
pub proof fn lemma_insert_is_put<K: CacheKey, V>(
    pre: LruCache<K, V>,
    by_put: LruCache<K, V>,
    put_result: Option<V>,
    by_insert: LruCache<K, V>,
    insert_result: Option<V>,
    key: K,
    value: V,
)
    requires
        pre.wf(),
        (by_put@, put_result) == put_model(pre@, pre.spec_capacity(), key@, value),
        by_put.spec_capacity() == pre.spec_capacity(),
        <LruCache<K, V> as CacheOps<K, V>>::insert_post(&pre, &by_insert, key, value, insert_result),
    ensures
        by_insert@ == by_put@,
        by_insert.spec_capacity() == by_put.spec_capacity(),
        insert_result == put_result,
{
}

/// Retrieving through the capability interface ends in the same contents and
/// the same result as `get`, and `size` reports what `len` does.
pub proof fn lemma_retrieve_is_get<K: CacheKey, V>(
    pre: LruCache<K, V>,
    by_get: LruCache<K, V>,
    get_result: Option<V>,
    by_retrieve: LruCache<K, V>,
    retrieve_result: Option<V>,
    key: K,
)
    requires
        pre.wf(),
        by_get@ == get_model(pre@, key@).0,
        get_result == get_model(pre@, key@).1,
        <LruCache<K, V> as CacheOps<K, V>>::retrieve_post(&pre, &by_retrieve, &key, retrieve_result),
    ensures
        by_retrieve@ == by_get@,
        retrieve_result == get_result,
        <LruCache<K, V> as CacheOps<K, V>>::size_spec(&by_retrieve) == by_get@.len(),
{
}

} // verus!
