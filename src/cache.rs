//! The in-memory LRU store: entries kept in recency order, oldest first.
use vstd::prelude::*;
use crate::key::CacheKey;

verus! {

/// The keys of a recency sequence, in the same order.
pub open spec fn keys_of<A, B>(s: Seq<(A, B)>) -> Seq<A> {
    s.map_values(|e: (A, B)| e.0)
}

/// No key occurs twice in the recency sequence.
pub open spec fn distinct_keys<A, B>(s: Seq<(A, B)>) -> bool {
    keys_of(s).no_duplicates()
}

/// Whether key `k` is stored.
pub open spec fn has_key<A, B>(s: Seq<(A, B)>, k: A) -> bool {
    keys_of(s).contains(k)
}

/// The position of a stored key in the recency sequence.
pub open spec fn position<A, B>(s: Seq<(A, B)>, k: A) -> int {
    keys_of(s).index_of(k)
}

/// The recency sequence after the entry at `i` was used: it moves to the newest end.
pub open spec fn touch<A, B>(s: Seq<(A, B)>, i: int) -> Seq<(A, B)> {
    s.remove(i).push(s[i])
}

/// Contents and result of `put(k, v)` on contents `s` with capacity `cap`.
pub open spec fn put_model<A, B>(s: Seq<(A, B)>, cap: nat, k: A, v: B) -> (Seq<(A, B)>, Option<B>) {
    if cap == 0 {
        (s, None)
    } else if has_key(s, k) {
        (s.remove(position(s, k)).push((k, v)), Some(s[position(s, k)].1))
    } else if s.len() >= cap {
        (s.drop_first().push((k, v)), None)
    } else {
        (s.push((k, v)), None)
    }
}

/// Contents and result of `get(k)` on contents `s`.
pub open spec fn get_model<A, B>(s: Seq<(A, B)>, k: A) -> (Seq<(A, B)>, Option<B>) {
    if has_key(s, k) {
        (touch(s, position(s, k)), Some(s[position(s, k)].1))
    } else {
        (s, None)
    }
}

/// Reading a borrowed result as a value.
pub open spec fn deref_opt<B>(r: Option<&B>) -> Option<B> {
    match r {
        Some(v) => Some(*v),
        None => None,
    }
}

/// A key found at `i` is the one `position` names.
pub proof fn lemma_position_at<A, B>(s: Seq<(A, B)>, k: A, i: int)
    requires
        distinct_keys(s),
        0 <= i < s.len(),
        s[i].0 == k,
    ensures
        has_key(s, k),
        position(s, k) == i,
{
    assert(keys_of(s)[i] == k);
    let p = position(s, k);
    assert(0 <= p < s.len() && keys_of(s)[p] == k);
}

/// Removing an entry and appending a fresh one whose key is not left keeps keys distinct.
pub proof fn lemma_remove_push_distinct<A, B>(s: Seq<(A, B)>, i: int, e: (A, B))
    requires
        distinct_keys(s),
        0 <= i < s.len(),
        !has_key(s.remove(i), e.0),
    ensures
        distinct_keys(s.remove(i).push(e)),
{
    let t = s.remove(i);
    let u = t.push(e);
    assert forall|a: int, b: int| 0 <= a < u.len() && 0 <= b < u.len() && a != b implies
        keys_of(u)[a] != keys_of(u)[b] by {
        if a == t.len() {
            assert(keys_of(t)[b] == keys_of(u)[b]);
        } else if b == t.len() {
            assert(keys_of(t)[a] == keys_of(u)[a]);
        } else {
            let ia = if a < i { a } else { a + 1 };
            let ib = if b < i { b } else { b + 1 };
            assert(keys_of(s)[ia] != keys_of(s)[ib]);
        }
    }
}

/// The keys left after removing the entry at `i` are those of `s` but `s[i].0`.
pub proof fn lemma_remove_keys<A, B>(s: Seq<(A, B)>, i: int, k: A)
    requires
        distinct_keys(s),
        0 <= i < s.len(),
    ensures
        has_key(s.remove(i), k) <==> (has_key(s, k) && k != s[i].0),
{
    let t = s.remove(i);
    if has_key(t, k) {
        let j = choose|j: int| 0 <= j < keys_of(t).len() && keys_of(t)[j] == k;
        let sj = if j < i { j } else { j + 1 };
        assert(keys_of(s)[sj] == k);
        assert(keys_of(s)[i] == s[i].0);
    }
    if has_key(s, k) && k != s[i].0 {
        let j = choose|j: int| 0 <= j < keys_of(s).len() && keys_of(s)[j] == k;
        if j < i {
            assert(keys_of(t)[j] == k);
        } else {
            assert(j != i);
            assert(keys_of(t)[j - 1] == k);
        }
    }
}

/// Appending an entry whose key is new keeps keys distinct.
pub proof fn lemma_push_distinct<A, B>(t: Seq<(A, B)>, e: (A, B))
    requires
        distinct_keys(t),
        !has_key(t, e.0),
    ensures
        distinct_keys(t.push(e)),
{
    let u = t.push(e);
    assert forall|a: int, b: int| 0 <= a < u.len() && 0 <= b < u.len() && a != b implies
        keys_of(u)[a] != keys_of(u)[b] by {
        if a < t.len() && b < t.len() {
            assert(keys_of(t)[a] != keys_of(t)[b]);
        } else if a < t.len() {
            assert(keys_of(t)[a] != e.0);
        } else {
            assert(keys_of(t)[b] != e.0);
        }
    }
}

/// The keys after appending `e` are those of `t` and `e.0`.
pub proof fn lemma_push_keys<A, B>(t: Seq<(A, B)>, e: (A, B), x: A)
    ensures
        has_key(t.push(e), x) <==> (x == e.0 || has_key(t, x)),
{
    let u = t.push(e);
    assert(keys_of(u)[t.len() as int] == e.0);
    if has_key(u, x) && x != e.0 {
        let j = choose|j: int| 0 <= j < keys_of(u).len() && keys_of(u)[j] == x;
        assert(keys_of(t)[j] == x);
    }
    if has_key(t, x) {
        let j = choose|j: int| 0 <= j < keys_of(t).len() && keys_of(t)[j] == x;
        assert(keys_of(u)[j] == x);
    }
}

/// `put` keeps keys distinct, keeps a cache within capacity that was, and adds
/// no key but its own.
pub proof fn lemma_put_model_wf<A, B>(s: Seq<(A, B)>, cap: nat, k: A, v: B)
    requires
        distinct_keys(s),
    ensures
        distinct_keys(put_model(s, cap, k, v).0),
        s.len() <= cap ==> put_model(s, cap, k, v).0.len() <= cap,
        forall|x: A| has_key(put_model(s, cap, k, v).0, x) ==> x == k || has_key(s, x),
{
    if cap == 0 {
    } else if has_key(s, k) {
        let i = position(s, k);
        lemma_remove_keys(s, i, k);
        lemma_remove_push_distinct(s, i, (k, v));
        assert forall|x: A| has_key(put_model(s, cap, k, v).0, x) implies x == k || has_key(s, x) by {
            lemma_push_keys(s.remove(i), (k, v), x);
            lemma_remove_keys(s, i, x);
        }
    } else if s.len() >= cap {
        assert(s.drop_first() =~= s.remove(0));
        lemma_remove_keys(s, 0, k);
        lemma_remove_push_distinct(s, 0, (k, v));
        assert forall|x: A| has_key(put_model(s, cap, k, v).0, x) implies x == k || has_key(s, x) by {
            lemma_push_keys(s.remove(0), (k, v), x);
            lemma_remove_keys(s, 0, x);
        }
    } else {
        lemma_push_distinct(s, (k, v));
        assert forall|x: A| has_key(put_model(s, cap, k, v).0, x) implies x == k || has_key(s, x) by {
            lemma_push_keys(s, (k, v), x);
        }
    }
}

/// Contents after an entry is restored from a snapshot: a new key goes to the
/// newest end, a repeated key takes the new value where it stands. Nothing is evicted.
pub open spec fn restore_model<A, B>(s: Seq<(A, B)>, k: A, v: B) -> Seq<(A, B)> {
    if has_key(s, k) {
        s.update(position(s, k), (k, v))
    } else {
        s.push((k, v))
    }
}

/// Contents after restoring each pair of `pairs` in order into an empty cache.
pub open spec fn restore_all<A, B>(pairs: Seq<(A, B)>) -> Seq<(A, B)>
    decreases pairs.len(),
{
    if pairs.len() == 0 {
        Seq::empty()
    } else {
        restore_model(restore_all(pairs.drop_last()), pairs.last().0, pairs.last().1)
    }
}

/// Dropping the last pair keeps keys distinct, and its key is not among the rest.
pub proof fn lemma_drop_last_distinct<A, B>(ops: Seq<(A, B)>)
    requires
        distinct_keys(ops),
        ops.len() > 0,
    ensures
        distinct_keys(ops.drop_last()),
        !has_key(ops.drop_last(), ops.last().0),
{
    let t = ops.drop_last();
    assert forall|a: int, b: int| 0 <= a < t.len() && 0 <= b < t.len() && a != b implies
        keys_of(t)[a] != keys_of(t)[b] by {
        assert(keys_of(ops)[a] != keys_of(ops)[b]);
    }
    assert forall|j: int| 0 <= j < keys_of(t).len() implies keys_of(t)[j] != ops.last().0 by {
        assert(keys_of(ops)[j] != keys_of(ops)[ops.len() - 1]);
    }
}

/// Restoring keeps keys distinct.
pub proof fn lemma_restore_distinct<A, B>(s: Seq<(A, B)>, k: A, v: B)
    requires
        distinct_keys(s),
    ensures
        distinct_keys(restore_model(s, k, v)),
{
    if has_key(s, k) {
        let i = position(s, k);
        assert(keys_of(s.update(i, (k, v))) =~= keys_of(s));
    } else {
        lemma_push_distinct(s, (k, v));
    }
}

/// Restoring pairs with distinct keys into an empty cache gives exactly those
/// pairs, in the same order, however many there are.
pub proof fn lemma_restore_all_distinct<A, B>(pairs: Seq<(A, B)>)
    requires
        distinct_keys(pairs),
    ensures
        restore_all(pairs) == pairs,
    decreases pairs.len(),
{
    if pairs.len() > 0 {
        lemma_drop_last_distinct(pairs);
        lemma_restore_all_distinct(pairs.drop_last());
        assert(pairs.drop_last().push(pairs.last()) =~= pairs);
    }
}

/// A bounded key/value cache that evicts the least-recently-used entry when full.
pub struct LruCache<K: CacheKey, V> {
    capacity: usize,
    entries: Vec<(K, V)>,
}

impl<K: CacheKey, V> View for LruCache<K, V> {
    type V = Seq<(K::V, V)>;

    /// The entries as (key view, value), least recently used first.
    closed spec fn view(&self) -> Seq<(K::V, V)> {
        self.entries@.map_values(|e: (K, V)| (e.0@, e.1))
    }
}

impl<K: CacheKey, V> LruCache<K, V> {
    /// The bound fixed at construction.
    pub closed spec fn spec_capacity(&self) -> nat {
        self.capacity as nat
    }

    /// No key is stored twice.
    pub open spec fn wf(&self) -> bool {
        distinct_keys(self@)
    }

    /// The number of entries does not exceed the capacity. Every cache built by
    /// `new` and changed by `put` and `get` keeps this; one restored from a
    /// snapshot holds what the snapshot held.
    pub open spec fn within_capacity(&self) -> bool {
        self@.len() <= self.spec_capacity()
    }

    /// An empty cache holding at most `capacity` entries.
    pub fn new(capacity: usize) -> (r: Self)
        ensures
            r.wf(),
            r.within_capacity(),
            r@ == Seq::<(K::V, V)>::empty(),
            r.spec_capacity() == capacity,
    {
        let r = LruCache { capacity, entries: Vec::new() };
        assert(r@ =~= Seq::<(K::V, V)>::empty());
        r
    }

    /// The position of `key`, if stored.
    fn find(&self, key: &K) -> (r: Option<usize>)
        ensures
            match r {
                Some(i) => i < self@.len() && self@[i as int].0 == key@,
                None => !has_key(self@, key@),
            },
    {
        let mut i: usize = 0;
        while i < self.entries.len()
            invariant
                i <= self.entries.len(),
                forall|j: int| 0 <= j < i ==> self@[j].0 != key@,
            decreases self.entries.len() - i,
        {
            if self.entries[i].0.same_key(key) {
                return Some(i);
            }
            i += 1;
        }
        assert forall|j: int| 0 <= j < keys_of(self@).len() implies keys_of(self@)[j] != key@ by {
            assert(self@[j].0 != key@);
        }
        None
    }

    /// Moves the entry at `i` to the most-recently-used end.
    fn move_to_recent(&mut self, i: usize)
        requires
            old(self).wf(),
            i < old(self)@.len(),
        ensures
            final(self).wf(),
            final(self).spec_capacity() == old(self).spec_capacity(),
            final(self)@ == touch(old(self)@, i as int),
    {
        let ghost s = self@;
        let e = self.entries.remove(i);
        self.entries.push(e);
        assert(self@ =~= touch(s, i as int));
        proof {
            lemma_remove_keys(s, i as int, s[i as int].0);
            lemma_remove_push_distinct(s, i as int, s[i as int]);
        }
    }

    /// Stores `value` under `key` and makes `key` the most recently used.
    /// Returns the value it replaced; a new key that finds the cache full
    /// evicts the least-recently-used entry. With capacity zero nothing is stored.
    pub fn put(&mut self, key: K, value: V) -> (r: Option<V>)
        requires
            old(self).wf(),
        ensures
            final(self).wf(),
            final(self).spec_capacity() == old(self).spec_capacity(),
            old(self).within_capacity() ==> final(self).within_capacity(),
            (final(self)@, r) == put_model(old(self)@, old(self).spec_capacity(), key@, value),
    {
        if self.capacity == 0 {
            return None;
        }
        let ghost s = self@;
        let ghost k = key@;
        match self.find(&key) {
            Some(i) => {
                let removed = self.entries.remove(i);
                let (_, old_value) = removed;
                self.entries.push((key, value));
                proof {
                    lemma_position_at(s, k, i as int);
                    lemma_remove_keys(s, i as int, k);
                    lemma_remove_push_distinct(s, i as int, (k, value));
                }
                assert(self@ =~= s.remove(i as int).push((k, value)));
                Some(old_value)
            },
            None => {
                if self.entries.len() >= self.capacity {
                    self.entries.remove(0);
                    proof {
                        lemma_remove_keys(s, 0, k);
                        lemma_remove_push_distinct(s, 0, (k, value));
                    }
                    assert(self@ =~= s.drop_first());
                } else {
                    proof {
                        lemma_push_distinct(s, (k, value));
                    }
                }
                self.entries.push((key, value));
                assert(self@ =~= put_model(s, self.capacity as nat, k, value).0);
                None
            },
        }
    }

    /// Puts back an entry read from a snapshot, with no eviction: a new key goes
    /// to the newest end, a repeated key takes the new value where it stands.
    pub(crate) fn restore(&mut self, key: K, value: V)
        requires
            old(self).wf(),
        ensures
            final(self).wf(),
            final(self).spec_capacity() == old(self).spec_capacity(),
            final(self)@ == restore_model(old(self)@, key@, value),
    {
        let ghost s = self@;
        let ghost k = key@;
        proof {
            lemma_restore_distinct(s, k, value);
        }
        match self.find(&key) {
            Some(i) => {
                proof {
                    lemma_position_at(s, k, i as int);
                }
                self.entries.set(i, (key, value));
                assert(self@ =~= s.update(i as int, (k, value)));
            },
            None => {
                self.entries.push((key, value));
                assert(self@ =~= s.push((k, value)));
            },
        }
    }

    /// The value stored under `key`, if any; a hit makes `key` the most recently used.
    pub fn get(&mut self, key: &K) -> (r: Option<&V>)
        requires
            old(self).wf(),
        ensures
            final(self).wf(),
            final(self).spec_capacity() == old(self).spec_capacity(),
            final(self)@.len() == old(self)@.len(),
            final(self)@ == get_model(old(self)@, key@).0,
            deref_opt(r) == get_model(old(self)@, key@).1,
    {
        let ghost s = self@;
        match self.find(key) {
            Some(i) => {
                proof {
                    lemma_position_at(s, key@, i as int);
                }
                self.move_to_recent(i);
                let last = self.entries.len() - 1;
                assert(self@[last as int] == touch(s, i as int)[last as int]);
                assert(self.entries@[last as int].1 == s[i as int].1);
                Some(&self.entries[last].1)
            },
            None => None,
        }
    }

    /// The number of stored entries.
    pub fn len(&self) -> (r: usize)
        ensures
            r == self@.len(),
    {
        self.entries.len()
    }

    /// Whether no entry is stored.
    pub fn is_empty(&self) -> (r: bool)
        ensures
            r == (self@.len() == 0),
    {
        self.entries.len() == 0
    }

    /// The entry at position `i` of the recency order (0 is the least recently used).
    pub fn entry(&self, i: usize) -> (r: (&K, &V))
        requires
            i < self@.len(),
        ensures
            r.0@ == self@[i as int].0,
            *r.1 == self@[i as int].1,
    {
        let e = &self.entries[i];
        (&e.0, &e.1)
    }

    /// The bound fixed at construction.
    pub fn capacity(&self) -> (r: usize)
        ensures
            r == self.spec_capacity(),
    {
        self.capacity
    }
}

} // verus!
