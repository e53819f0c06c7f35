//! Properties of whole sequences of `put` calls, stated over the store's model.
use vstd::prelude::*;
use vstd::seq_lib::seq_to_set_is_finite;
use vstd::set_lib::{lemma_len_subset, lemma_subset_equality};
use crate::cache::{keys_of, distinct_keys, has_key, put_model, lemma_put_model_wf, lemma_drop_last_distinct};

verus! {

/// The contents after applying `put` for each pair of `ops` in order, starting from `s`.
pub open spec fn puts_model<A, B>(s: Seq<(A, B)>, cap: nat, ops: Seq<(A, B)>) -> Seq<(A, B)>
    decreases ops.len(),
{
    if ops.len() == 0 {
        s
    } else {
        put_model(puts_model(s, cap, ops.drop_last()), cap, ops.last().0, ops.last().1).0
    }
}

/// Up to `cap` puts of distinct keys into an empty cache store them all, in order.
pub proof fn lemma_fill_without_eviction<A, B>(cap: nat, ops: Seq<(A, B)>)
    requires
        cap > 0,
        ops.len() <= cap,
        distinct_keys(ops),
    ensures
        puts_model(Seq::empty(), cap, ops) == ops,
    decreases ops.len(),
{
    if ops.len() > 0 {
        lemma_drop_last_distinct(ops);
        lemma_fill_without_eviction(cap, ops.drop_last());
        assert(ops.drop_last().push(ops.last()) =~= ops);
    }
}

/// With capacity `cap`, `cap + 1` puts of distinct keys into an empty cache
/// and no reads in between evict exactly the first key inserted.
pub proof fn lemma_eviction_of_first<A, B>(cap: nat, ops: Seq<(A, B)>)
    requires
        cap > 0,
        ops.len() == cap + 1,
        distinct_keys(ops),
    ensures
        puts_model(Seq::empty(), cap, ops) == ops.drop_first(),
        !has_key(puts_model(Seq::empty(), cap, ops), ops[0].0),
{
    lemma_drop_last_distinct(ops);
    lemma_fill_without_eviction(cap, ops.drop_last());
    assert(ops.drop_last().drop_first().push(ops.last()) =~= ops.drop_first());
    let r = ops.drop_first();
    assert forall|j: int| 0 <= j < keys_of(r).len() implies keys_of(r)[j] != ops[0].0 by {
        assert(keys_of(ops)[j + 1] != keys_of(ops)[0]);
    }
}

/// The set of keys that occur in a sequence of pairs.
pub open spec fn key_set<A, B>(s: Seq<(A, B)>) -> Set<A> {
    keys_of(s).to_set()
}

/// The smaller of two naturals.
pub open spec fn min_nat(a: nat, b: nat) -> nat {
    if a <= b {
        a
    } else {
        b
    }
}

/// Any sequence of puts into an empty cache of capacity `cap` leaves distinct keys,
/// never more than `cap` entries, and exactly as many as the smaller of `cap` and the
/// number of distinct keys put: once `cap` distinct keys went in, the cache is full.
pub proof fn lemma_size_after_puts<A, B>(cap: nat, ops: Seq<(A, B)>)
    ensures
        distinct_keys(puts_model(Seq::empty(), cap, ops)),
        puts_model(Seq::empty(), cap, ops).len() <= cap,
        puts_model(Seq::empty(), cap, ops).len() == min_nat(cap, key_set(ops).len()),
        key_set(ops).len() >= cap ==> puts_model(Seq::empty(), cap, ops).len() == cap,
        key_set(puts_model(Seq::empty(), cap, ops)).subset_of(key_set(ops)),
    decreases ops.len(),
{
    broadcast use seq_to_set_is_finite;
    if ops.len() == 0 {
        assert(key_set(ops) =~= Set::<A>::empty());
        assert(key_set(Seq::<(A, B)>::empty()) =~= Set::<A>::empty());
    } else {
        let p = ops.drop_last();
        let k = ops.last().0;
        let v = ops.last().1;
        lemma_size_after_puts(cap, p);
        let r = puts_model(Seq::empty(), cap, p);
        let r2 = put_model(r, cap, k, v).0;
        lemma_put_model_wf(r, cap, k, v);
        assert(keys_of(ops) =~= keys_of(p).push(k));
        keys_of(p).lemma_push_to_set_commute(k);
        let d = key_set(p);
        let d2 = key_set(ops);
        assert(d2 =~= d.insert(k));
        lemma_len_subset(d, d2);
        keys_of(r).unique_seq_to_set();
        keys_of(r2).unique_seq_to_set();
        assert(key_set(r2).subset_of(d2)) by {
            assert forall|x: A| key_set(r2).contains(x) implies d2.contains(x) by {
                assert(has_key(r2, x));
                if x != k {
                    assert(has_key(r, x));
                    assert(key_set(r).contains(x));
                }
            }
        }
        if cap == 0 {
        } else if has_key(r, k) {
            assert(d.contains(k));
            assert(d2 =~= d);
        } else if r.len() >= cap {
        } else {
            lemma_subset_equality(key_set(r), d);
            assert(!d.contains(k));
        }
    }
}

} // verus!
