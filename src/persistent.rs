//! A text-keyed cache whose state can be saved to and restored from snapshot lines.
use vstd::prelude::*;
use vstd::string::*;
use crate::cache::{
    LruCache, keys_of, distinct_keys, has_key, position, put_model, get_model, touch, restore_model,
    restore_all, lemma_restore_all_distinct, lemma_put_model_wf,
};
use crate::snapshot::{
    decimal, decimal_string, entry_line, keys_colon_free, lemma_parse_decimal,
    lemma_parsed_pairs_of_entries, parse_usize, parse_usize_str, parsed_pairs, snapshot_model,
    split_entry, has_colon, first_colon,
};

verus! {

/// Contents of a text store, with each value read as its characters.
pub open spec fn text_view(s: Seq<(Seq<char>, String)>) -> Seq<(Seq<char>, Seq<char>)> {
    s.map_values(|e: (Seq<char>, String)| (e.0, e.1@))
}

/// An optional text read as its characters.
pub open spec fn text_opt(r: Option<String>) -> Option<Seq<char>> {
    match r {
        Some(v) => Some(v@),
        None => None,
    }
}

/// The lines of a snapshot read as their characters.
pub open spec fn line_views(lines: Seq<String>) -> Seq<Seq<char>> {
    lines.map_values(|l: String| l@)
}

/// The capacity that snapshot `lines` give: the number on the first line,
/// or `cap_arg` where it is missing or is no number.
pub open spec fn loaded_capacity(lines: Seq<Seq<char>>, cap_arg: nat) -> nat {
    if lines.len() > 0 {
        match parse_usize(lines[0]) {
            Some(n) => n,
            None => cap_arg,
        }
    } else {
        cap_arg
    }
}

/// Capacity and contents restored from snapshot `lines`: the pair of each entry
/// line after the first goes back in file order, so the first stored is the least
/// recently used. Nothing is evicted, even past the capacity: the snapshot is
/// trusted to respect the bound it was written under.
pub open spec fn load_model(lines: Seq<Seq<char>>, cap_arg: nat) -> (nat, Seq<(Seq<char>, Seq<char>)>) {
    let cap = loaded_capacity(lines, cap_arg);
    if lines.len() > 0 {
        (cap, restore_all(parsed_pairs(lines.drop_first())))
    } else {
        (cap, Seq::empty())
    }
}

/// A text store and its character view have the same keys.
pub broadcast proof fn lemma_text_view_keys(s: Seq<(Seq<char>, String)>)
    ensures
        #[trigger] keys_of(text_view(s)) == keys_of(s),
{
    assert(keys_of(text_view(s)) =~= keys_of(s));
}

/// `put` on a text store agrees with `put` on its character view.
proof fn lemma_put_text_view(s: Seq<(Seq<char>, String)>, cap: nat, k: Seq<char>, v: String)
    ensures
        text_view(put_model(s, cap, k, v).0) == put_model(text_view(s), cap, k, v@).0,
        text_opt(put_model(s, cap, k, v).1) == put_model(text_view(s), cap, k, v@).1,
{
    lemma_text_view_keys(s);
    let t = text_view(s);
    if cap == 0 {
    } else if has_key(s, k) {
        let i = position(s, k);
        assert(text_view(s.remove(i).push((k, v))) =~= t.remove(i).push((k, v@)));
    } else if s.len() >= cap {
        assert(text_view(s.drop_first().push((k, v))) =~= t.drop_first().push((k, v@)));
    } else {
        assert(text_view(s.push((k, v))) =~= t.push((k, v@)));
    }
}

/// Restoring into a text store agrees with restoring into its character view.
proof fn lemma_restore_text_view(s: Seq<(Seq<char>, String)>, k: Seq<char>, v: String)
    ensures
        text_view(restore_model(s, k, v)) == restore_model(text_view(s), k, v@),
{
    lemma_text_view_keys(s);
    if has_key(s, k) {
        let i = position(s, k);
        assert(text_view(s.update(i, (k, v))) =~= text_view(s).update(i, (k, v@)));
    } else {
        assert(text_view(s.push((k, v))) =~= text_view(s).push((k, v@)));
    }
}

/// `get` on a text store agrees with `get` on its character view.
proof fn lemma_get_text_view(s: Seq<(Seq<char>, String)>, k: Seq<char>)
    ensures
        text_view(get_model(s, k).0) == get_model(text_view(s), k).0,
        text_opt(get_model(s, k).1) == get_model(text_view(s), k).1,
{
    lemma_text_view_keys(s);
    if has_key(s, k) {
        let i = position(s, k);
        assert(text_view(touch(s, i)) =~= touch(text_view(s), i));
    }
}

/// Splits an entry line at its first `:` into key and value.
fn split_line(line: &String) -> (r: Option<(String, String)>)
    ensures
        match r {
            Some(p) => split_entry(line@) == Some((p.0@, p.1@)),
            None => split_entry(line@) is None,
        },
{
    let s = line.as_str();
    let len = s.unicode_len();
    let mut i: usize = 0;
    while i < len
        invariant
            i <= len,
            len == line@.len(),
            s@ == line@,
            forall|j: int| 0 <= j < i ==> line@[j] != ':',
        decreases len - i,
    {
        if s.get_char(i) == ':' {
            let ghost l = line@;
            assert(first_colon(l) == i as int) by {
                let q = first_colon(l);
                assert(has_colon(l));
                if q < i {
                    assert(l[q] != ':');
                }
            }
            let k = String::from_str(s.substring_char(0, i));
            let v = String::from_str(s.substring_char(i + 1, len));
            return Some((k, v));
        }
        i += 1;
    }
    None
}

/// A text-keyed LRU cache that may be bound to a snapshot location.
pub struct PersistentLruCache {
    store: LruCache<String, String>,
    file_path: Option<String>,
}

impl View for PersistentLruCache {
    type V = Seq<(Seq<char>, Seq<char>)>;

    /// The entries as (key, value) characters, least recently used first.
    closed spec fn view(&self) -> Seq<(Seq<char>, Seq<char>)> {
        text_view(self.store@)
    }
}

impl PersistentLruCache {
    /// The bound fixed at construction or by the loaded snapshot.
    pub closed spec fn spec_capacity(&self) -> nat {
        self.store.spec_capacity()
    }

    /// No key is stored twice.
    pub open spec fn wf(&self) -> bool {
        distinct_keys(self@)
    }

    /// The number of entries does not exceed the capacity; a cache restored
    /// from a snapshot holds what the snapshot held.
    pub open spec fn within_capacity(&self) -> bool {
        self@.len() <= self.spec_capacity()
    }

    /// The store's own condition is this cache's.
    proof fn lemma_wf_store(&self)
        ensures
            self.wf() == self.store.wf(),
    {
        lemma_text_view_keys(self.store@);
    }

    /// The snapshot location, if the cache is bound to one.
    pub closed spec fn path_spec(&self) -> Option<Seq<char>> {
        match self.file_path {
            Some(p) => Some(p@),
            None => None,
        }
    }

    /// An empty cache bound to no snapshot location.
    pub fn new(capacity: usize) -> (r: Self)
        ensures
            r.wf(),
            r.within_capacity(),
            r@ == Seq::<(Seq<char>, Seq<char>)>::empty(),
            r.spec_capacity() == capacity,
            r.path_spec() is None,
    {
        let r = PersistentLruCache { store: LruCache::new(capacity), file_path: None };
        assert(r@ =~= Seq::<(Seq<char>, Seq<char>)>::empty());
        proof {
            r.lemma_wf_store();
        }
        r
    }

    /// A cache bound to `path`, restored from the lines of the snapshot found
    /// there, or empty at `capacity` where there is none.
    pub fn new_persistent(capacity: usize, path: &str, snapshot: Option<&Vec<String>>) -> (r: Self)
        ensures
            r.wf(),
            r.path_spec() == Some(path@),
            match snapshot {
                Some(lines) => (r.spec_capacity(), r@) == load_model(line_views(lines@), capacity as nat),
                None => r.spec_capacity() == capacity && r@ == Seq::<(Seq<char>, Seq<char>)>::empty(),
            },
    {
        let file_path = Some(String::from_str(path));
        match snapshot {
            None => {
                let r = PersistentLruCache { store: LruCache::new(capacity), file_path };
                assert(r@ =~= Seq::<(Seq<char>, Seq<char>)>::empty());
                proof {
                    r.lemma_wf_store();
                }
                r
            },
            Some(lines) => {
                let store = Self::load(capacity, lines);
                let r = PersistentLruCache { store, file_path };
                proof {
                    r.lemma_wf_store();
                }
                r
            },
        }
    }

    /// Restores a store from snapshot lines.
    fn load(capacity: usize, lines: &Vec<String>) -> (store: LruCache<String, String>)
        ensures
            store.wf(),
            (store.spec_capacity(), text_view(store@)) == load_model(line_views(lines@), capacity as nat),
    {
        let ghost lv = line_views(lines@);
        if lines.len() == 0 {
            let store = LruCache::new(capacity);
            assert(text_view(store@) =~= Seq::<(Seq<char>, Seq<char>)>::empty());
            return store;
        }
        let mut cap = capacity;
        match parse_usize_str(lines[0].as_str()) {
            Some(n) => {
                cap = n;
            },
            None => {},
        }
        assert(cap == loaded_capacity(lv, capacity as nat));
        let mut store: LruCache<String, String> = LruCache::new(cap);
        let mut i: usize = 1;
        assert(lv.subrange(1, 1) =~= Seq::<Seq<char>>::empty());
        assert(text_view(store@) =~= Seq::<(Seq<char>, Seq<char>)>::empty());
        while i < lines.len()
            invariant
                1 <= i <= lines.len(),
                lv == line_views(lines@),
                store.wf(),
                store.spec_capacity() == cap,
                text_view(store@) == restore_all(parsed_pairs(lv.subrange(1, i as int))),
            decreases lines.len() - i,
        {
            let ghost before = lv.subrange(1, i as int);
            let ghost after = lv.subrange(1, i as int + 1);
            assert(after.drop_last() =~= before);
            assert(after.last() == lines@[i as int]@);
            match split_line(&lines[i]) {
                Some(p) => {
                    let (k, v) = p;
                    let ghost pre = store@;
                    let ghost pairs = parsed_pairs(before);
                    assert(parsed_pairs(after) == pairs.push((k@, v@)));
                    assert(pairs.push((k@, v@)).drop_last() =~= pairs);
                    proof {
                        lemma_restore_text_view(pre, k@, v);
                    }
                    store.restore(k, v);
                },
                None => {},
            }
            i += 1;
        }
        assert(lv.subrange(1, lines.len() as int) =~= lv.drop_first());
        store
    }

    /// Stores `value` under `key` as the store's `put` does; the caller then
    /// rewrites the snapshot from `snapshot_lines`.
    pub fn put(&mut self, key: String, value: String) -> (r: Option<String>)
        requires
            old(self).wf(),
        ensures
            final(self).wf(),
            final(self).spec_capacity() == old(self).spec_capacity(),
            final(self).path_spec() == old(self).path_spec(),
            old(self).within_capacity() ==> final(self).within_capacity(),
            final(self)@ == put_model(old(self)@, old(self).spec_capacity(), key@, value@).0,
            text_opt(r) == put_model(old(self)@, old(self).spec_capacity(), key@, value@).1,
    {
        proof {
            self.lemma_wf_store();
            lemma_put_text_view(self.store@, self.store.spec_capacity(), key@, value);
            lemma_put_model_wf(self@, self.spec_capacity(), key@, value@);
        }
        let r = self.store.put(key, value);
        proof {
            self.lemma_wf_store();
        }
        r
    }

    /// The value stored under `key`, if any; a hit makes `key` the most recently used.
    pub fn get(&mut self, key: &str) -> (r: Option<&String>)
        requires
            old(self).wf(),
        ensures
            final(self).wf(),
            final(self).spec_capacity() == old(self).spec_capacity(),
            final(self).path_spec() == old(self).path_spec(),
            final(self)@.len() == old(self)@.len(),
            final(self)@ == get_model(old(self)@, key@).0,
            match r {
                Some(v) => get_model(old(self)@, key@).1 == Some(v@),
                None => get_model(old(self)@, key@).1 is None,
            },
    {
        let k = String::from_str(key);
        proof {
            self.lemma_wf_store();
            lemma_get_text_view(self.store@, k@);
        }
        broadcast use lemma_text_view_keys;
        self.store.get(&k)
    }

    /// The number of stored entries.
    pub fn len(&self) -> (r: usize)
        ensures
            r == self@.len(),
    {
        self.store.len()
    }

    /// Whether no entry is stored.
    pub fn is_empty(&self) -> (r: bool)
        ensures
            r == (self@.len() == 0),
    {
        self.store.is_empty()
    }

    /// The bound in force.
    pub fn capacity(&self) -> (r: usize)
        ensures
            r == self.spec_capacity(),
    {
        self.store.capacity()
    }

    /// The snapshot location, if the cache is bound to one.
    pub fn file_path(&self) -> (r: Option<&String>)
        ensures
            match r {
                Some(p) => self.path_spec() == Some(p@),
                None => self.path_spec() is None,
            },
    {
        match &self.file_path {
            Some(p) => Some(p),
            None => None,
        }
    }

    /// The snapshot of the current state: the capacity, then one `key:value`
    /// line per entry, least recently used first.
    pub fn snapshot_lines(&self) -> (r: Vec<String>)
        requires
            self.wf(),
        ensures
            line_views(r@) == snapshot_model(self@, self.spec_capacity()),
    {
        let mut r: Vec<String> = Vec::new();
        r.push(decimal_string(self.store.capacity()));
        let n = self.store.len();
        let mut i: usize = 0;
        while i < n
            invariant
                i <= n,
                n == self@.len(),
                line_views(r@) == seq![decimal(self.spec_capacity())] + self@.subrange(0, i as int).map_values(
                    |e: (Seq<char>, Seq<char>)| entry_line(e.0, e.1),
                ),
            decreases n - i,
        {
            let (k, v) = self.store.entry(i);
            let mut line = k.clone();
            proof {
                reveal_strlit(":");
            }
            line.append(":");
            line.append(v.as_str());
            let ghost old_r = r@;
            r.push(line);
            assert(self@[i as int] == (k@, v@));
            assert(self@.subrange(0, i as int + 1) =~= self@.subrange(0, i as int).push(self@[i as int]));
            assert(line_views(r@) =~= line_views(old_r).push(line@));
            assert(line@ =~= entry_line(k@, v@));
            assert(line_views(r@) =~= seq![decimal(self.spec_capacity())] + self@.subrange(0, i as int + 1).map_values(
                |e: (Seq<char>, Seq<char>)| entry_line(e.0, e.1),
            ));
            i += 1;
        }
        assert(self@.subrange(0, n as int) =~= self@);
        r
    }
}

/// Restoring the snapshot of contents with distinct keys that hold no `:` gives
/// back its capacity and its entries in the same recency order, whatever
/// capacity the restoring constructor was given.
pub proof fn lemma_snapshot_round_trip(s: Seq<(Seq<char>, Seq<char>)>, cap: nat, cap_arg: nat)
    requires
        distinct_keys(s),
        cap <= usize::MAX,
        keys_colon_free(s),
    ensures
        load_model(snapshot_model(s, cap), cap_arg) == (cap, s),
{
    let lines = snapshot_model(s, cap);
    lemma_parse_decimal(cap);
    assert(lines[0] == decimal(cap));
    let body = s.map_values(|e: (Seq<char>, Seq<char>)| entry_line(e.0, e.1));
    assert(lines.drop_first() =~= body);
    lemma_parsed_pairs_of_entries(s);
    lemma_restore_all_distinct(s);
}

} // verus!
