//! The executable LFU cache.
//!
//! An entry store maps each live key to its stored identifier and frequency;
//! a frequency index maps each frequency to the insertion-ordered queue of
//! keys currently at that frequency. The orchestrator keeps the running
//! minimum frequency so eviction never scans. Every mutating method refines
//! the corresponding transition of [`crate::model`].

use vstd::prelude::*;

use vstd::hash_map::HashMapWithView;
use vstd::hash_map::StringHashMap;
use vstd::pervasive::unreached;

use crate::model::CacheView;
use crate::model::EntryModel;
use crate::model::cache_inv;
use crate::model::group_of;
use crate::model::lemma_record_access_preserves_inv;
use crate::model::lemma_set_preserves_inv;
use crate::model::lemma_update_value_preserves_inv;
use crate::model::min_freq_ok;
use crate::model::spec_clear;
use crate::model::spec_evict;
use crate::model::spec_record_access;
use crate::model::spec_set;
use crate::model::spec_update_value;
use crate::model::spec_victim;
use crate::shortener::Shortener;
use crate::CacheError;

verus! {

broadcast use vstd::set::group_set_axioms, vstd::map::group_map_axioms, vstd::seq::group_seq_axioms, vstd::hash_map::group_hash_map_axioms;

/// One live entry: the identifier string stored for the caller's value and
/// the access count.
pub struct Entry {
    val: String,
    count: u64,
}

impl View for Entry {
    type V = EntryModel;

    closed spec fn view(&self) -> EntryModel {
        EntryModel { value: self.val@, freq: self.count as nat }
    }
}

/// The views of a queue of keys, oldest first.
pub open spec fn keys_view(s: Seq<String>) -> Seq<Seq<char>> {
    Seq::new(s.len(), |i: int| s[i]@)
}

/// The model of the entry store.
pub open spec fn entries_view(m: Map<Seq<char>, Entry>) -> Map<Seq<char>, EntryModel> {
    Map::new(|k: Seq<char>| m.contains_key(k), |k: Seq<char>| m[k]@)
}

/// The model of the frequency index.
pub open spec fn groups_view(m: Map<u64, Vec<String>>) -> Map<nat, Seq<Seq<char>>> {
    Map::new(
        |f: nat| f <= u64::MAX as nat && m.contains_key(f as u64),
        |f: nat| keys_view(m[f as u64]@),
    )
}

proof fn lemma_entries_view_insert(m: Map<Seq<char>, Entry>, k: Seq<char>, e: Entry)
    ensures
        entries_view(m.insert(k, e)) =~= entries_view(m).insert(k, e@),
{
}

proof fn lemma_entries_view_remove(m: Map<Seq<char>, Entry>, k: Seq<char>)
    ensures
        entries_view(m.remove(k)) =~= entries_view(m).remove(k),
{
}

proof fn lemma_entries_view_dom(m: Map<Seq<char>, Entry>)
    ensures
        entries_view(m).dom() =~= m.dom(),
{
}

proof fn lemma_groups_view_insert(m: Map<u64, Vec<String>>, f: u64, b: Vec<String>)
    ensures
        groups_view(m.insert(f, b)) =~= groups_view(m).insert(f as nat, keys_view(b@)),
{
    assert forall|f2: nat|
        groups_view(m.insert(f, b)).contains_key(f2) == groups_view(m).insert(
            f as nat,
            keys_view(b@),
        ).contains_key(f2) by {
        if f2 <= u64::MAX as nat && f2 != f as nat {
            assert(f2 as u64 != f);
        }
    }
    assert forall|f2: nat|
        #[trigger] groups_view(m.insert(f, b)).contains_key(f2) implies groups_view(
        m.insert(f, b),
    )[f2] == groups_view(m).insert(f as nat, keys_view(b@))[f2] by {
        if f2 != f as nat {
            assert(f2 as u64 != f);
        }
    }
}

proof fn lemma_keys_view_remove(s: Seq<String>, i: int)
    requires
        0 <= i < s.len(),
    ensures
        keys_view(s.remove(i)) =~= keys_view(s).remove(i),
{
    s.remove_ensures(i);
    keys_view(s).remove_ensures(i);
}

proof fn lemma_keys_view_push(s: Seq<String>, x: String)
    ensures
        keys_view(s.push(x)) =~= keys_view(s).push(x@),
{
}

proof fn lemma_keys_view_drop_first(s: Seq<String>)
    requires
        s.len() > 0,
    ensures
        keys_view(s.remove(0)) =~= keys_view(s).drop_first(),
{
    s.remove_ensures(0);
}

/// An index that holds the first occurrence of a value pins down
/// `remove_value`.
proof fn lemma_first_occurrence_is_remove_value(s: Seq<Seq<char>>, k: Seq<char>, i: int)
    requires
        0 <= i < s.len(),
        s[i] == k,
        forall|j: int| 0 <= j < i ==> s[j] != k,
    ensures
        s.remove_value(k) == s.remove(i),
{
    assert(s.contains(k));
    s.index_of_first_ensures(k);
    let i0 = s.index_of_first(k).unwrap();
    if i0 < i {
        assert(s[i0] != k);
    }
    if i < i0 {
        assert(s[i] != k);
    }
}

/// The position of the first member of `bucket` whose characters equal
/// `key`'s.
fn find_key_index(bucket: &Vec<String>, key: &String) -> (r: usize)
    requires
        exists|j: int| 0 <= j < bucket@.len() && bucket@[j]@ == key@,
    ensures
        r < bucket@.len(),
        bucket@[r as int]@ == key@,
        forall|j: int| 0 <= j < r ==> bucket@[j]@ != key@,
{
    let mut i: usize = 0;
    while i < bucket.len()
        invariant
            i <= bucket@.len(),
            exists|j: int| i <= j < bucket@.len() && bucket@[j]@ == key@,
            forall|j: int| 0 <= j < i ==> bucket@[j]@ != key@,
        decreases bucket@.len() - i,
    {
        if bucket[i] == *key {
            return i;
        }
        i = i + 1;
    }
    proof {
        assert(false);
    }
    unreached()
}

/// A fixed-capacity least-frequently-used cache with owned string keys.
///
/// Stored values are the identifier strings that the value encoder produces;
/// eviction removes the key that has sat at the minimum frequency the
/// longest.
pub struct LFUCache {
    by_key: StringHashMap<Entry>,
    freq_node: HashMapWithView<u64, Vec<String>>,
    capacity: usize,
    least_freq_node: u64,
    shortener: Shortener,
}

impl View for LFUCache {
    type V = CacheView;

    closed spec fn view(&self) -> CacheView {
        CacheView {
            capacity: self.capacity as nat,
            min_freq: self.least_freq_node as nat,
            counter: self.shortener@,
            entries: entries_view(self.by_key@),
            groups: groups_view(self.freq_node@),
        }
    }
}

impl LFUCache {
    /// The cache invariant: at most `capacity` entries, every frequency at
    /// least 1, entries and frequency groups in agreement, and a valid
    /// running minimum while the cache is non-empty.
    pub open spec fn inv(&self) -> bool {
        cache_inv(self@)
    }

    /// Create a cache. Succeeds exactly on a positive capacity; a zero or
    /// negative capacity is refused with a configuration error, and no cache
    /// is observable in that case.
    pub fn new(capacity: isize) -> (r: Result<Self, CacheError>)
        ensures
            capacity >= 1 ==> matches!(r, Ok(_)),
            capacity < 1 ==> (r matches Err(e) && e == CacheError::InvalidCapacity),
            r matches Ok(c) ==> {
                &&& c.inv()
                &&& c@.capacity == capacity as nat
                &&& c@.counter == 0
                &&& c@.entries =~= Map::<Seq<char>, EntryModel>::empty()
            },
    {
        if capacity < 1 {
            return Err(CacheError::InvalidCapacity);
        }
        let c = LFUCache {
            by_key: StringHashMap::new(),
            freq_node: HashMapWithView::new(),
            capacity: capacity as usize,
            least_freq_node: 0,
            shortener: Shortener::default(),
        };
        proof {
            assert(c@.entries =~= Map::<Seq<char>, EntryModel>::empty());
            assert(c@.groups =~= Map::<nat, Seq<Seq<char>>>::empty());
            assert(c@.entries.dom() =~= Set::empty());
            assert(forall|f: nat| group_of(c@, f) == Seq::<Seq<char>>::empty());
        }
        Ok(c)
    }

    /// The number of live entries.
    pub fn len(&self) -> (r: usize)
        ensures
            r == self@.entries.dom().len(),
    {
        proof {
            lemma_entries_view_dom(self.by_key@);
        }
        self.by_key.len()
    }

    /// Whether the cache holds no entry.
    pub fn is_empty(&self) -> (r: bool)
        ensures
            r == (self@.entries.dom().len() == 0),
    {
        self.len() == 0
    }

    /// The fixed capacity the cache was created with.
    pub fn capacity(&self) -> (r: usize)
        ensures
            r == self@.capacity,
    {
        self.capacity
    }

    /// Record one access of a present key: move it from its current
    /// frequency group to the next one, bump its stored frequency by exactly
    /// one, and raise the running minimum when the old minimum group drained.
    fn update_freq_node(&mut self, key: &String)
        requires
            old(self).inv(),
            old(self)@.entries.contains_key(key@),
            old(self)@.entries[key@].freq < u64::MAX,
        ensures
            final(self).inv(),
            final(self)@ == spec_record_access(old(self)@, key@),
    {
        let ghost v0 = self@;
        let ghost m0 = self.freq_node@;
        proof {
            lemma_record_access_preserves_inv(v0, key@);
            lemma_entries_view_dom(self.by_key@);
        }
        let e = match self.by_key.get(key.as_str()) {
            Some(e) => e,
            None => unreached(),
        };
        let f: u64 = e.count;
        let val: String = e.val.clone();
        let ghost f_nat = f as nat;
        let ghost g = group_of(v0, f_nat);
        proof {
            assert(f_nat == v0.entries[key@].freq);
            assert(val@ == v0.entries[key@].value);
            assert(g.contains(key@));
            assert(v0.groups.contains_key(f_nat));
            assert(self.freq_node@.contains_key(f));
            assert(g == keys_view(self.freq_node@[f]@));
        }
        let mut bucket = match self.freq_node.remove(&f) {
            Some(b) => b,
            None => unreached(),
        };
        proof {
            assert(keys_view(bucket@) == g);
            let j0 = choose|j: int| 0 <= j < g.len() && g[j] == key@;
            assert(bucket@[j0]@ == key@);
        }
        let idx = find_key_index(&bucket, key);
        let ghost b_before = bucket@;
        bucket.remove(idx);
        let ghost shrunk = g.remove_value(key@);
        proof {
            lemma_keys_view_remove(b_before, idx as int);
            assert(g[idx as int] == key@);
            assert(forall|j: int| 0 <= j < idx ==> g[j] != key@);
            lemma_first_occurrence_is_remove_value(g, key@, idx as int);
            assert(keys_view(bucket@) == shrunk);
        }
        if f == self.least_freq_node && bucket.len() == 0 {
            self.least_freq_node = f + 1;
        }
        let ghost b_f = bucket;
        self.freq_node.insert(f, bucket);
        let nf = f + 1;
        let ghost m2 = self.freq_node@;
        let mut next_bucket = match self.freq_node.remove(&nf) {
            Some(b) => b,
            None => Vec::new(),
        };
        proof {
            assert(m2 =~= m0.insert(f, b_f));
            assert(keys_view(next_bucket@) == group_of(v0, nf as nat)) by {
                if v0.groups.contains_key(nf as nat) {
                    assert(m0.contains_key(nf));
                    assert(m2[nf] == m0[nf]);
                } else {
                    assert(!m0.contains_key(nf));
                    assert(!m2.contains_key(nf));
                }
            }
        }
        let ghost bk0 = self.by_key@;
        let ghost nb_before = next_bucket@;
        next_bucket.push(key.clone());
        let ghost nb_final = next_bucket;
        self.freq_node.insert(nf, next_bucket);
        let new_entry = Entry { val, count: nf };
        let ghost e_new = new_entry;
        self.by_key.insert(key.clone(), new_entry);
        proof {
            let target = spec_record_access(v0, key@);
            lemma_entries_view_insert(bk0, key@, e_new);
            assert(self@.entries =~= target.entries);
            lemma_keys_view_push(nb_before, *key);
            assert(keys_view(nb_final@) == group_of(v0, nf as nat).push(key@));
            assert(self.freq_node@ =~= m0.insert(f, b_f).insert(nf, nb_final));
            lemma_groups_view_insert(m0, f, b_f);
            lemma_groups_view_insert(m0.insert(f, b_f), nf, nb_final);
            assert(self@.groups =~= v0.groups.insert(f_nat, shrunk).insert(
                f_nat + 1,
                group_of(v0, f_nat + 1).push(key@),
            ));
            assert(self@.min_freq == target.min_freq);
            assert(self@ =~~= target);
        }
    }

    /// Evict the least-frequently-used entry; ties at the minimum frequency
    /// break first-in-first-out, so the key that has sat at that frequency
    /// the longest leaves.
    fn evict(&mut self)
        requires
            old(self).inv(),
            old(self)@.entries.dom().len() > 0,
        ensures
            final(self)@ == spec_evict(old(self)@),
    {
        let ghost v0 = self@;
        let ghost m0 = self.freq_node@;
        let f = self.least_freq_node;
        proof {
            assert(min_freq_ok(v0));
            assert(group_of(v0, f as nat).len() > 0);
            assert(v0.groups.contains_key(f as nat));
            assert(m0.contains_key(f));
        }
        let mut bucket = match self.freq_node.remove(&f) {
            Some(b) => b,
            None => unreached(),
        };
        let ghost b_before = bucket@;
        proof {
            assert(keys_view(b_before) == group_of(v0, f as nat));
            assert(b_before.len() > 0);
        }
        let victim = bucket.remove(0);
        proof {
            assert(victim@ == spec_victim(v0));
            lemma_keys_view_drop_first(b_before);
            assert(keys_view(bucket@) == group_of(v0, f as nat).drop_first());
        }
        let ghost bk0 = self.by_key@;
        self.by_key.remove(victim.as_str());
        let ghost b_f = bucket;
        self.freq_node.insert(f, bucket);
        proof {
            let target = spec_evict(v0);
            lemma_entries_view_remove(bk0, victim@);
            assert(self@.entries =~= target.entries);
            assert(self.freq_node@ =~= m0.insert(f, b_f));
            lemma_groups_view_insert(m0, f, b_f);
            assert(self@.groups =~= v0.groups.insert(
                f as nat,
                group_of(v0, f as nat).drop_first(),
            ));
            assert(self@ =~~= target);
        }
    }

    /// Insert or update a key. On a present key the stored value becomes the
    /// encoder's next identifier and one access is recorded; on an absent key
    /// the least-frequently-used entry is evicted first when the cache is
    /// full, and the key is admitted with frequency 1 and becomes the newest
    /// member of group 1. The passed value itself is not stored: the value
    /// encoder replaces it with an identifier derived from its own counter,
    /// independent of the value's contents.
    #[allow(unused_variables)]
    pub fn set<T>(&mut self, key: &str, value: T)
        requires
            old(self).inv(),
            old(self)@.counter < u64::MAX,
            old(self)@.entries.contains_key(key@) ==> old(self)@.entries[key@].freq < u64::MAX,
        ensures
            final(self).inv(),
            final(self)@ == spec_set(old(self)@, key@),
            final(self)@.entries.dom().len() <= final(self)@.capacity,
            final(self)@.entries.contains_key(key@),
            forall|k2: Seq<char>|
                #[trigger] old(self)@.entries.contains_key(k2)
                    && final(self)@.entries.contains_key(k2)
                    ==> final(self)@.entries[k2].freq >= old(self)@.entries[k2].freq,
    {
        let ghost v0 = self@;
        proof {
            lemma_set_preserves_inv(v0, key@);
            lemma_entries_view_dom(self.by_key@);
        }
        if self.by_key.contains_key(key) {
            let id = self.shortener.next_id();
            let count = match self.by_key.get(key) {
                Some(e) => e.count,
                None => unreached(),
            };
            let owned: String = key.to_owned();
            let ghost bk0 = self.by_key@;
            let new_entry = Entry { val: id, count };
            let ghost e_new = new_entry;
            self.by_key.insert(key.to_owned(), new_entry);
            proof {
                lemma_update_value_preserves_inv(v0, key@);
                lemma_entries_view_insert(bk0, key@, e_new);
                assert(self@ =~~= spec_update_value(v0, key@));
            }
            self.update_freq_node(&owned);
            proof {
                assert(self@ == spec_set(v0, key@));
            }
            return;
        }
        if self.by_key.len() >= self.capacity {
            self.evict();
        }
        let ghost v1 = self@;
        proof {
            assert(v1 == if v0.entries.dom().len() >= v0.capacity {
                spec_evict(v0)
            } else {
                v0
            });
        }
        let id = self.shortener.next_id();
        let ghost bk1 = self.by_key@;
        let ghost m1 = self.freq_node@;
        let new_entry = Entry { val: id, count: 1 };
        let ghost e_new = new_entry;
        self.by_key.insert(key.to_owned(), new_entry);
        self.least_freq_node = 1;
        let one: u64 = 1;
        let mut b = match self.freq_node.remove(&one) {
            Some(b) => b,
            None => Vec::new(),
        };
        proof {
            assert(keys_view(b@) == group_of(v1, 1)) by {
                if v1.groups.contains_key(1) {
                    assert(m1.contains_key(one));
                } else {
                    assert(!m1.contains_key(one));
                }
            }
        }
        let ghost b_before = b@;
        let owned: String = key.to_owned();
        let ghost ow = owned;
        b.push(owned);
        let ghost b_final = b;
        self.freq_node.insert(one, b);
        proof {
            let target = spec_set(v0, key@);
            lemma_entries_view_insert(bk1, key@, e_new);
            assert(self@.entries =~= target.entries);
            lemma_keys_view_push(b_before, ow);
            assert(keys_view(b_final@) == group_of(v1, 1).push(key@));
            assert(self.freq_node@ =~= m1.insert(one, b_final));
            lemma_groups_view_insert(m1, one, b_final);
            assert(self@.groups =~= v1.groups.insert(1, group_of(v1, 1).push(key@)));
            assert(self@ =~~= target);
        }
    }

    /// Look up a key. A hit records one access, so the key's frequency rises
    /// by exactly one, and returns the stored identifier; a miss is a normal
    /// "not found" result that leaves the cache untouched. No frequency ever
    /// decreases.
    pub fn get(&mut self, key: &str) -> (r: Option<String>)
        requires
            old(self).inv(),
            old(self)@.entries.contains_key(key@) ==> old(self)@.entries[key@].freq < u64::MAX,
        ensures
            final(self).inv(),
            match r {
                Some(s) => {
                    &&& old(self)@.entries.contains_key(key@)
                    &&& s@ == old(self)@.entries[key@].value
                    &&& final(self)@ == spec_record_access(old(self)@, key@)
                },
                None => {
                    &&& !old(self)@.entries.contains_key(key@)
                    &&& final(self)@ == old(self)@
                },
            },
            forall|k2: Seq<char>|
                #[trigger] old(self)@.entries.contains_key(k2)
                    ==> final(self)@.entries.contains_key(k2)
                        && final(self)@.entries[k2].freq >= old(self)@.entries[k2].freq,
    {
        let ghost v0 = self@;
        proof {
            lemma_entries_view_dom(self.by_key@);
        }
        if !self.by_key.contains_key(key) {
            return None;
        }
        proof {
            lemma_record_access_preserves_inv(v0, key@);
        }
        let owned: String = key.to_owned();
        self.update_freq_node(&owned);
        proof {
            lemma_entries_view_dom(self.by_key@);
            assert(self@.entries.contains_key(key@));
        }
        let e = match self.by_key.get(key) {
            Some(e) => e,
            None => unreached(),
        };
        Some(e.val.clone())
    }

    /// Remove every entry and every frequency group; the capacity and the
    /// encoder counter stay. Afterwards the cache behaves as a fresh one:
    /// see [`crate::model::lemma_clear_then_set_fresh`].
    pub fn clear(&mut self)
        requires
            old(self).inv(),
        ensures
            final(self).inv(),
            final(self)@ == spec_clear(old(self)@),
            final(self)@.entries.dom().len() == 0,
    {
        self.by_key.clear();
        self.freq_node.clear();
        self.least_freq_node = 0;
        proof {
            assert(self@.entries =~= Map::<Seq<char>, EntryModel>::empty());
            assert(self@.groups =~= Map::<nat, Seq<Seq<char>>>::empty());
            assert(self@ =~~= spec_clear(old(self)@));
            assert(self@.entries.dom() =~= Set::empty());
            assert(forall|f: nat| group_of(self@, f) == Seq::<Seq<char>>::empty());
        }
    }
}

} // verus!
