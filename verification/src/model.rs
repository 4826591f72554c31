//! Mathematical model of the LFU cache.
//!
//! The executable cache refines the transitions defined here: every mutating
//! method promises that the new view equals the corresponding `spec_*`
//! function of the old view.

use vstd::prelude::*;

use crate::shortener::encoded_id;

verus! {

/// Model of one live entry: the identifier string stored for the caller's
/// value, and the entry's access frequency.
#[verifier::ext_equal]
pub ghost struct EntryModel {
    pub value: Seq<char>,
    pub freq: nat,
}

/// Model of the whole cache: the fixed capacity, the running minimum
/// frequency, the value encoder's counter, the live entries, and the
/// frequency groups, each an insertion-ordered queue of keys.
#[verifier::ext_equal]
pub ghost struct CacheView {
    pub capacity: nat,
    pub min_freq: nat,
    pub counter: nat,
    pub entries: Map<Seq<char>, EntryModel>,
    pub groups: Map<nat, Seq<Seq<char>>>,
}

/// The members of frequency group `f`, oldest first; a group that was never
/// created is empty.
pub open spec fn group_of(v: CacheView, f: nat) -> Seq<Seq<char>> {
    if v.groups.contains_key(f) {
        v.groups[f]
    } else {
        Seq::empty()
    }
}

/// The minimum-frequency bookkeeping: the tracked minimum names a non-empty
/// group, and no non-empty group sits below it.
pub open spec fn min_freq_ok(v: CacheView) -> bool {
    &&& group_of(v, v.min_freq).len() > 0
    &&& forall|f: nat| #[trigger] group_of(v, f).len() > 0 ==> v.min_freq <= f
}

/// The cache invariant apart from minimum-frequency bookkeeping.
pub open spec fn inv_core(v: CacheView) -> bool {
    &&& v.capacity >= 1
    &&& v.entries.dom().finite()
    &&& v.entries.dom().len() <= v.capacity
    &&& forall|k: Seq<char>| #[trigger] v.entries.contains_key(k) ==> {
        &&& 1 <= v.entries[k].freq
        &&& group_of(v, v.entries[k].freq).contains(k)
    }
    &&& forall|f: nat, k: Seq<char>| #[trigger] group_of(v, f).contains(k) ==> {
        &&& v.entries.contains_key(k)
        &&& v.entries[k].freq == f
    }
    &&& forall|f: nat| (#[trigger] group_of(v, f)).no_duplicates()
}

/// The full cache invariant: well-formed bookkeeping, size within capacity,
/// every frequency at least 1, and a valid running minimum while the cache
/// holds any entry.
pub open spec fn cache_inv(v: CacheView) -> bool {
    &&& inv_core(v)
    &&& v.entries.dom().len() > 0 ==> min_freq_ok(v)
}

/// One recorded access of a present key: the key leaves its current frequency
/// group, joins the next one, and its stored frequency rises by exactly one.
/// When the old group was the minimum and is now empty, the minimum moves up
/// by one.
pub open spec fn spec_record_access(v: CacheView, k: Seq<char>) -> CacheView
    recommends
        v.entries.contains_key(k),
{
    let f = v.entries[k].freq;
    let shrunk = group_of(v, f).remove_value(k);
    let new_min = if f == v.min_freq && shrunk.len() == 0 {
        v.min_freq + 1
    } else {
        v.min_freq
    };
    CacheView {
        min_freq: new_min,
        entries: v.entries.insert(
            k,
            EntryModel { value: v.entries[k].value, freq: f + 1 },
        ),
        groups: v.groups.insert(f, shrunk).insert(f + 1, group_of(v, f + 1).push(k)),
        ..v
    }
}

/// The eviction candidate: the oldest member of the minimum-frequency group.
pub open spec fn spec_victim(v: CacheView) -> Seq<char> {
    group_of(v, v.min_freq)[0]
}

/// Eviction: the candidate leaves both its frequency group and the entry
/// store.
pub open spec fn spec_evict(v: CacheView) -> CacheView {
    CacheView {
        entries: v.entries.remove(spec_victim(v)),
        groups: v.groups.insert(v.min_freq, group_of(v, v.min_freq).drop_first()),
        ..v
    }
}

/// The value-update step of `set` on a present key: the stored value becomes
/// the encoder's next identifier and the counter advances; the frequency and
/// the groups do not move yet.
pub open spec fn spec_update_value(v: CacheView, k: Seq<char>) -> CacheView
    recommends
        v.entries.contains_key(k),
{
    CacheView {
        entries: v.entries.insert(
            k,
            EntryModel { value: encoded_id(v.counter as u64), freq: v.entries[k].freq },
        ),
        counter: v.counter + 1,
        ..v
    }
}

/// `set` on a key already present: the stored value becomes the encoder's
/// next identifier, the counter advances, and one access is recorded.
pub open spec fn spec_set_existing(v: CacheView, k: Seq<char>) -> CacheView
    recommends
        v.entries.contains_key(k),
{
    spec_record_access(spec_update_value(v, k), k)
}

/// `set` on an absent key: evict when the cache is full, then admit the key
/// with frequency 1 at the back of group 1; the minimum frequency becomes 1.
pub open spec fn spec_set_new(v: CacheView, k: Seq<char>) -> CacheView {
    let v1 = if v.entries.dom().len() >= v.capacity {
        spec_evict(v)
    } else {
        v
    };
    CacheView {
        min_freq: 1,
        counter: v.counter + 1,
        entries: v1.entries.insert(k, EntryModel { value: encoded_id(v.counter as u64), freq: 1 }),
        groups: v1.groups.insert(1, group_of(v1, 1).push(k)),
        ..v
    }
}

/// The full `set` transition.
pub open spec fn spec_set(v: CacheView, k: Seq<char>) -> CacheView {
    if v.entries.contains_key(k) {
        spec_set_existing(v, k)
    } else {
        spec_set_new(v, k)
    }
}

/// `clear` empties entries and groups; capacity and the encoder counter stay.
pub open spec fn spec_clear(v: CacheView) -> CacheView {
    CacheView {
        min_freq: 0,
        entries: Map::empty(),
        groups: Map::empty(),
        ..v
    }
}

/// Removing the first occurrence of `k` from a duplicate-free sequence that
/// contains it: the length drops by one, `k` is gone, every other element
/// stays, and the result is still duplicate-free.
proof fn lemma_remove_value_props(s: Seq<Seq<char>>, k: Seq<char>)
    requires
        s.no_duplicates(),
        s.contains(k),
    ensures
        s.remove_value(k).len() == s.len() - 1,
        !s.remove_value(k).contains(k),
        forall|x: Seq<char>| #[trigger] s.remove_value(k).contains(x) ==> s.contains(x),
        forall|x: Seq<char>| x != k && #[trigger] s.contains(x) ==> s.remove_value(k).contains(x),
        s.remove_value(k).no_duplicates(),
{
    s.index_of_first_ensures(k);
    let i = s.index_of_first(k).unwrap();
    s.remove_ensures(i);
    let r = s.remove(i);
    assert forall|j: int| 0 <= j < r.len() implies r[j] != k by {
        if j < i {
            assert(r[j] == s[j]);
        } else {
            assert(r[j] == s[j + 1]);
        }
    }
    assert forall|x: Seq<char>| #[trigger] r.contains(x) implies s.contains(x) by {
        let j = choose|j: int| 0 <= j < r.len() && r[j] == x;
        if j < i {
            assert(s[j] == x);
        } else {
            assert(s[j + 1] == x);
        }
    }
    assert forall|x: Seq<char>| x != k && #[trigger] s.contains(x) implies r.contains(x) by {
        let j = choose|j: int| 0 <= j < s.len() && s[j] == x;
        if j < i {
            assert(r[j] == x);
        } else {
            assert(j != i);
            assert(r[j - 1] == s[j]);
        }
    }
    assert forall|a: int, b: int|
        0 <= a < r.len() && 0 <= b < r.len() && a != b implies r[a] != r[b] by {
        let a2: int = if a < i { a } else { a + 1 };
        let b2: int = if b < i { b } else { b + 1 };
        assert(r[a] == s[a2]);
        assert(r[b] == s[b2]);
    }
}

/// Appending a fresh key to a duplicate-free sequence: the key is now a
/// member, the old members stay, and the result is still duplicate-free.
proof fn lemma_push_props(s: Seq<Seq<char>>, k: Seq<char>)
    requires
        s.no_duplicates(),
        !s.contains(k),
    ensures
        s.push(k).len() == s.len() + 1,
        s.push(k).contains(k),
        forall|x: Seq<char>| #[trigger] s.push(k).contains(x) ==> (s.contains(x) || x == k),
        forall|x: Seq<char>| #[trigger] s.contains(x) ==> s.push(k).contains(x),
        s.push(k).no_duplicates(),
{
    let p = s.push(k);
    assert(p[s.len() as int] == k);
    assert forall|x: Seq<char>| #[trigger] p.contains(x) implies (s.contains(x) || x == k) by {
        let j = choose|j: int| 0 <= j < p.len() && p[j] == x;
        if j < s.len() {
            assert(s[j] == x);
        }
    }
    assert forall|x: Seq<char>| #[trigger] s.contains(x) implies p.contains(x) by {
        let j = choose|j: int| 0 <= j < s.len() && s[j] == x;
        assert(p[j] == x);
    }
    assert forall|a: int, b: int|
        0 <= a < p.len() && 0 <= b < p.len() && a != b implies p[a] != p[b] by {
        if a < s.len() && b < s.len() {
        } else if a < s.len() {
            assert(p[b] == k);
            assert(s.contains(s[a]));
        } else if b < s.len() {
            assert(p[a] == k);
            assert(s.contains(s[b]));
        }
    }
}

/// Law: a recorded access preserves the cache invariant; the accessed key's
/// frequency rises by exactly one, its value and every other entry stay, and
/// no key appears or disappears. In particular a `get`, whose effect on the
/// state is exactly `spec_record_access`, never decreases any frequency.
pub proof fn lemma_record_access_preserves_inv(v: CacheView, k: Seq<char>)
    requires
        cache_inv(v),
        v.entries.contains_key(k),
    ensures
        cache_inv(spec_record_access(v, k)),
        spec_record_access(v, k).entries.dom() =~= v.entries.dom(),
        spec_record_access(v, k).entries[k].freq == v.entries[k].freq + 1,
        spec_record_access(v, k).entries[k].value == v.entries[k].value,
        forall|k2: Seq<char>|
            k2 != k && #[trigger] v.entries.contains_key(k2) ==> spec_record_access(v, k).entries[k2]
                == v.entries[k2],
        spec_record_access(v, k).capacity == v.capacity,
        spec_record_access(v, k).counter == v.counter,
        spec_record_access(v, k).entries.dom().len() == v.entries.dom().len(),
{
    let f = v.entries[k].freq;
    let g = group_of(v, f);
    let shrunk = g.remove_value(k);
    let v2 = spec_record_access(v, k);
    assert(g.contains(k));
    lemma_remove_value_props(g, k);
    assert(!group_of(v, (f + 1) as nat).contains(k));
    lemma_push_props(group_of(v, (f + 1) as nat), k);
    assert(v2.entries.dom() =~= v.entries.dom());

    assert(group_of(v2, f) == shrunk);
    assert(group_of(v2, (f + 1) as nat) == group_of(v, (f + 1) as nat).push(k));
    assert(forall|f2: nat| f2 != f && f2 != f + 1 ==> group_of(v2, f2) == group_of(v, f2));

    // Entries point into their groups.
    assert forall|k2: Seq<char>| #[trigger] v2.entries.contains_key(k2) implies {
        &&& 1 <= v2.entries[k2].freq
        &&& group_of(v2, v2.entries[k2].freq).contains(k2)
    } by {
        if k2 == k {
            assert(group_of(v2, (f + 1) as nat).contains(k));
        } else {
            assert(v.entries.contains_key(k2));
            let f2 = v.entries[k2].freq;
            assert(group_of(v, f2).contains(k2));
            if f2 == f {
                assert(k2 != k);
                assert(shrunk.contains(k2));
            } else if f2 == f + 1 {
                assert(group_of(v2, f2).contains(k2));
            }
        }
    }
    // Group members are entries at that frequency.
    assert forall|f2: nat, k2: Seq<char>| #[trigger] group_of(v2, f2).contains(k2) implies {
        &&& v2.entries.contains_key(k2)
        &&& v2.entries[k2].freq == f2
    } by {
        if f2 == f {
            assert(shrunk.contains(k2));
            assert(g.contains(k2));
            assert(k2 != k);
        } else if f2 == f + 1 {
            if k2 != k {
                assert(group_of(v, f2).contains(k2));
            }
        } else {
            assert(group_of(v, f2).contains(k2));
            assert(k2 != k);
        }
    }
    // Groups stay duplicate-free.
    assert forall|f2: nat| (#[trigger] group_of(v2, f2)).no_duplicates() by {
        if f2 != f && f2 != f + 1 {
            assert(group_of(v2, f2) == group_of(v, f2));
        }
    }
    // The running minimum stays valid.
    assert(v.entries.dom().len() > 0) by {
        assert(v.entries.dom().contains(k));
        if v.entries.dom().len() == 0 {
            assert(v.entries.dom() =~= Set::empty());
        }
    }
    assert(min_freq_ok(v));
    assert(g.len() > 0);
    assert(v.min_freq <= f);
    if f == v.min_freq && shrunk.len() == 0 {
        assert(v2.min_freq == f + 1);
        assert(group_of(v2, (f + 1) as nat).len() > 0);
        assert forall|f2: nat| #[trigger] group_of(v2, f2).len() > 0 implies v2.min_freq <= f2 by {
            if f2 == f {
                assert(false);
            } else if f2 != f + 1 {
                assert(group_of(v, f2) == group_of(v2, f2));
                assert(v.min_freq <= f2);
                assert(f2 != v.min_freq);
            }
        }
    } else {
        assert(v2.min_freq == v.min_freq);
        assert(group_of(v2, v2.min_freq).len() > 0) by {
            if v.min_freq == f {
                assert(shrunk.len() > 0);
            } else if v.min_freq == f + 1 {
                assert(group_of(v2, v2.min_freq).len() == group_of(v, v.min_freq).len() + 1);
            } else {
                assert(group_of(v2, v2.min_freq) == group_of(v, v.min_freq));
            }
        }
        assert forall|f2: nat| #[trigger] group_of(v2, f2).len() > 0 implies v2.min_freq <= f2 by {
            if f2 == f {
            } else if f2 == f + 1 {
                assert(v.min_freq <= f);
            } else {
                assert(group_of(v, f2) == group_of(v2, f2));
            }
        }
    }
    assert(v2.entries.dom().len() == v.entries.dom().len());
}

/// Dropping the oldest member of a duplicate-free, non-empty queue: that
/// member is gone, every other member stays, and the rest is duplicate-free.
proof fn lemma_drop_first_props(s: Seq<Seq<char>>)
    requires
        s.no_duplicates(),
        s.len() > 0,
    ensures
        s.drop_first().len() == s.len() - 1,
        !s.drop_first().contains(s[0]),
        forall|x: Seq<char>| #[trigger] s.drop_first().contains(x) ==> s.contains(x),
        forall|x: Seq<char>| x != s[0] && #[trigger] s.contains(x) ==> s.drop_first().contains(x),
        s.drop_first().no_duplicates(),
{
    let r = s.drop_first();
    assert forall|j: int| 0 <= j < r.len() implies r[j] != s[0] by {
        assert(r[j] == s[j + 1]);
    }
    assert forall|x: Seq<char>| #[trigger] r.contains(x) implies s.contains(x) by {
        let j = choose|j: int| 0 <= j < r.len() && r[j] == x;
        assert(s[j + 1] == x);
    }
    assert forall|x: Seq<char>| x != s[0] && #[trigger] s.contains(x) implies r.contains(x) by {
        let j = choose|j: int| 0 <= j < s.len() && s[j] == x;
        assert(j != 0);
        assert(r[j - 1] == s[j]);
    }
}

/// Eviction removes exactly the oldest minimum-frequency key from both the
/// entry store and its group; all bookkeeping apart from the running minimum
/// stays intact.
proof fn lemma_evict_props(v: CacheView)
    requires
        cache_inv(v),
        v.entries.dom().len() > 0,
    ensures
        inv_core(spec_evict(v)),
        v.entries.contains_key(spec_victim(v)),
        !spec_evict(v).entries.contains_key(spec_victim(v)),
        spec_evict(v).entries.dom().len() == v.entries.dom().len() - 1,
        forall|k2: Seq<char>|
            k2 != spec_victim(v) ==> spec_evict(v).entries.contains_key(k2)
                == v.entries.contains_key(k2),
        forall|k2: Seq<char>|
            k2 != spec_victim(v) && #[trigger] v.entries.contains_key(k2) ==> spec_evict(
                v,
            ).entries[k2] == v.entries[k2],
{
    let m = v.min_freq;
    let g = group_of(v, m);
    let victim = spec_victim(v);
    let v2 = spec_evict(v);
    assert(min_freq_ok(v));
    assert(g.contains(g[0]));
    assert(v.entries.contains_key(victim));
    assert(v.entries[victim].freq == m);
    lemma_drop_first_props(g);
    vstd::set::axiom_set_remove_len(v.entries.dom(), victim);
    assert(v2.entries.dom() =~= v.entries.dom().remove(victim));

    assert(group_of(v2, m) == g.drop_first());
    assert(forall|f2: nat| f2 != m ==> group_of(v2, f2) == group_of(v, f2));

    assert forall|k2: Seq<char>| #[trigger] v2.entries.contains_key(k2) implies {
        &&& 1 <= v2.entries[k2].freq
        &&& group_of(v2, v2.entries[k2].freq).contains(k2)
    } by {
        assert(v.entries.contains_key(k2));
        assert(k2 != victim);
        let f2 = v.entries[k2].freq;
        assert(group_of(v, f2).contains(k2));
        if f2 == m {
            assert(g.drop_first().contains(k2));
        }
    }
    assert forall|f2: nat, k2: Seq<char>| #[trigger] group_of(v2, f2).contains(k2) implies {
        &&& v2.entries.contains_key(k2)
        &&& v2.entries[k2].freq == f2
    } by {
        if f2 == m {
            assert(g.contains(k2));
            assert(k2 != victim);
        } else {
            assert(group_of(v, f2).contains(k2));
            assert(v.entries[k2].freq == f2);
            assert(k2 != victim);
        }
    }
    assert forall|f2: nat| (#[trigger] group_of(v2, f2)).no_duplicates() by {
        if f2 != m {
            assert(group_of(v2, f2) == group_of(v, f2));
        }
    }
}

/// Updating a present key's stored value keeps the invariant: no frequency,
/// group or key moves.
pub proof fn lemma_update_value_preserves_inv(v: CacheView, k: Seq<char>)
    requires
        cache_inv(v),
        v.entries.contains_key(k),
    ensures
        cache_inv(spec_update_value(v, k)),
        spec_update_value(v, k).entries.contains_key(k),
        spec_update_value(v, k).entries[k].freq == v.entries[k].freq,
{
    let v1 = spec_update_value(v, k);
    assert(v1.entries.dom() =~= v.entries.dom());
    assert(forall|f2: nat| group_of(v1, f2) == group_of(v, f2));
    assert forall|k2: Seq<char>| #[trigger] v1.entries.contains_key(k2) implies {
        &&& 1 <= v1.entries[k2].freq
        &&& group_of(v1, v1.entries[k2].freq).contains(k2)
    } by {
        assert(v.entries.contains_key(k2));
        assert(v1.entries[k2].freq == v.entries[k2].freq);
    }
    assert forall|f2: nat, k2: Seq<char>| #[trigger] group_of(v1, f2).contains(k2) implies {
        &&& v1.entries.contains_key(k2)
        &&& v1.entries[k2].freq == f2
    } by {
        assert(group_of(v, f2).contains(k2));
    }
}

/// Law: `set` preserves the cache invariant, and afterwards the store still
/// holds at most `capacity` entries. The given key is present afterwards,
/// with frequency one more than before when it was already present and
/// frequency 1 when it was not; no surviving entry's frequency decreases.
pub proof fn lemma_set_preserves_inv(v: CacheView, k: Seq<char>)
    requires
        cache_inv(v),
    ensures
        cache_inv(spec_set(v, k)),
        spec_set(v, k).entries.dom().len() <= spec_set(v, k).capacity,
        spec_set(v, k).capacity == v.capacity,
        spec_set(v, k).entries.contains_key(k),
        v.entries.contains_key(k) ==> spec_set(v, k).entries[k].freq == v.entries[k].freq + 1,
        !v.entries.contains_key(k) ==> spec_set(v, k).entries[k].freq == 1,
        forall|k2: Seq<char>|
            #[trigger] v.entries.contains_key(k2) && spec_set(v, k).entries.contains_key(k2)
                ==> spec_set(v, k).entries[k2].freq >= v.entries[k2].freq,
{
    if v.entries.contains_key(k) {
        let v1 = spec_update_value(v, k);
        lemma_update_value_preserves_inv(v, k);
        lemma_record_access_preserves_inv(v1, k);
        assert(v1.entries.dom() =~= v.entries.dom());
        assert(spec_set(v, k).entries.dom().len() == v.entries.dom().len());
        assert forall|k2: Seq<char>|
            #[trigger] v.entries.contains_key(k2) && spec_set(v, k).entries.contains_key(k2)
                implies spec_set(v, k).entries[k2].freq >= v.entries[k2].freq by {
            if k2 != k {
                assert(v1.entries[k2] == v.entries[k2]);
                assert(spec_set(v, k).entries[k2] == v1.entries[k2]);
            }
        }
    } else {
        let full = v.entries.dom().len() >= v.capacity;
        let v1 = if full {
            spec_evict(v)
        } else {
            v
        };
        if full {
            assert(v.entries.dom().len() > 0);
            lemma_evict_props(v);
        }
        assert(inv_core(v1));
        assert(!v1.entries.contains_key(k));
        assert(v1.entries.dom().len() + 1 <= v.capacity);
        let v2 = spec_set_new(v, k);
        assert(v2 == CacheView {
            min_freq: 1,
            counter: (v.counter + 1) as nat,
            entries: v1.entries.insert(
                k,
                EntryModel { value: encoded_id(v.counter as u64), freq: 1 },
            ),
            groups: v1.groups.insert(1, group_of(v1, 1).push(k)),
            ..v
        });
        let g1 = group_of(v1, 1);
        assert(!g1.contains(k));
        lemma_push_props(g1, k);
        vstd::set::axiom_set_insert_len(v1.entries.dom(), k);
        assert(v2.entries.dom() =~= v1.entries.dom().insert(k));
        assert(v2.entries.dom().len() == v1.entries.dom().len() + 1);

        assert(group_of(v2, 1) == g1.push(k));
        assert(forall|f2: nat| f2 != 1 ==> group_of(v2, f2) == group_of(v1, f2));

        assert forall|k2: Seq<char>| #[trigger] v2.entries.contains_key(k2) implies {
            &&& 1 <= v2.entries[k2].freq
            &&& group_of(v2, v2.entries[k2].freq).contains(k2)
        } by {
            if k2 == k {
                assert(group_of(v2, 1).contains(k));
            } else {
                assert(v1.entries.contains_key(k2));
                let f2 = v1.entries[k2].freq;
                assert(group_of(v1, f2).contains(k2));
                if f2 == 1 {
                    assert(group_of(v2, 1).contains(k2));
                }
            }
        }
        assert forall|f2: nat, k2: Seq<char>| #[trigger] group_of(v2, f2).contains(k2) implies {
            &&& v2.entries.contains_key(k2)
            &&& v2.entries[k2].freq == f2
        } by {
            if f2 == 1 {
                if k2 != k {
                    assert(g1.contains(k2));
                    assert(v1.entries[k2].freq == 1);
                    assert(k2 != k);
                }
            } else {
                assert(group_of(v1, f2).contains(k2));
                assert(k2 != k);
            }
        }
        assert forall|f2: nat| (#[trigger] group_of(v2, f2)).no_duplicates() by {
            if f2 != 1 {
                assert(group_of(v2, f2) == group_of(v1, f2));
            }
        }
        assert(min_freq_ok(v2)) by {
            assert(group_of(v2, 1).contains(k));
            assert(group_of(v2, 1).len() > 0);
            assert forall|f2: nat| #[trigger] group_of(v2, f2).len() > 0 implies v2.min_freq
                <= f2 by {
                let k2 = group_of(v2, f2)[0];
                assert(group_of(v2, f2).contains(k2));
                assert(v2.entries[k2].freq == f2);
                assert(1 <= f2);
            }
        }
        assert forall|k2: Seq<char>|
            #[trigger] v.entries.contains_key(k2) && v2.entries.contains_key(k2)
                implies v2.entries[k2].freq >= v.entries[k2].freq by {
            if k2 != k {
                if full {
                    if k2 != spec_victim(v) {
                        assert(v2.entries[k2] == v.entries[k2]);
                    }
                } else {
                    assert(v2.entries[k2] == v.entries[k2]);
                }
            }
        }
    }
}

/// Law: after `clear` the cache is empty and the invariant still holds, so a
/// subsequent `set` behaves as on a fresh cache: the new key is admitted with
/// frequency 1.
pub proof fn lemma_clear_then_set_fresh(v: CacheView, k: Seq<char>)
    requires
        cache_inv(v),
    ensures
        cache_inv(spec_clear(v)),
        spec_clear(v).entries.dom().len() == 0,
        spec_clear(v).capacity == v.capacity,
        spec_set(spec_clear(v), k).entries.contains_key(k),
        spec_set(spec_clear(v), k).entries[k].freq == 1,
{
    let c = spec_clear(v);
    assert(c.entries.dom() =~= Set::empty());
    assert(forall|f2: nat| group_of(c, f2) == Seq::<Seq<char>>::empty());
    assert(cache_inv(c));
    lemma_set_preserves_inv(c, k);
}

} // verus!
