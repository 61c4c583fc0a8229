//! The size-bounded cache: a mapping from key to value whose values together
//! hold at most a fixed number of bytes.
use vstd::prelude::*;

verus! {

/// What the cache holds, as a sequence of (key, value) pairs in the order in
/// which they were inserted.
pub type Entries = Seq<(Seq<char>, Seq<u8>)>;

/// The number of bytes that the values of `es` take; keys are not counted.
pub open spec fn total(es: Entries) -> nat
    decreases es.len(),
{
    if es.len() == 0 {
        0
    } else {
        total(es.drop_last()) + es.last().1.len()
    }
}

/// No key occurs twice.
pub open spec fn keys_unique(es: Entries) -> bool {
    forall|i: int, j: int| 0 <= i < j < es.len() ==> es[i].0 != es[j].0
}

/// Some entry of `es` is held under `k`.
pub open spec fn has_key(es: Entries, k: Seq<char>) -> bool {
    exists|i: int| 0 <= i < es.len() && es[i].0 == k
}

/// The position of key `k` in `es`, where `has_key(es, k)`.
pub open spec fn key_index(es: Entries, k: Seq<char>) -> int {
    choose|i: int| 0 <= i < es.len() && es[i].0 == k
}

/// The value held for `k`, if any.
pub open spec fn lookup(es: Entries, k: Seq<char>) -> Option<Seq<u8>> {
    if has_key(es, k) {
        Some(es[key_index(es, k)].1)
    } else {
        None
    }
}

/// `es` without the entry for `k`.
pub open spec fn remove_key(es: Entries, k: Seq<char>) -> Entries {
    if has_key(es, k) {
        es.remove(key_index(es, k))
    } else {
        es
    }
}

/// How many entries, taken from the front of `es`, have to go so that the
/// values left take at most `room` bytes. Eviction goes by order of insertion:
/// it ranks entries neither by recency nor by frequency of use.
pub open spec fn evict_count(es: Entries, room: nat) -> nat
    decreases es.len(),
{
    if es.len() == 0 || total(es) <= room {
        0
    } else {
        1 + evict_count(es.skip(1), room)
    }
}

/// The contents after putting `v` under `k` into a cache of `max` bytes: a value
/// larger than the cache is not taken and leaves the contents as they are;
/// otherwise the old entry for `k` goes, then the oldest entries until `v`
/// fits, and `(k, v)` is appended.
pub open spec fn after_put(es: Entries, max: nat, k: Seq<char>, v: Seq<u8>) -> Entries {
    if v.len() > max {
        es
    } else {
        let rest = remove_key(es, k);
        rest.skip(evict_count(rest, (max - v.len()) as nat) as int).push((k, v))
    }
}

/// No more entries are evicted than there are.
pub proof fn lemma_evict_count_bound(es: Entries, room: nat)
    ensures
        evict_count(es, room) <= es.len(),
    decreases es.len(),
{
    if es.len() > 0 && total(es) > room {
        lemma_evict_count_bound(es.skip(1), room);
    }
}

/// Evicting `evict_count` entries leaves at most `room` bytes.
pub proof fn lemma_evict_count_fits(es: Entries, room: nat)
    ensures
        total(es.skip(evict_count(es, room) as int)) <= room,
    decreases es.len(),
{
    if es.len() == 0 || total(es) <= room {
        assert(es.skip(0) =~= es);
    } else {
        lemma_evict_count_fits(es.skip(1), room);
        lemma_evict_count_bound(es.skip(1), room);
        let m = evict_count(es.skip(1), room) as int;
        assert(es.skip(1).skip(m) =~= es.skip(m + 1));
    }
}

/// Evicting one entry fewer than `evict_count` would leave more than `room`
/// bytes.
pub proof fn lemma_evict_count_least(es: Entries, room: nat)
    requires
        evict_count(es, room) > 0,
    ensures
        total(es.skip(evict_count(es, room) - 1)) > room,
    decreases es.len(),
{
    let m = evict_count(es.skip(1), room);
    if m == 0 {
        assert(es.skip(0) =~= es);
    } else {
        lemma_evict_count_least(es.skip(1), room);
        lemma_evict_count_bound(es.skip(1), room);
        assert(es.skip(1).skip(m - 1) =~= es.skip(m as int));
    }
}

/// The size of a concatenation is the sum of the sizes.
proof fn lemma_total_concat(a: Entries, b: Entries)
    ensures
        total(a + b) == total(a) + total(b),
    decreases b.len(),
{
    if b.len() == 0 {
        assert(a + b =~= a);
    } else {
        lemma_total_concat(a, b.drop_last());
        assert((a + b).drop_last() =~= a + b.drop_last());
    }
}

/// The size of one entry is the length of its value.
proof fn lemma_total_single(e: (Seq<char>, Seq<u8>))
    ensures
        total(seq![e]) == e.1.len(),
{
    assert(seq![e].drop_last() =~= Seq::<(Seq<char>, Seq<u8>)>::empty());
    assert(total(Seq::<(Seq<char>, Seq<u8>)>::empty()) == 0);
}

/// Splitting off the first entry.
proof fn lemma_total_head(es: Entries)
    requires
        es.len() > 0,
    ensures
        total(es) == es[0].1.len() + total(es.skip(1)),
{
    assert(es =~= seq![es[0]] + es.skip(1));
    lemma_total_concat(seq![es[0]], es.skip(1));
    lemma_total_single(es[0]);
}

/// Removing an entry releases exactly the length of its value.
pub proof fn lemma_total_remove(es: Entries, i: int)
    requires
        0 <= i < es.len(),
    ensures
        total(es.remove(i)) + es[i].1.len() == total(es),
{
    assert(es =~= es.take(i) + (seq![es[i]] + es.skip(i + 1)));
    assert(es.remove(i) =~= es.take(i) + es.skip(i + 1));
    lemma_total_concat(es.take(i), seq![es[i]] + es.skip(i + 1));
    lemma_total_concat(seq![es[i]], es.skip(i + 1));
    lemma_total_concat(es.take(i), es.skip(i + 1));
    lemma_total_single(es[i]);
}

/// Appending an entry adds exactly the length of its value.
pub proof fn lemma_total_push(es: Entries, e: (Seq<char>, Seq<u8>))
    ensures
        total(es.push(e)) == total(es) + e.1.len(),
{
    assert(es.push(e).drop_last() =~= es);
}

/// No single value is larger than all of them together.
proof fn lemma_value_within_total(es: Entries, i: int)
    requires
        0 <= i < es.len(),
    ensures
        es[i].1.len() <= total(es),
{
    lemma_total_remove(es, i);
}

/// With unique keys, the entry at `i` is the one found for its key.
pub proof fn lemma_key_index(es: Entries, i: int)
    requires
        keys_unique(es),
        0 <= i < es.len(),
    ensures
        has_key(es, es[i].0),
        key_index(es, es[i].0) == i,
        lookup(es, es[i].0) == Some(es[i].1),
{
    assert(0 <= i < es.len() && es[i].0 == es[i].0);
}

/// Removing the entry for `k` keeps keys unique, leaves no entry for `k`
/// and changes no other key's value.
pub proof fn lemma_remove_key(es: Entries, k: Seq<char>)
    requires
        keys_unique(es),
    ensures
        keys_unique(remove_key(es, k)),
        !has_key(remove_key(es, k), k),
        forall|k2: Seq<char>| k2 != k ==> lookup(#[trigger] remove_key(es, k), k2) == lookup(es, k2),
{
    let r = remove_key(es, k);
    if has_key(es, k) {
        let i = key_index(es, k);
        assert forall|a: int, b: int| 0 <= a < b < r.len() implies r[a].0 != r[b].0 by {
            let a2 = if a < i { a } else { a + 1 };
            let b2 = if b < i { b } else { b + 1 };
            assert(r[a] == es[a2] && r[b] == es[b2]);
        }
        assert forall|j: int| 0 <= j < r.len() implies r[j].0 != k by {
            let j2 = if j < i { j } else { j + 1 };
            assert(r[j] == es[j2]);
        }
        assert forall|k2: Seq<char>| k2 != k implies lookup(r, k2) == lookup(es, k2) by {
            if has_key(es, k2) {
                let j = key_index(es, k2);
                let j2 = if j < i { j } else { j - 1 };
                assert(r[j2] == es[j]);
                lemma_key_index(r, j2);
            } else {
                if has_key(r, k2) {
                    let j = key_index(r, k2);
                    let j2 = if j < i { j } else { j + 1 };
                    assert(r[j] == es[j2]);
                }
            }
        }
    }
}

/// Dropping entries from the front keeps keys unique and adds no key.
pub proof fn lemma_skip_unique(es: Entries, n: int, k: Seq<char>)
    requires
        keys_unique(es),
        0 <= n <= es.len(),
    ensures
        keys_unique(es.skip(n)),
        !has_key(es, k) ==> !has_key(es.skip(n), k),
{
    let s = es.skip(n);
    assert forall|a: int, b: int| 0 <= a < b < s.len() implies s[a].0 != s[b].0 by {
        assert(s[a] == es[a + n] && s[b] == es[b + n]);
    }
    if has_key(s, k) {
        let j = key_index(s, k);
        assert(s[j] == es[j + n]);
    }
}

/// Appending an entry under a new key keeps keys unique, and the key then
/// finds its value.
pub proof fn lemma_push_unique(es: Entries, e: (Seq<char>, Seq<u8>))
    requires
        keys_unique(es),
        !has_key(es, e.0),
    ensures
        keys_unique(es.push(e)),
        lookup(es.push(e), e.0) == Some(e.1),
{
    let p = es.push(e);
    assert forall|a: int, b: int| 0 <= a < b < p.len() implies p[a].0 != p[b].0 by {
        if b == es.len() {
            assert(p[a] == es[a]);
            assert(!(0 <= a < es.len() && es[a].0 == e.0));
        } else {
            assert(p[a] == es[a] && p[b] == es[b]);
        }
    }
    lemma_key_index(p, es.len() as int);
}

/// One cached value together with the key it is held under.
#[derive(Debug)]
pub struct CacheEntry {
    pub key: String,
    pub value: Vec<u8>,
}

/// An entry as a (key, value) pair of plain sequences.
pub open spec fn entry_view(e: CacheEntry) -> (Seq<char>, Seq<u8>) {
    (e.key@, e.value@)
}

/// In-memory cache of at most `cache_size_max` bytes of values. Keys do not
/// count towards the size, and a value larger than the whole cache is never
/// cached.
#[derive(Debug)]
pub struct DiskvCache {
    cache: Vec<CacheEntry>,
    cache_size: u32,
    cache_size_max: u32,
}

impl View for DiskvCache {
    type V = Entries;

    closed spec fn view(&self) -> Entries {
        self.cache@.map_values(|e: CacheEntry| entry_view(e))
    }
}

impl DiskvCache {
    /// The ceiling in bytes.
    pub closed spec fn max(&self) -> nat {
        self.cache_size_max as nat
    }

    /// The size that the cache keeps count of.
    pub closed spec fn size(&self) -> nat {
        self.cache_size as nat
    }

    /// Keys are unique, the kept size is exactly the bytes held, and it stays
    /// within the ceiling.
    pub open spec fn wf(&self) -> bool {
        &&& keys_unique(self@)
        &&& self.size() == total(self@)
        &&& self.size() <= self.max()
    }

    /// The ceiling fits in `u32`, and the model follows the stored entries.
    proof fn lemma_bounds(&self)
        requires
            self.wf(),
        ensures
            self.max() <= u32::MAX,
            self@.len() == self.cache@.len(),
            forall|i: int| 0 <= i < self@.len() ==> #[trigger] self@[i] == entry_view(self.cache@[i]),
    {
    }

    /// Values held, and their sum, are all within the ceiling.
    pub proof fn lemma_within_ceiling(&self, k: Seq<char>)
        requires
            self.wf(),
        ensures
            total(self@) <= self.max(),
            forall|i: int| 0 <= i < self@.len() ==> (#[trigger] self@[i]).1.len() <= self.max(),
            lookup(self@, k) matches Some(v) ==> v.len() <= self.max(),
    {
        assert forall|i: int| 0 <= i < self@.len() implies (#[trigger] self@[i]).1.len() <= self.max() by {
            lemma_value_within_total(self@, i);
        }
        if has_key(self@, k) {
            lemma_value_within_total(self@, key_index(self@, k));
        }
    }

    /// An empty cache with the given ceiling.
    pub fn new(cache_size_max: u32) -> (c: DiskvCache)
        ensures
            c.wf(),
            c@ == Seq::<(Seq<char>, Seq<u8>)>::empty(),
            c.max() == cache_size_max,
    {
        let c = DiskvCache { cache: Vec::new(), cache_size: 0, cache_size_max: cache_size_max };
        assert(c@ =~= Seq::<(Seq<char>, Seq<u8>)>::empty());
        c
    }

    /// Position of the entry for `key`.
    fn find(&self, key: &String) -> (r: Option<usize>)
        requires
            self.wf(),
        ensures
            r matches Some(i) ==> i < self@.len() && self@[i as int].0 == key@,
            r is None ==> !has_key(self@, key@),
    {
        let mut i: usize = 0;
        while i < self.cache.len()
            invariant
                i <= self.cache@.len(),
                self@.len() == self.cache@.len(),
                forall|j: int| 0 <= j < i ==> self@[j].0 != key@,
            decreases self.cache.len() - i,
        {
            if self.cache[i].key == *key {
                return Some(i);
            }
            i = i + 1;
        }
        None
    }

    /// A copy of the value cached for `key`, if there is one.
    pub fn get(&self, key: &String) -> (r: Option<Vec<u8>>)
        requires
            self.wf(),
        ensures
            (match r {
                Some(v) => lookup(self@, key@) == Some(v@),
                None => lookup(self@, key@) is None,
            }),
    {
        match self.find(key) {
            Some(i) => {
                let v = self.cache[i].value.clone();
                proof {
                    lemma_key_index(self@, i as int);
                    assert(v@ =~= self@[i as int].1);
                }
                Some(v)
            },
            None => None,
        }
    }

    fn remove_at(&mut self, i: usize)
        requires
            old(self).wf(),
            i < old(self)@.len(),
        ensures
            final(self).wf(),
            final(self).max() == old(self).max(),
            final(self)@ == old(self)@.remove(i as int),
    {
        let ghost es = self@;
        proof {
            lemma_total_remove(es, i as int);
        }
        let e = self.cache.remove(i);
        assert(self@ =~= es.remove(i as int));
        let len = e.value.len();
        self.cache_size = self.cache_size - len as u32;
        proof {
            assert forall|a: int, b: int| 0 <= a < b < self@.len() implies self@[a].0 != self@[b].0 by {
                let a2 = if a < i { a } else { a + 1 };
                let b2 = if b < i { b } else { b + 1 };
                assert(self@[a] == es[a2] && self@[b] == es[b2]);
            }
        }
    }

    /// Drops the entry for `key`, releasing its bytes; nothing happens where
    /// there is none.
    pub fn delete(&mut self, key: &String)
        requires
            old(self).wf(),
        ensures
            final(self).wf(),
            final(self).max() == old(self).max(),
            final(self)@ == remove_key(old(self)@, key@),
    {
        match self.find(key) {
            Some(i) => {
                proof {
                    lemma_key_index(self@, i as int);
                }
                self.remove_at(i);
            },
            None => {},
        }
    }

    /// Evicts entries, oldest first, until `val_len` more bytes fit under the
    /// ceiling, and no more than that.
    pub fn make_space_for(&mut self, val_len: u32)
        requires
            old(self).wf(),
            val_len <= old(self).max(),
        ensures
            final(self).wf(),
            final(self).max() == old(self).max(),
            final(self)@ == old(self)@.skip(
                evict_count(old(self)@, (old(self).max() - val_len) as nat) as int,
            ),
            final(self).size() + val_len <= final(self).max(),
    {
        let ghost es = self@;
        let ghost room: nat = (self.max() - val_len) as nat;
        let room_x: u32 = self.cache_size_max - val_len;
        let mut n: usize = 0;
        let mut left: u32 = self.cache_size;
        let count = self.cache.len();
        proof {
            self.lemma_bounds();
            assert(es.skip(0) =~= es);
        }
        while left > room_x
            invariant
                self.wf(),
                self@ == es,
                self@.len() == self.cache@.len(),
                forall|i: int| 0 <= i < self@.len() ==> #[trigger] self@[i] == entry_view(self.cache@[i]),
                room_x as nat == room,
                count == es.len(),
                n <= es.len(),
                left as nat == total(es.skip(n as int)),
                evict_count(es, room) == n + evict_count(es.skip(n as int), room),
            decreases es.len() - n,
        {
            let ghost s = es.skip(n as int);
            proof {
                if n == es.len() {
                    assert(s.len() == 0);
                }
                lemma_total_head(s);
                assert(s.skip(1) =~= es.skip(n + 1));
                assert(s[0] == self@[n as int]);
                assert(n < es.len());
            }
            let len = self.cache[n].value.len();
            left = left - len as u32;
            n = n + 1;
        }
        let rest = self.cache.split_off(n);
        self.cache = rest;
        self.cache_size = left;
        proof {
            assert(self@ =~= es.skip(n as int));
            lemma_skip_unique(es, n as int, Seq::empty());
        }
    }

    /// Caches `val` under `key`. A value larger than the ceiling is ignored
    /// and leaves the cache as it was. Otherwise the old entry for `key` is
    /// dropped first, then the oldest entries until `val` fits. Eviction
    /// always makes enough room, so there is no case left in which the value
    /// does not fit.
    pub fn put(&mut self, key: &String, val: Vec<u8>)
        requires
            old(self).wf(),
        ensures
            final(self).wf(),
            final(self).max() == old(self).max(),
            final(self)@ == after_put(old(self)@, old(self).max(), key@, val@),
    {
        if val.len() > self.cache_size_max as usize {
            return;
        }
        let val_len = val.len() as u32;
        let ghost es = self@;
        let ghost rest = remove_key(es, key@);
        let ghost room: nat = (self.max() - val_len) as nat;
        self.delete(key);
        proof {
            lemma_remove_key(es, key@);
        }
        if self.cache_size as u64 + val_len as u64 > self.cache_size_max as u64 {
            self.make_space_for(val_len);
        } else {
            assert(evict_count(rest, room) == 0);
            assert(rest.skip(0) =~= rest);
        }
        proof {
            lemma_evict_count_bound(rest, room);
            lemma_skip_unique(rest, evict_count(rest, room) as int, key@);
            lemma_push_unique(self@, (key@, val@));
            lemma_total_push(self@, (key@, val@));
        }
        let entry = CacheEntry { key: key.clone(), value: val };
        self.cache.push(entry);
        self.cache_size = self.cache_size + val_len;
        assert(self@ =~= after_put(es, self.max(), key@, entry_view(entry).1));
    }
}

} // verus!
