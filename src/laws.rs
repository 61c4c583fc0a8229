//! What holds of the store across several operations, over the models of the
//! cache (`Entries`) and of the persistent store (a map from key to value).
use vstd::prelude::*;
use crate::cache::{
    DiskvCache, Entries, after_put, evict_count, has_key, key_index, lemma_evict_count_bound,
    lemma_evict_count_fits, lemma_evict_count_least, lemma_push_unique, lemma_remove_key,
    lemma_skip_unique, lemma_total_push, lemma_total_remove, lookup, remove_key, total,
};

verus! {

/// The value that the persistent store holds for `k`, if any.
pub open spec fn stored(disk: Map<Seq<char>, Seq<u8>>, k: Seq<char>) -> Option<Seq<u8>> {
    if disk.dom().contains(k) {
        Some(disk[k])
    } else {
        None
    }
}

/// What a read of `k` returns when the cache holds `es` and the persistent
/// store `disk`: the cached value on a hit, the stored one on a miss.
pub open spec fn read_through(es: Entries, disk: Map<Seq<char>, Seq<u8>>, k: Seq<char>) -> Option<
    Seq<u8>,
> {
    match lookup(es, k) {
        Some(v) => Some(v),
        None => stored(disk, k),
    }
}

proof fn lemma_push_other(es: Entries, k: Seq<char>, e: (Seq<char>, Seq<u8>))
    requires
        !has_key(es, k),
        e.0 != k,
    ensures
        !has_key(es.push(e), k),
{
    let p = es.push(e);
    if has_key(p, k) {
        let j = key_index(p, k);
        assert(p[j] == es[j]);
    }
}

/// A put of `v` under `k` followed by a get of `k` returns `v`: from the cache
/// alone where `v` is within the ceiling, and through the persistent store in
/// any case but one. That case is left out: a value over the ceiling is not
/// cached, so where the cache holds another value for `k`, the get returns
/// that value until `k` is deleted.
pub proof fn lemma_put_then_get(c: DiskvCache, disk: Map<Seq<char>, Seq<u8>>, k: Seq<char>, v: Seq<u8>)
    requires
        c.wf(),
        v.len() <= c.max() || lookup(c@, k) is None || lookup(c@, k) == Some(v),
    ensures
        v.len() <= c.max() ==> lookup(after_put(c@, c.max(), k, v), k) == Some(v),
        read_through(after_put(c@, c.max(), k, v), disk.insert(k, v), k) == Some(v),
{
    if v.len() <= c.max() {
        let r = remove_key(c@, k);
        let n = evict_count(r, (c.max() - v.len()) as nat);
        lemma_remove_key(c@, k);
        lemma_evict_count_bound(r, (c.max() - v.len()) as nat);
        lemma_skip_unique(r, n as int, k);
        lemma_push_unique(r.skip(n as int), (k, v));
    }
}

/// After a delete of `k`, a get of `k` finds it neither in the cache nor in
/// the persistent store.
pub proof fn lemma_delete_then_get(c: DiskvCache, disk: Map<Seq<char>, Seq<u8>>, k: Seq<char>)
    requires
        c.wf(),
    ensures
        read_through(remove_key(c@, k), disk.remove(k), k) is None,
{
    lemma_remove_key(c@, k);
}

/// A key that reads as absent stays absent until it is put again: a put or a
/// delete of another key leaves it absent, and so does a get of another key,
/// which at most caches what the persistent store already holds.
pub proof fn lemma_absent_until_put(
    c: DiskvCache,
    disk: Map<Seq<char>, Seq<u8>>,
    k: Seq<char>,
    other: Seq<char>,
    v: Seq<u8>,
)
    requires
        c.wf(),
        read_through(c@, disk, k) is None,
        other != k,
    ensures
        read_through(after_put(c@, c.max(), other, v), disk.insert(other, v), k) is None,
        read_through(remove_key(c@, other), disk.remove(other), k) is None,
{
    lemma_remove_key(c@, other);
    if v.len() <= c.max() {
        let r = remove_key(c@, other);
        let n = evict_count(r, (c.max() - v.len()) as nat);
        lemma_evict_count_bound(r, (c.max() - v.len()) as nat);
        lemma_skip_unique(r, n as int, k);
        lemma_push_other(r.skip(n as int), k, (other, v));
    }
}

/// Overwriting the cached value of `k` changes the size that the cache keeps
/// count of by exactly the difference of the two lengths, not by the new
/// length alone. Left out are the inputs on which it does
/// not hold: a new value over the ceiling, which is not cached, and one that
/// forces other entries out.
pub proof fn lemma_overwrite_size(c: DiskvCache, k: Seq<char>, old_v: Seq<u8>, new_v: Seq<u8>)
    requires
        c.wf(),
        lookup(c@, k) == Some(old_v),
        new_v.len() <= c.max(),
        total(c@) - old_v.len() + new_v.len() <= c.max(),
    ensures
        total(after_put(c@, c.max(), k, new_v)) == c.size() - old_v.len() + new_v.len(),
{
    let r = remove_key(c@, k);
    let room = (c.max() - new_v.len()) as nat;
    lemma_total_remove(c@, key_index(c@, k));
    assert(evict_count(r, room) == 0);
    assert(r.skip(0) =~= r);
    lemma_total_push(r, (k, new_v));
}

/// Eviction frees only as much as needed: after a put of `v` the size is
/// within the ceiling, keeping the last evicted entry would have left too
/// little room, and every evicted key misses the cache yet still reads
/// through to its value in the persistent store.
pub proof fn lemma_eviction_minimal(
    c: DiskvCache,
    disk: Map<Seq<char>, Seq<u8>>,
    k: Seq<char>,
    v: Seq<u8>,
)
    requires
        c.wf(),
        v.len() <= c.max(),
    ensures
        total(after_put(c@, c.max(), k, v)) <= c.max(),
        evict_count(remove_key(c@, k), (c.max() - v.len()) as nat) > 0 ==> total(
            remove_key(c@, k).skip(evict_count(remove_key(c@, k), (c.max() - v.len()) as nat) - 1),
        ) + v.len() > c.max(),
        forall|i: int|
            0 <= i < evict_count(remove_key(c@, k), (c.max() - v.len()) as nat) ==> {
                let gone = (#[trigger] remove_key(c@, k)[i]).0;
                &&& lookup(after_put(c@, c.max(), k, v), gone) is None
                &&& read_through(after_put(c@, c.max(), k, v), disk.insert(k, v), gone) == stored(
                    disk,
                    gone,
                )
            },
{
    let r = remove_key(c@, k);
    let room = (c.max() - v.len()) as nat;
    let n = evict_count(r, room);
    let after = after_put(c@, c.max(), k, v);
    lemma_remove_key(c@, k);
    lemma_evict_count_bound(r, room);
    lemma_evict_count_fits(r, room);
    lemma_total_push(r.skip(n as int), (k, v));
    if n > 0 {
        lemma_evict_count_least(r, room);
    }
    assert forall|i: int| 0 <= i < n implies {
        let gone = (#[trigger] r[i]).0;
        &&& lookup(after, gone) is None
        &&& read_through(after, disk.insert(k, v), gone) == stored(disk, gone)
    } by {
        let gone = r[i].0;
        let s = r.skip(n as int);
        assert(gone != k);
        if has_key(s, gone) {
            let j = key_index(s, gone);
            assert(s[j] == r[j + n]);
        }
        lemma_push_other(s, gone, (k, v));
        assert(disk.insert(k, v).dom().contains(gone) == disk.dom().contains(gone));
    }
}

} // verus!
