//! The store: a persistent store written through and read through a
//! size-bounded cache, which one reader-writer lock guards.
//!
//! The persistent store itself lies outside this library. Its caller performs
//! each persistent write, read or removal and hands the outcome to the
//! matching method here, which settles the cache and the result. The lock
//! covers the cache only: a persistent call is never made while it is held.
use vstd::prelude::*;
use vstd::rwlock::{RwLock, RwLockPredicate};
use crate::cache::DiskvCache;
use crate::cache::total;
use crate::error::{DiskvError, DiskvResult, is_not_found, not_found_of};

verus! {

/// Where the persistent store keeps its blobs, and how many bytes of values
/// the cache may hold.
pub struct Options {
    pub base_path: String,
    pub cache_size_max: u32,
}

/// A cache that the lock may hold: well-formed, with ceiling `max`.
pub open spec fn guarded(c: DiskvCache, max: nat) -> bool {
    c.wf() && c.max() == max
}

/// What the lock keeps true of the cache at every moment: it is well-formed
/// and has the configured ceiling.
pub struct CacheLimit {
    pub max: u32,
}

impl RwLockPredicate<DiskvCache> for CacheLimit {
    open spec fn inv(self, c: DiskvCache) -> bool {
        guarded(c, self.max as nat)
    }
}

/// The cache stays within its ceiling at every moment, whatever the
/// interleaving of any number of threads working on one store. Each operation
/// of `Diskv` takes the lock before it reads or changes the cache, and can
/// hand the cache back only in a state that is `guarded` (the lock's release
/// demands it), so every cache that the lock holds or hands out is one of
/// these: its kept size is exactly the bytes of its values, at most the
/// ceiling, and so is every single value. Changes run one at a time under
/// the exclusive lock, so none of them loses another's size update.
pub proof fn lemma_guarded_within_ceiling(c: DiskvCache, max: nat)
    requires
        guarded(c, max),
    ensures
        c.size() == total(c@),
        total(c@) <= max,
        forall|i: int| 0 <= i < c@.len() ==> (#[trigger] c@[i]).1.len() <= max,
{
    c.lemma_within_ceiling(Seq::empty());
}

/// Persistent key/value store with a size-bounded cache. Reads that hit the
/// cache share the lock; cache updates take it alone.
pub struct Diskv {
    options: Options,
    cache: RwLock<DiskvCache, CacheLimit>,
}

impl Diskv {
    #[verifier::type_invariant]
    spec fn lock_keeps_limit(&self) -> bool {
        self.cache.pred() == CacheLimit { max: self.options.cache_size_max }
    }

    /// The configured ceiling of the cache.
    pub closed spec fn cache_size_max(&self) -> nat {
        self.options.cache_size_max as nat
    }

    /// The configured root of the persistent store.
    pub closed spec fn base_path_view(&self) -> Seq<char> {
        self.options.base_path@
    }

    /// A store with an empty cache.
    pub fn new(options: Options) -> (r: Diskv)
        ensures
            r.cache_size_max() == options.cache_size_max,
            r.base_path_view() == options.base_path@,
    {
        let max = options.cache_size_max;
        let cache = RwLock::new(DiskvCache::new(max), Ghost(CacheLimit { max }));
        Diskv { options, cache }
    }

    /// The root under which the persistent store keeps each key's blob.
    pub fn base_path(&self) -> (r: &String)
        ensures
            r@ == self.base_path_view(),
    {
        &self.options.base_path
    }

    /// Records a persistent write of `val` under `key`: where it succeeded,
    /// the cache takes the value (a value over the ceiling is left out, which
    /// is no failure); where it failed, the cache is left alone and the
    /// failure returned.
    pub fn put(&self, key: &String, val: Vec<u8>, stored: Result<(), std::io::Error>) -> (r:
        DiskvResult<()>)
        ensures
            stored is Ok ==> r is Ok,
            stored matches Err(e) ==> r == Err::<(), DiskvError>(DiskvError::IOError(e)),
    {
        match stored {
            Ok(()) => {
                proof {
                    use_type_invariant(self);
                }
                let (mut c, handle) = self.cache.acquire_write();
                c.put(key, val);
                handle.release_write(c);
                Ok(())
            },
            Err(e) => Err(DiskvError::IOError(e)),
        }
    }

    /// Looks `key` up in the cache alone, under the shared lock. A value found
    /// there is within the ceiling.
    pub fn try_get(&self, key: &String) -> (r: DiskvResult<Option<Vec<u8>>>)
        ensures
            r is Ok,
            r matches Ok(Some(v)) ==> v@.len() <= self.cache_size_max(),
    {
        proof {
            use_type_invariant(self);
        }
        let handle = self.cache.acquire_read();
        let c = handle.borrow();
        let found = c.get(key);
        proof {
            c.lemma_within_ceiling(key@);
        }
        handle.release_read();
        Ok(found)
    }

    /// Settles a read of `key` that missed the cache, given what the
    /// persistent store returned: a value found there is cached and
    /// returned; a missing key gives `None`; any other failure is returned.
    /// The value is cached only: it is not written back to the persistent
    /// store, which already holds it.
    pub fn get(&self, key: &String, read: Result<Vec<u8>, std::io::Error>) -> (r: DiskvResult<
        Option<Vec<u8>>,
    >)
        ensures
            read matches Ok(v) ==> r matches Ok(Some(w)) && w@ == v@,
            read matches Err(e) ==> (if not_found_of(e) {
                r matches Ok(None)
            } else {
                r == Err::<Option<Vec<u8>>, DiskvError>(DiskvError::IOError(e))
            }),
    {
        match read {
            Ok(v) => {
                let cached = v.clone();
                proof {
                    assert(cached@ =~= v@);
                }
                let _ = self.put(key, cached, Ok(()));
                Ok(Some(v))
            },
            Err(e) => {
                if is_not_found(&e) {
                    Ok(None)
                } else {
                    Err(DiskvError::IOError(e))
                }
            },
        }
    }

    /// Records a persistent removal of `key`: where it succeeded, or the key
    /// was not there, the cache drops `key` and the removal succeeds; any
    /// other failure is returned and the cache left alone.
    pub fn delete(&self, key: &String, removed: Result<(), std::io::Error>) -> (r: DiskvResult<()>)
        ensures
            removed is Ok ==> r is Ok,
            removed matches Err(e) ==> (if not_found_of(e) {
                r is Ok
            } else {
                r == Err::<(), DiskvError>(DiskvError::IOError(e))
            }),
    {
        match removed {
            Ok(()) => {},
            Err(e) => {
                if !is_not_found(&e) {
                    return Err(DiskvError::IOError(e));
                }
            },
        }
        proof {
            use_type_invariant(self);
        }
        let (mut c, handle) = self.cache.acquire_write();
        c.delete(key);
        handle.release_write(c);
        Ok(())
    }
}

} // verus!
