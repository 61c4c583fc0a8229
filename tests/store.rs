use std::collections::HashMap;
use std::io;

use diskv::{Diskv, DiskvError, Options};

// A persistent store kept in memory, driven the way a caller drives the
// library: each persistent call first, then the matching store method.
struct MemDisk {
    blobs: HashMap<String, Vec<u8>>,
}

impl MemDisk {
    fn new() -> MemDisk {
        MemDisk { blobs: HashMap::new() }
    }

    fn put(&mut self, dkv: &Diskv, key: &String, val: Vec<u8>) -> Result<(), DiskvError> {
        self.blobs.insert(key.clone(), val.clone());
        dkv.put(key, val, Ok(()))
    }

    fn get(&self, dkv: &Diskv, key: &String) -> Result<Option<Vec<u8>>, DiskvError> {
        match dkv.try_get(key)? {
            Some(v) => Ok(Some(v)),
            None => {
                let read = match self.blobs.get(key) {
                    Some(v) => Ok(v.clone()),
                    None => Err(io::Error::from(io::ErrorKind::NotFound)),
                };
                dkv.get(key, read)
            }
        }
    }

    fn delete(&mut self, dkv: &Diskv, key: &String) -> Result<(), DiskvError> {
        let removed = match self.blobs.remove(key) {
            Some(_) => Ok(()),
            None => Err(io::Error::from(io::ErrorKind::NotFound)),
        };
        dkv.delete(key, removed)
    }
}

fn store(max: u32) -> Diskv {
    Diskv::new(Options { base_path: String::from("test_data"), cache_size_max: max })
}

fn failure() -> io::Error {
    io::Error::new(io::ErrorKind::PermissionDenied, "no access")
}

#[test]
fn diskv_get_put_get() {
    let mut disk = MemDisk::new();
    let dkv = store(12);

    let key1 = String::from("k1");
    let key2 = String::from("k2");

    disk.put(&dkv, &key2, String::from("aa").into_bytes()).unwrap();
    assert_eq!(String::from("aa").into_bytes(), disk.get(&dkv, &key2).unwrap().unwrap());

    // get
    assert!(disk.get(&dkv, &key1).unwrap().is_none());

    // put get
    disk.put(&dkv, &key1, String::from("0123456789").into_bytes()).unwrap();
    assert_eq!(
        String::from("0123456789").into_bytes(),
        disk.get(&dkv, &key1).unwrap().unwrap()
    );

    // put get
    disk.put(&dkv, &key1, String::from("1111111111").into_bytes()).unwrap();
    assert_eq!(
        String::from("1111111111").into_bytes(),
        disk.get(&dkv, &key1).unwrap().unwrap()
    );

    // delete get
    disk.delete(&dkv, &key1).unwrap();
    assert!(disk.get(&dkv, &key1).unwrap().is_none());

    assert_eq!(String::from("aa").into_bytes(), disk.get(&dkv, &key2).unwrap().unwrap());
}

#[test]
fn store_new_keeps_base_path() {
    let dkv = store(4);
    assert_eq!(&String::from("test_data"), dkv.base_path());
}

#[test]
fn store_put_then_get_hits_cache() {
    let mut disk = MemDisk::new();
    let dkv = store(10);
    let k = String::from("k");
    disk.put(&dkv, &k, vec![5, 6, 7]).unwrap();
    assert_eq!(Some(vec![5, 6, 7]), dkv.try_get(&k).unwrap());
    assert_eq!(Some(vec![5, 6, 7]), disk.get(&dkv, &k).unwrap());
}

#[test]
fn store_evicted_keys_read_through() {
    let mut disk = MemDisk::new();
    let dkv = store(10);
    let k1 = String::from("k1");
    let k2 = String::from("k2");
    let k3 = String::from("k3");
    disk.put(&dkv, &k1, String::from("0123456").into_bytes()).unwrap();
    disk.put(&dkv, &k2, String::from("789").into_bytes()).unwrap();
    assert_eq!(Some(String::from("789").into_bytes()), dkv.try_get(&k2).unwrap());
    disk.put(&dkv, &k3, String::from("abcdabcd").into_bytes()).unwrap();
    assert_eq!(Some(String::from("abcdabcd").into_bytes()), dkv.try_get(&k3).unwrap());
    assert!(dkv.try_get(&k1).unwrap().is_none() || dkv.try_get(&k2).unwrap().is_none());
    assert_eq!(Some(String::from("0123456").into_bytes()), disk.get(&dkv, &k1).unwrap());
    assert_eq!(Some(String::from("789").into_bytes()), disk.get(&dkv, &k2).unwrap());
}

#[test]
fn store_oversized_put_keeps_cached_value() {
    let mut disk = MemDisk::new();
    let dkv = store(10);
    let k1 = String::from("k1");
    disk.put(&dkv, &k1, String::from("abcdpqrsxy").into_bytes()).unwrap();
    assert_eq!(Some(String::from("abcdpqrsxy").into_bytes()), dkv.try_get(&k1).unwrap());
    disk.put(&dkv, &k1, String::from("abcdpqrsxyz").into_bytes()).unwrap();
    // the persistent store took the new value, the cache kept the old one
    assert_eq!(Some(&String::from("abcdpqrsxyz").into_bytes()), disk.blobs.get(&k1));
    assert_eq!(Some(String::from("abcdpqrsxy").into_bytes()), disk.get(&dkv, &k1).unwrap());
    disk.delete(&dkv, &k1).unwrap();
    assert_eq!(None, disk.get(&dkv, &k1).unwrap());
}

#[test]
fn store_deleted_key_stays_absent() {
    let mut disk = MemDisk::new();
    let dkv = store(8);
    let k = String::from("k");
    let other = String::from("other");
    disk.put(&dkv, &k, vec![1]).unwrap();
    disk.delete(&dkv, &k).unwrap();
    assert_eq!(None, disk.get(&dkv, &k).unwrap());
    disk.put(&dkv, &other, vec![2, 2]).unwrap();
    assert_eq!(Some(vec![2, 2]), disk.get(&dkv, &other).unwrap());
    disk.delete(&dkv, &other).unwrap();
    assert_eq!(None, disk.get(&dkv, &k).unwrap());
    disk.put(&dkv, &k, vec![3]).unwrap();
    assert_eq!(Some(vec![3]), disk.get(&dkv, &k).unwrap());
}

#[test]
fn store_get_miss_populates_cache() {
    let dkv = store(8);
    let k = String::from("k");
    assert_eq!(None, dkv.try_get(&k).unwrap());
    assert_eq!(Some(vec![4, 2]), dkv.get(&k, Ok(vec![4, 2])).unwrap());
    assert_eq!(Some(vec![4, 2]), dkv.try_get(&k).unwrap());
}

#[test]
fn store_get_missing_key_is_none() {
    let dkv = store(8);
    let k = String::from("k");
    let r = dkv.get(&k, Err(io::Error::from(io::ErrorKind::NotFound)));
    assert!(matches!(r, Ok(None)));
}

#[test]
fn store_get_failure_is_returned() {
    let dkv = store(8);
    let k = String::from("k");
    let r = dkv.get(&k, Err(failure()));
    match r {
        Err(DiskvError::IOError(e)) => assert_eq!(io::ErrorKind::PermissionDenied, e.kind()),
        _ => panic!("expected the read failure"),
    }
    assert_eq!(None, dkv.try_get(&k).unwrap());
}

#[test]
fn store_failed_put_leaves_cache() {
    let dkv = store(8);
    let k = String::from("k");
    dkv.put(&k, vec![1], Ok(())).unwrap();
    let r = dkv.put(&k, vec![2], Err(failure()));
    match r {
        Err(DiskvError::IOError(e)) => assert_eq!(io::ErrorKind::PermissionDenied, e.kind()),
        _ => panic!("expected the write failure"),
    }
    assert_eq!(Some(vec![1]), dkv.try_get(&k).unwrap());
}

#[test]
fn store_delete_of_missing_key_evicts_and_succeeds() {
    let dkv = store(8);
    let k = String::from("k");
    dkv.put(&k, vec![1], Ok(())).unwrap();
    assert!(dkv.delete(&k, Err(io::Error::from(io::ErrorKind::NotFound))).is_ok());
    assert_eq!(None, dkv.try_get(&k).unwrap());
}

#[test]
fn store_failed_delete_leaves_cache() {
    let dkv = store(8);
    let k = String::from("k");
    dkv.put(&k, vec![1], Ok(())).unwrap();
    let r = dkv.delete(&k, Err(failure()));
    assert!(matches!(r, Err(DiskvError::IOError(_))));
    assert_eq!(Some(vec![1]), dkv.try_get(&k).unwrap());
}

#[test]
fn store_error_from_io_error() {
    let e = DiskvError::from(failure());
    match e {
        DiskvError::IOError(inner) => assert_eq!(io::ErrorKind::PermissionDenied, inner.kind()),
    }
}

#[test]
fn store_disjoint_workers_interleaved() {
    let mut disk = MemDisk::new();
    let dkv = store(16);
    let a: Vec<String> = vec![String::from("a0"), String::from("a1"), String::from("a2")];
    let b: Vec<String> = vec![String::from("b0"), String::from("b1"), String::from("b2")];
    for i in 0..3 {
        disk.put(&dkv, &a[i], format!("value {}", a[i]).into_bytes()).unwrap();
        disk.put(&dkv, &b[i], format!("value {}", b[i]).into_bytes()).unwrap();
    }
    for i in 0..3 {
        assert_eq!(Some(format!("value {}", a[i]).into_bytes()), disk.get(&dkv, &a[i]).unwrap());
        disk.delete(&dkv, &b[i]).unwrap();
    }
    for i in 0..3 {
        assert_eq!(Some(format!("value {}", a[i]).into_bytes()), disk.get(&dkv, &a[i]).unwrap());
        assert_eq!(None, disk.get(&dkv, &b[i]).unwrap());
    }
}


#[test]
fn store_delete_twice_succeeds_both_times() {
    let mut disk = MemDisk::new();
    let dkv = store(8);
    let k = String::from("k");
    disk.put(&dkv, &k, vec![1, 2]).unwrap();
    assert!(disk.delete(&dkv, &k).is_ok());
    assert!(disk.delete(&dkv, &k).is_ok());
    assert_eq!(None, dkv.try_get(&k).unwrap());
    assert_eq!(None, disk.get(&dkv, &k).unwrap());
}
