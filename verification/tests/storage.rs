use friday::refs::{DeclRef, ModlRef};
use friday::storage::{RefCounter, RefCounterIter, VecStorage};

#[test]
fn handles_strictly_increase_from_zero() {
    let mut counter: RefCounter<friday::refs::Modl> = RefCounter::new();
    let a: ModlRef = counter.make_ref();
    let b: ModlRef = counter.make_ref();
    let c: ModlRef = counter.make_ref();
    assert_eq!(a.index(), 0);
    assert_eq!(b.index(), 1);
    assert_eq!(c.index(), 2);
    assert!(a.index() < b.index() && b.index() < c.index());
    assert!(a != b && b != c && a != c);
}

#[test]
fn counter_iter_walks_issued_handles() {
    let mut counter: RefCounter<friday::refs::Decl> = RefCounter::new();
    let _ = counter.make_ref();
    let _ = counter.make_ref();
    let mut it: RefCounterIter<friday::refs::Decl> = RefCounterIter::new(&counter);
    let first = it.next().expect("two handles were issued");
    let second = it.next().expect("two handles were issued");
    assert_eq!(first.index(), 0);
    assert_eq!(second.index(), 1);
    assert!(it.next().is_none());
}

#[test]
fn storage_lookup_returns_last_write() {
    let mut storage: VecStorage<friday::refs::Decl, u64> = VecStorage::new();
    let mut counter: RefCounter<friday::refs::Decl> = RefCounter::new();
    let h: DeclRef = counter.make_ref();
    let h2: DeclRef = counter.make_ref();
    storage.set(h, 10);
    storage.set(h2, 20);
    assert_eq!(*storage.get(h).unwrap(), 10);
    storage.set(h, 11);
    assert_eq!(*storage.get(h).unwrap(), 11);
    // no other handle's slot is affected
    assert_eq!(*storage.get(h2).unwrap(), 20);
}

#[test]
fn storage_grows_with_empty_gaps() {
    let mut storage: VecStorage<friday::refs::Modl, u64> = VecStorage::new();
    let mut counter: RefCounter<friday::refs::Modl> = RefCounter::new();
    let _h0 = counter.make_ref();
    let _h1 = counter.make_ref();
    let _h2 = counter.make_ref();
    let h3: ModlRef = counter.make_ref();
    storage.set(h3, 33);
    assert_eq!(storage.len(), 4);
    assert!(storage.get(_h1).is_none());
    assert_eq!(*storage.get(h3).unwrap(), 33);
    // a handle past the backing array is simply absent
    let h4 = counter.make_ref();
    assert!(storage.get(h4).is_none());
    // mutate in place through get_mut
    if let Some(v) = storage.get_mut(h3) {
        *v = 34;
    }
    assert_eq!(*storage.get(h3).unwrap(), 34);
}

#[test]
fn keyed_storage_replaces_on_repeated_key() {
    let mut storage: friday::storage::HashStorage<friday::refs::Modl, u64> =
        friday::storage::HashStorage::new();
    let mut counter: RefCounter<friday::refs::Modl> = RefCounter::new();
    let h: ModlRef = counter.make_ref();
    let h2: ModlRef = counter.make_ref();
    assert!(storage.get(h).is_none());
    storage.set(h, 7);
    storage.set(h2, 8);
    assert_eq!(*storage.get(h).unwrap(), 7);
    storage.set(h, 9);
    assert_eq!(*storage.get(h).unwrap(), 9);
    assert_eq!(*storage.get(h2).unwrap(), 8);
    assert_eq!(storage.len(), 2);
}

#[test]
fn iteration_yields_populated_slots_ascending() {
    let mut storage: VecStorage<friday::refs::Modl, u64> = VecStorage::new();
    let mut counter: RefCounter<friday::refs::Modl> = RefCounter::new();
    let h0 = counter.make_ref();
    let _h1 = counter.make_ref();
    let h2 = counter.make_ref();
    storage.set(h2, 2);
    storage.set(h0, 0);
    let ks = storage.keys();
    assert_eq!(ks.len(), 2);
    assert_eq!(ks[0].index(), 0);
    assert_eq!(ks[1].index(), 2);
}
