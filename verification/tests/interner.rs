use friday::id::NameTable;

#[test]
fn interning_is_idempotent() {
    let mut names = NameTable::new();
    let a1 = names.make_ident("alpha");
    let a2 = names.make_ident("alpha");
    assert_eq!(a1.index(), a2.index());
    assert_eq!(names.len(), 1);
}

#[test]
fn distinct_texts_get_distinct_dense_ids() {
    let mut names = NameTable::new();
    let a = names.make_ident("alpha");
    let b = names.make_ident("beta");
    let c = names.make_ident("gamma");
    assert_eq!(a.index(), 0);
    assert_eq!(b.index(), 1);
    assert_eq!(c.index(), 2);
    let b2 = names.make_ident("beta");
    assert_eq!(b2.index(), 1);
    assert_eq!(names.len(), 3);
}

#[test]
fn lookup_finds_only_interned_texts() {
    let mut names = NameTable::new();
    assert!(names.get_ident("missing").is_none());
    let a = names.make_ident("present");
    assert_eq!(names.get_ident("present").unwrap().index(), a.index());
    assert_eq!(names.get(a), "present");
}
