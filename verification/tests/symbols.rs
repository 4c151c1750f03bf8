use friday::id::NameTable;
use friday::ir::Sign;
use friday::refs::{ConsRef, DeclRef};
use friday::storage::RefCounter;
use friday::symbol::SymbolTable;

#[test]
fn equal_shapes_share_one_overload_bucket() {
    let mut names = NameTable::new();
    let f = names.make_ident("f");
    let mut counter: RefCounter<friday::refs::Decl> = RefCounter::new();
    let d1: DeclRef = counter.make_ref();
    let d2: DeclRef = counter.make_ref();
    let mut table = SymbolTable::new();
    // `f _` twice: one bucket, discovery order kept
    table.new_decl(d1, vec![Sign::Word(f), Sign::Patn(())]);
    table.new_decl(d2, vec![Sign::Word(f), Sign::Patn(())]);
    let bucket = table.lookup_decl(&vec![Sign::Word(f), Sign::Patn(())]);
    assert_eq!(bucket.len(), 2);
    assert_eq!(bucket[0].index(), d1.index());
    assert_eq!(bucket[1].index(), d2.index());
}

#[test]
fn different_shapes_get_different_buckets() {
    let mut names = NameTable::new();
    let f = names.make_ident("f");
    let g = names.make_ident("g");
    let mut counter: RefCounter<friday::refs::Decl> = RefCounter::new();
    let d1: DeclRef = counter.make_ref();
    let d2: DeclRef = counter.make_ref();
    let mut table = SymbolTable::new();
    table.new_decl(d1, vec![Sign::Word(f)]);
    table.new_decl(d2, vec![Sign::Word(g), Sign::Patn(())]);
    assert_eq!(table.lookup_decl(&vec![Sign::Word(f)]).len(), 1);
    assert_eq!(table.lookup_decl(&vec![Sign::Word(g), Sign::Patn(())]).len(), 1);
    // an unused shape has an empty bucket, never an error
    assert_eq!(table.lookup_decl(&vec![Sign::Word(g)]).len(), 0);
    let all = table.iter_decl();
    assert_eq!(all.len(), 2);
}

#[test]
fn constructor_index_is_separate() {
    let mut names = NameTable::new();
    let pair = names.make_ident("pair");
    let mut counter: RefCounter<friday::refs::Cons> = RefCounter::new();
    let c1: ConsRef = counter.make_ref();
    let mut table = SymbolTable::new();
    table.new_cons(c1, vec![Sign::Word(pair), Sign::Patn(()), Sign::Patn(())]);
    assert_eq!(table.lookup_cons(&vec![Sign::Word(pair), Sign::Patn(()), Sign::Patn(())]).len(), 1);
    assert_eq!(table.lookup_decl(&vec![Sign::Word(pair), Sign::Patn(()), Sign::Patn(())]).len(), 0);
    assert_eq!(table.iter_cons().len(), 1);
    assert_eq!(table.iter_decl().len(), 0);
}

#[test]
fn enumeration_follows_overall_registration_order() {
    let mut names = NameTable::new();
    let a = names.make_ident("a");
    let b = names.make_ident("b");
    let mut counter: RefCounter<friday::refs::Decl> = RefCounter::new();
    let d0: DeclRef = counter.make_ref();
    let d1: DeclRef = counter.make_ref();
    let d2: DeclRef = counter.make_ref();
    let mut table = SymbolTable::new();
    // shapes interleave: a, b, a — enumeration must stay 0, 1, 2
    table.new_decl(d0, vec![Sign::Word(a)]);
    table.new_decl(d1, vec![Sign::Word(b)]);
    table.new_decl(d2, vec![Sign::Word(a)]);
    let all = table.iter_decl();
    assert_eq!(all.len(), 3);
    assert_eq!(all[0].index(), 0);
    assert_eq!(all[1].index(), 1);
    assert_eq!(all[2].index(), 2);
    // the shared shape still keeps one bucket in registration order
    let bucket = table.lookup_decl(&vec![Sign::Word(a)]);
    assert_eq!(bucket.len(), 2);
    assert_eq!(bucket[0].index(), 0);
    assert_eq!(bucket[1].index(), 2);
}
