use friday::ast::{Atom, Decl, Expr, Ident, Modl, ModlPath, Sign};
use friday::ctx::Context;
use friday::error::FridayError;
use friday::ir;
use friday::phases::{process_aliases, process_file, verify_file_path};

fn unit_body() -> Box<Expr> {
    Box::new(Expr::Flat(vec![Atom::Unit]))
}

#[test]
fn end_to_end_file_with_nested_module_and_import() {
    // file `a.fri`: mod b = mod def f = () end end; use .a.b
    let decls = vec![
        Decl::Mod(
            Ident("b".to_string()),
            Box::new(Modl::ModExp(vec![Decl::Def(
                vec![Sign::Word(Ident("f".to_string()))],
                unit_body(),
            )])),
        ),
        Decl::Use(Box::new(Modl::Named(ModlPath {
            path: vec![Ident("a".to_string()), Ident("b".to_string())],
            absolute: true,
        }))),
    ];
    let mut ctx = Context::new();
    let a_ref = process_file(&mut ctx, "a.fri", decls).expect("a.fri loads");
    assert_eq!(a_ref.index(), 1);

    // module `a` is registered under the global module by its stem
    let a_id = ctx.names.get_ident("a").expect("stem interned");
    let global = ctx.global_modl();
    let registered = match ctx.ir.modl.get(global).unwrap() {
        ir::Modl::Record(g) => g.child(a_id).expect("global child a"),
        ir::Modl::Alias(_) => panic!("global must be a record"),
    };
    assert_eq!(registered.index(), a_ref.index());

    // module `a` is a record with child `b`
    let b_id = ctx.names.get_ident("b").expect("b interned");
    let b_ref = match ctx.ir.modl.get(a_ref).unwrap() {
        ir::Modl::Record(a_rec) => {
            assert_eq!(a_rec.decls.len(), 0);
            a_rec.child(b_id).expect("a child b")
        },
        ir::Modl::Alias(_) => panic!("a must be a record"),
    };

    // module `a.b` is a record whose one declaration has signature [Word(f)]
    let f_id = ctx.names.get_ident("f").expect("f interned");
    match ctx.ir.modl.get(b_ref).unwrap() {
        ir::Modl::Record(b_rec) => {
            assert_eq!(b_rec.decls.len(), 1);
            let bucket = b_rec.symbols.lookup_decl(&vec![ir::Sign::Word(f_id)]);
            assert_eq!(bucket.len(), 1);
            assert_eq!(bucket[0].index(), b_rec.decls[0].index());
        },
        ir::Modl::Alias(_) => panic!("a.b must be a record"),
    }

    // the anonymous import resolves directly to a.b's handle
    let errors = process_aliases(&mut ctx);
    assert_eq!(errors.len(), 0);
    let anon_ref = friday::refs::Ref::from_index(3);
    match ctx.ir.modl.get(anon_ref).unwrap() {
        ir::Modl::Alias(anon) => {
            assert_eq!(anon.name, "a.<anon0>");
            let target = anon.aliased.expect("anonymous import resolved");
            assert_eq!(target.index(), b_ref.index());
            assert!(matches!(ctx.ir.modl.get(target).unwrap(), ir::Modl::Record(_)));
        },
        ir::Modl::Record(_) => panic!("the use must be an alias"),
    }

    // the named submodule carries the dotted diagnostic name
    match ctx.ir.modl.get(b_ref).unwrap() {
        ir::Modl::Record(b_rec) => assert_eq!(b_rec.name, "a.b"),
        ir::Modl::Alias(_) => panic!("a.b must be a record"),
    }
}

#[test]
fn rejected_filename_is_skipped_without_damage() {
    let mut ctx = Context::new();
    match process_file(&mut ctx, "foo.txt", vec![]) {
        Err(FridayError::InvalidFilename(p)) => assert_eq!(p, "foo.txt"),
        _ => panic!("foo.txt must fail with an invalid filename"),
    }
    // the run continues: the next file loads as if nothing happened
    let ok = process_file(&mut ctx, "a.fri", vec![]).expect("a.fri still loads");
    assert_eq!(ok.index(), 1);
    let errors = process_aliases(&mut ctx);
    assert_eq!(errors.len(), 0);
}

#[test]
fn filename_validation_follows_stem_and_extension() {
    assert_eq!(verify_file_path("foo.fri").unwrap(), "foo");
    assert_eq!(verify_file_path("dir/sub/foo.fri").unwrap(), "foo");
    assert_eq!(verify_file_path("a.b.fri").unwrap(), "a.b");
    assert!(matches!(verify_file_path(".fri"), Err(FridayError::InvalidFilename(_))));
    assert!(matches!(verify_file_path("foo"), Err(FridayError::InvalidFilename(_))));
    assert!(matches!(verify_file_path("foo.frx"), Err(FridayError::InvalidFilename(_))));
    assert!(matches!(verify_file_path("dir.fri/foo"), Err(FridayError::InvalidFilename(_))));
}

#[test]
fn duplicate_child_names_are_overwritten_last_wins() {
    let decls = vec![
        Decl::Mod(Ident("x".to_string()), Box::new(Modl::ModExp(vec![]))),
        Decl::Mod(Ident("x".to_string()), Box::new(Modl::ModExp(vec![]))),
    ];
    let mut ctx = Context::new();
    let m_ref = process_file(&mut ctx, "m.fri", decls).expect("m.fri loads");
    let x_id = ctx.names.get_ident("x").unwrap();
    match ctx.ir.modl.get(m_ref).unwrap() {
        ir::Modl::Record(rec) => {
            // the second `mod x` (handle 3) silently replaces the first (handle 2)
            assert_eq!(rec.child(x_id).unwrap().index(), 3);
        },
        ir::Modl::Alias(_) => panic!("m must be a record"),
    }
}

#[test]
fn empty_declaration_list_is_a_legal_module() {
    let decls = vec![Decl::Mod(Ident("empty".to_string()), Box::new(Modl::ModExp(vec![])))];
    let mut ctx = Context::new();
    let m_ref = process_file(&mut ctx, "m.fri", decls).expect("m.fri loads");
    let e_id = ctx.names.get_ident("empty").unwrap();
    let e_ref = match ctx.ir.modl.get(m_ref).unwrap() {
        ir::Modl::Record(rec) => rec.child(e_id).unwrap(),
        ir::Modl::Alias(_) => panic!("m must be a record"),
    };
    match ctx.ir.modl.get(e_ref).unwrap() {
        ir::Modl::Record(rec) => {
            assert_eq!(rec.decls.len(), 0);
            assert_eq!(rec.cons.len(), 0);
            assert_eq!(rec.children.len(), 0);
        },
        ir::Modl::Alias(_) => panic!("empty must be a record"),
    }
}

#[test]
fn declarations_are_registered_in_source_order() {
    // def f = (); let _ = (); con pair _ _
    let decls = vec![
        Decl::Def(vec![Sign::Word(Ident("f".to_string()))], unit_body()),
        Decl::Let(Box::new(friday::ast::Patn::Flat(vec![Atom::Hole])), unit_body()),
        Decl::Con(vec![
            Sign::Word(Ident("pair".to_string())),
            Sign::Patn(Box::new(friday::ast::Patn::Flat(vec![Atom::Hole]))),
            Sign::Patn(Box::new(friday::ast::Patn::Flat(vec![Atom::Hole]))),
        ]),
    ];
    let mut ctx = Context::new();
    let m_ref = process_file(&mut ctx, "m.fri", decls).expect("m.fri loads");
    match ctx.ir.modl.get(m_ref).unwrap() {
        ir::Modl::Record(rec) => {
            assert_eq!(rec.decls.len(), 2);
            assert_eq!(rec.decls[0].index(), 0);
            assert_eq!(rec.decls[1].index(), 1);
            assert_eq!(rec.cons.len(), 1);
            assert_eq!(rec.cons[0].index(), 0);
            let pair_id = ctx.names.get_ident("pair").unwrap();
            let bucket = rec.symbols.lookup_cons(
                &vec![ir::Sign::Word(pair_id), ir::Sign::Patn(()), ir::Sign::Patn(())],
            );
            assert_eq!(bucket.len(), 1);
            // the plain binding has no call shape: only the definition is indexed
            assert_eq!(rec.symbols.iter_decl().len(), 1);
        },
        ir::Modl::Alias(_) => panic!("m must be a record"),
    }
}
