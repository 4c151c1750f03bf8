use friday::ast::{Decl, Ident, Modl, ModlPath};
use friday::ctx::Context;
use friday::error::FridayError;
use friday::ir;
use friday::ir::{ModlAlias, ModlRecord};
use friday::phases::{process_aliases, process_file, resolve_alias_path, resolve_alias_target};

fn named(path: &[&str], absolute: bool) -> Box<Modl> {
    Box::new(Modl::Named(ModlPath {
        path: path.iter().map(|s| Ident(s.to_string())).collect(),
        absolute,
    }))
}

#[test]
fn alias_chains_compress_to_one_hop() {
    // mod a = mod end; mod b = a; mod c = b
    let decls = vec![
        Decl::Mod(Ident("a".to_string()), Box::new(Modl::ModExp(vec![]))),
        Decl::Mod(Ident("b".to_string()), named(&["a"], false)),
        Decl::Mod(Ident("c".to_string()), named(&["b"], false)),
    ];
    let mut ctx = Context::new();
    let m_ref = process_file(&mut ctx, "m.fri", decls).expect("m.fri loads");
    let errors = process_aliases(&mut ctx);
    assert_eq!(errors.len(), 0);

    let a_id = ctx.names.get_ident("a").unwrap();
    let b_id = ctx.names.get_ident("b").unwrap();
    let c_id = ctx.names.get_ident("c").unwrap();
    let (a_ref, b_ref, c_ref) = match ctx.ir.modl.get(m_ref).unwrap() {
        ir::Modl::Record(rec) => (
            rec.child(a_id).unwrap(),
            rec.child(b_id).unwrap(),
            rec.child(c_id).unwrap(),
        ),
        ir::Modl::Alias(_) => panic!("m must be a record"),
    };
    // both aliases point directly at the record `a`: never at another alias
    for alias_ref in [b_ref, c_ref] {
        match ctx.ir.modl.get(alias_ref).unwrap() {
            ir::Modl::Alias(al) => {
                let target = al.aliased.expect("resolved");
                assert_eq!(target.index(), a_ref.index());
                assert!(matches!(ctx.ir.modl.get(target).unwrap(), ir::Modl::Record(_)));
            },
            ir::Modl::Record(_) => panic!("b and c must be aliases"),
        }
    }
}

#[test]
fn alias_cycle_fails_with_self_referential_error() {
    // mod x = y; mod y = x
    let decls = vec![
        Decl::Mod(Ident("x".to_string()), named(&["y"], false)),
        Decl::Mod(Ident("y".to_string()), named(&["x"], false)),
    ];
    let mut ctx = Context::new();
    let _ = process_file(&mut ctx, "m.fri", decls).expect("m.fri loads");
    let errors = process_aliases(&mut ctx);
    assert_eq!(errors.len(), 2);
    for (_, e) in &errors {
        match e {
            FridayError::UnresolvableModulePath(msg) => {
                assert!(msg.contains("self referential"));
            },
            _ => panic!("a cycle is an unresolvable path"),
        }
    }
}

#[test]
fn unresolvable_path_is_reported_per_alias() {
    // mod ok = mod end; mod bad = nothing
    let decls = vec![
        Decl::Mod(Ident("ok".to_string()), Box::new(Modl::ModExp(vec![]))),
        Decl::Mod(Ident("bad".to_string()), named(&["nothing"], false)),
    ];
    let mut ctx = Context::new();
    let m_ref = process_file(&mut ctx, "m.fri", decls).expect("m.fri loads");
    let errors = process_aliases(&mut ctx);
    // the failure is per alias: exactly one report, and the rest of the
    // module graph is intact
    assert_eq!(errors.len(), 1);
    assert!(matches!(errors[0].1, FridayError::UnresolvableModulePath(_)));
    let ok_id = ctx.names.get_ident("ok").unwrap();
    match ctx.ir.modl.get(m_ref).unwrap() {
        ir::Modl::Record(rec) => assert!(rec.child(ok_id).is_some()),
        ir::Modl::Alias(_) => panic!("m must be a record"),
    }
}

#[test]
fn scope_precedence_takes_the_first_entry_in_scope_order() {
    // Global and Outer both define a child `x`; a module M has
    // scope = [Global, Outer]. An alias `x` written in M must resolve via
    // Global, the first scope entry that contains the name.
    let mut ctx = Context::new();
    let global = ctx.global_modl();
    let x_id = ctx.names.make_ident("x");

    let gx = ctx.refs.modl.make_ref();
    ctx.ir.modl.set(gx, ir::Modl::new("gx".to_string()));
    let ox = ctx.refs.modl.make_ref();
    ctx.ir.modl.set(ox, ir::Modl::new("ox".to_string()));

    match ctx.ir.modl.get_mut(global).unwrap() {
        ir::Modl::Record(g) => g.insert_child(x_id, gx),
        ir::Modl::Alias(_) => panic!("global must be a record"),
    }

    let outer = ctx.refs.modl.make_ref();
    let mut outer_rec = ModlRecord::new("outer".to_string());
    outer_rec.scope.push(global);
    outer_rec.insert_child(x_id, ox);
    ctx.ir.modl.set(outer, ir::Modl::Record(outer_rec));

    let m = ctx.refs.modl.make_ref();
    let mut m_rec = ModlRecord::new("m".to_string());
    m_rec.scope.push(global);
    m_rec.scope.push(outer);
    ctx.ir.modl.set(m, ir::Modl::Record(m_rec));

    let alias = ctx.refs.modl.make_ref();
    ctx.ir.modl.set(
        alias,
        ir::Modl::Alias(ModlAlias {
            name: "m.x".to_string(),
            scope: m,
            aliased: None,
            path: vec![x_id],
        }),
    );

    let target = resolve_alias_path(&mut ctx, alias).expect("x resolves");
    assert_eq!(target.index(), gx.index());

    // with the scope order flipped, the other entry wins
    let mut ctx2 = Context::new();
    let global2 = ctx2.global_modl();
    let x2 = ctx2.names.make_ident("x");
    let gx2 = ctx2.refs.modl.make_ref();
    ctx2.ir.modl.set(gx2, ir::Modl::new("gx".to_string()));
    let ox2 = ctx2.refs.modl.make_ref();
    ctx2.ir.modl.set(ox2, ir::Modl::new("ox".to_string()));
    match ctx2.ir.modl.get_mut(global2).unwrap() {
        ir::Modl::Record(g) => g.insert_child(x2, gx2),
        ir::Modl::Alias(_) => panic!("global must be a record"),
    }
    let outer2 = ctx2.refs.modl.make_ref();
    let mut outer_rec2 = ModlRecord::new("outer".to_string());
    outer_rec2.scope.push(global2);
    outer_rec2.insert_child(x2, ox2);
    ctx2.ir.modl.set(outer2, ir::Modl::Record(outer_rec2));
    let m2 = ctx2.refs.modl.make_ref();
    let mut m_rec2 = ModlRecord::new("m".to_string());
    m_rec2.scope.push(outer2);
    m_rec2.scope.push(global2);
    ctx2.ir.modl.set(m2, ir::Modl::Record(m_rec2));
    let alias2 = ctx2.refs.modl.make_ref();
    ctx2.ir.modl.set(
        alias2,
        ir::Modl::Alias(ModlAlias {
            name: "m.x".to_string(),
            scope: m2,
            aliased: None,
            path: vec![x2],
        }),
    );
    let target2 = resolve_alias_path(&mut ctx2, alias2).expect("x resolves");
    assert_eq!(target2.index(), ox2.index());
}

#[test]
fn scope_chains_reach_enclosing_modules_transitively() {
    // mod target = mod end
    // mod outer = mod mod inner = mod mod deep = target end end end
    // `deep` is two modules below the file, where `target` lives: the
    // candidate scope walks the enclosing chain all the way up.
    let decls = vec![
        Decl::Mod(Ident("target".to_string()), Box::new(Modl::ModExp(vec![]))),
        Decl::Mod(
            Ident("outer".to_string()),
            Box::new(Modl::ModExp(vec![Decl::Mod(
                Ident("inner".to_string()),
                Box::new(Modl::ModExp(vec![Decl::Mod(
                    Ident("deep".to_string()),
                    named(&["target"], false),
                )])),
            )])),
        ),
    ];
    let mut ctx = Context::new();
    let m_ref = process_file(&mut ctx, "m.fri", decls).expect("m.fri loads");
    let errors = process_aliases(&mut ctx);
    assert_eq!(errors.len(), 0);

    let target_ref = match ctx.ir.modl.get(m_ref).unwrap() {
        ir::Modl::Record(rec) => rec.child(ctx.names.get_ident("target").unwrap()).unwrap(),
        ir::Modl::Alias(_) => panic!("m must be a record"),
    };
    let outer_ref = match ctx.ir.modl.get(m_ref).unwrap() {
        ir::Modl::Record(rec) => rec.child(ctx.names.get_ident("outer").unwrap()).unwrap(),
        ir::Modl::Alias(_) => panic!("m must be a record"),
    };
    let inner_ref = match ctx.ir.modl.get(outer_ref).unwrap() {
        ir::Modl::Record(rec) => rec.child(ctx.names.get_ident("inner").unwrap()).unwrap(),
        ir::Modl::Alias(_) => panic!("outer must be a record"),
    };
    let deep_ref = match ctx.ir.modl.get(inner_ref).unwrap() {
        ir::Modl::Record(rec) => rec.child(ctx.names.get_ident("deep").unwrap()).unwrap(),
        ir::Modl::Alias(_) => panic!("inner must be a record"),
    };
    match ctx.ir.modl.get(deep_ref).unwrap() {
        ir::Modl::Alias(al) => assert_eq!(al.aliased.unwrap().index(), target_ref.index()),
        ir::Modl::Record(_) => panic!("deep must be an alias"),
    }
}

#[test]
fn resolving_twice_is_idempotent() {
    let decls = vec![
        Decl::Mod(Ident("a".to_string()), Box::new(Modl::ModExp(vec![]))),
        Decl::Mod(Ident("b".to_string()), named(&["a"], false)),
    ];
    let mut ctx = Context::new();
    let m_ref = process_file(&mut ctx, "m.fri", decls).expect("m.fri loads");
    let b_alias = match ctx.ir.modl.get(m_ref).unwrap() {
        ir::Modl::Record(rec) => rec.child(ctx.names.get_ident("b").unwrap()).unwrap(),
        ir::Modl::Alias(_) => panic!("m must be a record"),
    };
    let t1 = resolve_alias_path(&mut ctx, b_alias).expect("resolves");
    let t2 = resolve_alias_path(&mut ctx, b_alias).expect("still resolves");
    assert_eq!(t1.index(), t2.index());
    // a record is its own chase target
    let chased = resolve_alias_target(&ctx, t1).expect("record chases to itself");
    assert_eq!(chased.index(), t1.index());
}

#[test]
fn resolving_the_whole_program_twice_changes_nothing() {
    let decls = vec![
        Decl::Mod(Ident("a".to_string()), Box::new(Modl::ModExp(vec![]))),
        Decl::Mod(Ident("b".to_string()), named(&["a"], false)),
    ];
    let mut ctx = Context::new();
    let m_ref = process_file(&mut ctx, "m.fri", decls).expect("m.fri loads");
    assert_eq!(process_aliases(&mut ctx).len(), 0);
    let (a_ref, b_ref) = match ctx.ir.modl.get(m_ref).unwrap() {
        ir::Modl::Record(rec) => (
            rec.child(ctx.names.get_ident("a").unwrap()).unwrap(),
            rec.child(ctx.names.get_ident("b").unwrap()).unwrap(),
        ),
        ir::Modl::Alias(_) => panic!("m must be a record"),
    };
    // a second whole-program pass reports nothing and keeps every target
    assert_eq!(process_aliases(&mut ctx).len(), 0);
    match ctx.ir.modl.get(b_ref).unwrap() {
        ir::Modl::Alias(al) => assert_eq!(al.aliased.unwrap().index(), a_ref.index()),
        ir::Modl::Record(_) => panic!("b must be an alias"),
    }
}
