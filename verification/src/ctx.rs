//! The compilation context: one interner, one handle counter per kind, and
//! the raw-syntax and lowered storages, shared by every pass of one
//! compilation. The global module is created once, is always a record, and
//! roots the scope chain of every file's module.

use vstd::prelude::*;

use crate::ast::AstStorage;
use crate::id::NameTable;
use crate::ir::{IrStorage, Modl};
use crate::refs::{IdCounter, ModlRef};

verus! {

/// Module `i` of `ir` is populated, with a record.
pub open spec fn is_record(ir: Seq<Option<Modl>>, i: int) -> bool {
    0 <= i < ir.len() && ir[i] is Some && ir[i].unwrap() is Record
}

/// Module `i` of `ir` is populated, with an alias.
pub open spec fn is_alias(ir: Seq<Option<Modl>>, i: int) -> bool {
    0 <= i < ir.len() && ir[i] is Some && ir[i].unwrap() is Alias
}

/// What must hold of a populated module entry at index `i`, given the module
/// counter `n_modl` and the declaration and constructor counters: a record's
/// scope entries point at populated records with strictly smaller handles
/// (handles are issued parents-first, so scope chains descend), its other
/// handles have been issued, and its internal tables are well formed; an
/// alias's defining scope is a populated record below it, its path has at
/// least one segment, and its target, once set, is an issued handle.
pub open spec fn modl_entry_wf(
    ir: Seq<Option<Modl>>,
    i: int,
    n_modl: nat,
    n_decl: nat,
    n_cons: nat,
) -> bool {
    match ir[i] {
        Some(m) => match m {
            Modl::Record(r) => {
                &&& r.wf()
                &&& forall|k: int|
                    0 <= k < r.scope@.len() ==> (#[trigger] r.scope@[k])@ < i && is_record(
                        ir,
                        r.scope@[k]@ as int,
                    )
                &&& forall|k: int|
                    0 <= k < r.children@.len() ==> (#[trigger] r.children@[k]).1@ < n_modl
                &&& forall|k: int| 0 <= k < r.decls@.len() ==> (#[trigger] r.decls@[k])@ < n_decl
                &&& forall|k: int| 0 <= k < r.cons@.len() ==> (#[trigger] r.cons@[k])@ < n_cons
            },
            Modl::Alias(a) => {
                &&& a.scope@ < i
                &&& is_record(ir, a.scope@ as int)
                &&& a.path@.len() >= 1
                &&& match a.aliased {
                    Some(t) => t@ < n_modl,
                    None => true,
                }
            },
        },
        None => true,
    }
}

/// Every cross-module link of the module entry at `i` (a record's child
/// map, an alias's resolved target) lands on a populated module of `ir`.
pub open spec fn modl_entry_complete(ir: Seq<Option<Modl>>, i: int) -> bool {
    match ir[i] {
        Some(m) => match m {
            Modl::Record(r) => forall|id: nat|
                #[trigger] crate::ir::child_lookup(r.children@, id) matches Some(c) ==> c
                    < ir.len() && ir[c as int] is Some,
            Modl::Alias(a) => match a.aliased {
                Some(t) => t@ < ir.len() && ir[t@ as int] is Some,
                None => true,
            },
        },
        None => true,
    }
}

/// The context. `global_modl` is the handle of the global module, created
/// once per compilation; every top-level file module becomes its child.
#[derive(Debug)]
pub struct Context {
    pub refs: IdCounter,
    pub names: NameTable,
    pub ast: AstStorage,
    pub ir: IrStorage,
    pub global_modl: ModlRef,
}

impl Context {
    /// The context's invariant: the interner is well formed, no storage has
    /// grown past its kind's counter, the global module is a populated
    /// record, and every populated module entry is well formed.
    pub open spec fn wf(&self) -> bool {
        &&& self.names.wf()
        &&& self.ast.expr@.len() <= self.refs.expr@
        &&& self.ast.patn@.len() <= self.refs.patn@
        &&& self.ast.decl@.len() <= self.refs.decl@
        &&& self.ast.cons@.len() <= self.refs.cons@
        &&& self.ast.modl@.len() <= self.refs.modl@
        &&& self.ir.modl@.len() <= self.refs.modl@
        &&& is_record(self.ir.modl@, self.global_modl@ as int)
        &&& forall|i: int|
            0 <= i < self.ir.modl@.len() ==> modl_entry_wf(
                self.ir.modl@,
                i,
                self.refs.modl@,
                self.refs.decl@,
                self.refs.cons@,
            )
    }

    /// Every cross-module link of the built tree lands on a populated
    /// module: once the worklist is drained this holds, and alias
    /// resolution relies on it.
    pub open spec fn complete(&self) -> bool {
        forall|i: int|
            0 <= i < self.ir.modl@.len() ==> #[trigger] modl_entry_complete(self.ir.modl@, i)
    }

    /// A fresh context: an empty interner and empty storages, except for the
    /// global module, a record registered under the first module handle.
    pub fn new() -> (ctx: Context)
        ensures
            ctx.wf(),
            ctx.complete(),
            ctx.names@.len() == 0,
            ctx.refs.expr@ == 0,
            ctx.refs.patn@ == 0,
            ctx.refs.decl@ == 0,
            ctx.refs.cons@ == 0,
            ctx.refs.modl@ == 1,
            ctx.ast.modl@.len() == 0,
            ctx.ast.decl@.len() == 0,
            ctx.ast.cons@.len() == 0,
            ctx.ir.modl@.len() == 1,
            ctx.global_modl@ == 0,
            ctx.ir.modl@[0] matches Some(m) && m matches Modl::Record(r) && r.name@ == "<global>"@
                && r.scope@.len() == 0 && r.decls@.len() == 0 && r.cons@.len() == 0
                && r.children@.len() == 0,
    {
        let mut refs = IdCounter::new();
        let mut ir = IrStorage::new();
        let global_modl = refs.modl.make_ref();

        let name: String = "<global>".to_owned();
        ir.modl.set(global_modl, Modl::new(name));
        proof {
            reveal_strlit("<global>");
        }

        Context { refs, global_modl, names: NameTable::new(), ast: AstStorage::new(), ir }
    }

    /// The handle of the global module.
    pub fn global_modl(&self) -> (r: ModlRef)
        ensures
            r == self.global_modl,
    {
        self.global_modl
    }
}

} // verus!
