//! The intermediate representation: interned call-shape signatures, and the
//! module graph itself — concrete module records with scope chains, child
//! maps and signature tables, and module aliases awaiting resolution.

use vstd::prelude::*;

use crate::error::FridayError;
use crate::id::Ident;
use crate::refs::{ConsRef, DeclRef, ModlRef, PatnRef};
use crate::symbol::SymbolTable;

verus! {

/// A literal in the lowered representation. The numeric case carries the
/// literal's bit pattern; nothing in this crate reads it.
#[derive(Debug)]
pub enum Literal {
    Unit,
    Number(u64),
    Text(String),
}

/// A lowered expression. Declaration lowering stops at registration, so the
/// tree builder allocates no values of this type; it is the shape later
/// phases fill in.
#[derive(Debug)]
pub enum Expr {
    Hole,
    Literal(Literal),
    Var(DeclRef),
    Data(ConsRef, Vec<Expr>),
    Apply(Box<Expr>, Box<Expr>),
    Func(Box<Patn>, Box<Expr>),
    Match(Box<Expr>, Vec<(Patn, Expr)>),
    Scoped(ModlRef, Box<Expr>),
}

/// A lowered pattern; like `Expr`, allocated only by later phases.
#[derive(Debug)]
pub enum Patn {
    Empty,
    Literal(Literal),
    Binding(Vec<Ident>),
    Data(ConsRef, Vec<Patn>),
}

/// One element of an interned call-shape signature: a fixed keyword id, or
/// a pattern slot carrying `T` (the pattern itself, or `()` once the shape
/// alone matters).
#[derive(Debug, Copy, Clone)]
pub enum Sign<T> {
    Patn(T),
    Word(Ident),
}

impl<T> Sign<T> {
    /// Discard the pattern payload, keeping only the slot's position.
    pub fn forget(self) -> (r: Sign<()>)
        ensures
            self is Patn ==> r == Sign::<()>::Patn(()),
            self matches Sign::Word(id) ==> r == Sign::<()>::Word(id),
    {
        match self {
            Sign::Patn(_) => Sign::Patn(()),
            Sign::Word(id) => Sign::Word(id),
        }
    }
}

/// A lowered declaration: its interned signature, with pattern slots still
/// naming their pattern handles.
#[derive(Debug)]
pub struct Decl {
    pub sig: Vec<Sign<PatnRef>>,
}

/// A lowered constructor declaration: its call shape.
#[derive(Debug)]
pub struct Cons {
    pub sig: Vec<Sign<()>>,
}

/// A module's lowered form: a concrete record, or an alias for another
/// module.
#[derive(Debug)]
pub enum Modl {
    Record(ModlRecord),
    Alias(ModlAlias),
}

/// A concrete module: its diagnostic name, the enclosing-scope chain
/// searched for unqualified names (nearest first, reaching the global module
/// transitively), its declarations and constructors in source order, its
/// signature table, and its named children.
#[derive(Debug)]
pub struct ModlRecord {
    pub name: String,
    pub scope: Vec<ModlRef>,
    pub decls: Vec<DeclRef>,
    pub cons: Vec<ConsRef>,
    pub symbols: SymbolTable,
    pub children: Vec<(Ident, ModlRef)>,
}

/// A module alias: its diagnostic name, the module in which it was written
/// (`scope`), the resolved target once the alias resolver has run, and the
/// dotted path, with `absolute` lookups anchored at the global module by
/// making that module the defining scope.
#[derive(Debug)]
pub struct ModlAlias {
    pub name: String,
    pub scope: ModlRef,
    pub aliased: Option<ModlRef>,
    pub path: Vec<Ident>,
}

/// The child handle mapped under `id`, searching first match; `None` if the
/// map has no entry for `id`.
pub open spec fn child_lookup(children: Seq<(Ident, ModlRef)>, id: nat) -> Option<nat>
    decreases children,
{
    if children.len() == 0 {
        None
    } else if children[0].0@ == id {
        Some(children[0].1@)
    } else {
        child_lookup(children.drop_first(), id)
    }
}

/// No identifier keys two entries of a children map.
pub open spec fn children_distinct(children: Seq<(Ident, ModlRef)>) -> bool {
    forall|i: int, j: int| 0 <= i < j < children.len() ==> children[i].0@ != children[j].0@
}

impl ModlRecord {
    /// A record's internal invariant: child names are unique, and the
    /// signature table is well formed.
    pub open spec fn wf(&self) -> bool {
        children_distinct(self.children@) && self.symbols.wf()
    }

    /// An empty record with the given diagnostic name.
    pub fn new(name: String) -> (r: ModlRecord)
        ensures
            r.name@ == name@,
            r.scope@.len() == 0,
            r.decls@.len() == 0,
            r.cons@.len() == 0,
            r.symbols@.decls.len() == 0,
            r.symbols@.cons.len() == 0,
            r.symbols@.decl_order.len() == 0,
            r.symbols@.cons_order.len() == 0,
            r.children@.len() == 0,
            r.wf(),
    {
        ModlRecord {
            name,
            scope: Vec::new(),
            decls: Vec::new(),
            cons: Vec::new(),
            symbols: SymbolTable::new(),
            children: Vec::new(),
        }
    }

    /// The child module registered under `id`, if any.
    pub fn child(&self, id: Ident) -> (r: Option<ModlRef>)
        ensures
            match r {
                Some(c) => child_lookup(self.children@, id@) == Some(c@),
                None => child_lookup(self.children@, id@) is None,
            },
    {
        let n = self.children.len();
        let mut i: usize = 0;
        proof {
            assert(self.children@.skip(0) =~= self.children@);
        }
        while i < n
            invariant
                i <= n,
                n == self.children@.len(),
                child_lookup(self.children@, id@) == child_lookup(
                    self.children@.skip(i as int),
                    id@,
                ),
            decreases n - i,
        {
            proof {
                assert(self.children@.skip(i as int)[0] == self.children@[i as int]);
                assert(self.children@.skip(i as int).drop_first() =~= self.children@.skip(
                    i as int + 1,
                ));
            }
            if self.children[i].0 == id {
                return Some(self.children[i].1);
            }
            i = i + 1;
        }
        proof {
            assert(self.children@.skip(n as int) =~= Seq::<(Ident, ModlRef)>::empty());
        }
        None
    }

    /// Register `child` under `id`. A repeated name silently overwrites the
    /// earlier mapping (last writer wins); every other mapping is kept.
    pub fn insert_child(&mut self, id: Ident, child: ModlRef)
        requires
            old(self).wf(),
        ensures
            final(self).wf(),
            child_lookup(final(self).children@, id@) == Some(child@),
            forall|other: nat|
                other != id@ ==> child_lookup(final(self).children@, other) == child_lookup(
                    old(self).children@,
                    other,
                ),
            forall|k: int|
                0 <= k < final(self).children@.len() ==> (#[trigger] final(self).children@[k]).1
                    == child || exists|j: int|
                    0 <= j < old(self).children@.len() && (#[trigger] old(self).children@[j]).1
                        == final(self).children@[k].1,
            final(self).name == old(self).name,
            final(self).scope == old(self).scope,
            final(self).decls == old(self).decls,
            final(self).cons == old(self).cons,
            final(self).symbols == old(self).symbols,
    {
        let n = self.children.len();
        let mut i: usize = 0;
        while i < n
            invariant
                i <= n,
                n == self.children@.len(),
                old(self) == self,
                old(self).wf(),
                forall|j: int| 0 <= j < i ==> self.children@[j].0@ != id@,
            decreases n - i,
        {
            if self.children[i].0 == id {
                proof {
                    lemma_child_lookup_update(self.children@, i as int, id, child);
                }
                self.children.set(i, (id, child));
                return ;
            }
            i = i + 1;
        }
        proof {
            lemma_child_lookup_append(self.children@, id, child);
        }
        self.children.push((id, child));
    }
}

/// Updating the entry at position `i`, whose key is `id` and occurs nowhere
/// earlier, changes the lookup of `id` to the new handle and no other lookup.
proof fn lemma_child_lookup_update(
    children: Seq<(Ident, ModlRef)>,
    i: int,
    id: Ident,
    child: ModlRef,
)
    requires
        0 <= i < children.len(),
        children[i].0@ == id@,
        forall|j: int| 0 <= j < i ==> children[j].0@ != id@,
        children_distinct(children),
    ensures
        children_distinct(children.update(i, (id, child))),
        child_lookup(children.update(i, (id, child)), id@) == Some(child@),
        forall|other: nat|
            other != id@ ==> child_lookup(children.update(i, (id, child)), other) == child_lookup(
                children,
                other,
            ),
    decreases children,
{
    let u = children.update(i, (id, child));
    assert forall|p: int, q: int| 0 <= p < q < u.len() implies u[p].0@ != u[q].0@ by {
        assert(children[p].0@ != children[q].0@);
        assert(u[p].0@ == children[p].0@);
        assert(u[q].0@ == children[q].0@);
    }
    if i == 0 {
        assert(u[0] == (id, child));
        assert forall|other: nat| other != id@ implies child_lookup(u, other) == child_lookup(
            children,
            other,
        ) by {
            assert(u.drop_first() =~= children.drop_first());
            assert(child_lookup(u, other) == child_lookup(u.drop_first(), other));
            assert(child_lookup(children, other) == child_lookup(children.drop_first(), other));
        }
    } else {
        lemma_child_lookup_update(children.drop_first(), i - 1, id, child);
        assert(u.drop_first() =~= children.drop_first().update(i - 1, (id, child)));
        assert(u[0] == children[0]);
        assert(children[0].0@ != id@);
        assert(child_lookup(u, id@) == child_lookup(u.drop_first(), id@));
        assert forall|other: nat| other != id@ implies child_lookup(u, other) == child_lookup(
            children,
            other,
        ) by {
            if children[0].0@ != other {
                assert(child_lookup(u, other) == child_lookup(u.drop_first(), other));
                assert(child_lookup(children, other) == child_lookup(
                    children.drop_first(),
                    other,
                ));
            }
        }
    }
}

/// Appending a fresh entry defines the lookup of its key and no other.
proof fn lemma_child_lookup_append(children: Seq<(Ident, ModlRef)>, id: Ident, child: ModlRef)
    requires
        forall|j: int| 0 <= j < children.len() ==> children[j].0@ != id@,
        children_distinct(children),
    ensures
        children_distinct(children.push((id, child))),
        child_lookup(children.push((id, child)), id@) == Some(child@),
        forall|other: nat|
            other != id@ ==> child_lookup(children.push((id, child)), other) == child_lookup(
                children,
                other,
            ),
    decreases children,
{
    let u = children.push((id, child));
    assert forall|p: int, q: int| 0 <= p < q < u.len() implies u[p].0@ != u[q].0@ by {
        if q < children.len() {
            assert(children[p].0@ != children[q].0@);
        } else {
            assert(u[q].0@ == id@);
            assert(u[p].0@ == children[p].0@);
        }
    }
    if children.len() == 0 {
        assert(u[0] == (id, child));
        assert(u.drop_first() =~= children);
    } else {
        lemma_child_lookup_append(children.drop_first(), id, child);
        assert(u.drop_first() =~= children.drop_first().push((id, child)));
        assert(u[0] == children[0]);
        assert(children[0].0@ != id@);
        assert(child_lookup(u, id@) == child_lookup(u.drop_first(), id@));
        assert forall|other: nat| other != id@ implies child_lookup(u, other) == child_lookup(
            children,
            other,
        ) by {
            if children[0].0@ != other {
                assert(child_lookup(u, other) == child_lookup(u.drop_first(), other));
                assert(child_lookup(children, other) == child_lookup(
                    children.drop_first(),
                    other,
                ));
            }
        }
    }
}

impl Modl {
    /// A fresh, empty module record with the given diagnostic name.
    pub fn new(name: String) -> (m: Modl)
        ensures
            m matches Modl::Record(r) && r.name@ == name@ && r.scope@.len() == 0 && r.decls@.len()
                == 0 && r.cons@.len() == 0 && r.symbols@.decls.len() == 0 && r.symbols@.cons.len()
                == 0 && r.symbols@.decl_order.len() == 0 && r.symbols@.cons_order.len() == 0
                && r.children@.len() == 0 && r.wf(),
    {
        Modl::Record(ModlRecord::new(name))
    }

    /// A fresh alias written in `scope`, with no path segments yet and no
    /// resolved target.
    pub fn new_alias(name: String, scope: ModlRef) -> (m: Modl)
        ensures
            m matches Modl::Alias(a) && a.name@ == name@ && a.scope@ == scope@ && a.aliased is None
                && a.path@.len() == 0,
    {
        Modl::Alias(ModlAlias { name, scope, aliased: None, path: Vec::new() })
    }

    /// This module as a record; an alias is a consistency error.
    pub fn as_record(&self) -> (r: Result<&ModlRecord, FridayError>)
        ensures
            match r {
                Ok(record) => *self matches Modl::Record(rec) && *record == rec,
                Err(e) => *self is Alias && e is UnexpectedModuleAlias,
            },
    {
        match self {
            Modl::Record(record) => Ok(record),
            Modl::Alias(_) => Err(FridayError::UnexpectedModuleAlias),
        }
    }

    /// This module as a mutable record; an alias is a consistency error.
    pub fn as_record_mut(&mut self) -> (r: Result<&mut ModlRecord, FridayError>)
        ensures
            match r {
                Ok(record) => *old(self) matches Modl::Record(rec) && *record == rec
                    && *final(self) == Modl::Record(*final(record)),
                Err(e) => *old(self) is Alias && e is UnexpectedModuleAlias
                    && *final(self) == *old(self),
            },
    {
        match self {
            Modl::Record(record) => Ok(record),
            Modl::Alias(_) => Err(FridayError::UnexpectedModuleAlias),
        }
    }

    /// This module as an alias; a record is a consistency error.
    pub fn as_alias(&self) -> (r: Result<&ModlAlias, FridayError>)
        ensures
            match r {
                Ok(alias) => *self matches Modl::Alias(a) && *alias == a,
                Err(e) => *self is Record && e is UnexpectedModuleRecord,
            },
    {
        match self {
            Modl::Alias(alias) => Ok(alias),
            Modl::Record(_) => Err(FridayError::UnexpectedModuleRecord),
        }
    }

    /// This module as a mutable alias; a record is a consistency error.
    pub fn as_alias_mut(&mut self) -> (r: Result<&mut ModlAlias, FridayError>)
        ensures
            match r {
                Ok(alias) => *old(self) matches Modl::Alias(a) && *alias == a
                    && *final(self) == Modl::Alias(*final(alias)),
                Err(e) => *old(self) is Record && e is UnexpectedModuleRecord
                    && *final(self) == *old(self),
            },
    {
        match self {
            Modl::Alias(alias) => Ok(alias),
            Modl::Record(_) => Err(FridayError::UnexpectedModuleRecord),
        }
    }

    /// The module's diagnostic name, whichever variant it is.
    pub fn name(&self) -> (n: &String)
        ensures
            match self {
                Modl::Record(r) => n == r.name,
                Modl::Alias(a) => n == a.name,
            },
    {
        match self {
            Modl::Alias(alias) => &alias.name,
            Modl::Record(record) => &record.name,
        }
    }
}

/// One storage per entity kind for the lowered representation. The tree
/// builder populates only the module storage; the others await later phases.
#[derive(Debug)]
pub struct IrStorage {
    pub expr: crate::storage::VecStorage<crate::refs::Expr, Expr>,
    pub patn: crate::storage::VecStorage<crate::refs::Patn, Patn>,
    pub decl: crate::storage::VecStorage<crate::refs::Decl, Decl>,
    pub cons: crate::storage::VecStorage<crate::refs::Cons, Cons>,
    pub modl: crate::storage::VecStorage<crate::refs::Modl, Modl>,
}

impl IrStorage {
    /// Empty storages: nothing has been lowered.
    pub fn new() -> (s: IrStorage)
        ensures
            s.expr@.len() == 0,
            s.patn@.len() == 0,
            s.decl@.len() == 0,
            s.cons@.len() == 0,
            s.modl@.len() == 0,
    {
        IrStorage {
            expr: crate::storage::VecStorage::new(),
            patn: crate::storage::VecStorage::new(),
            decl: crate::storage::VecStorage::new(),
            cons: crate::storage::VecStorage::new(),
            modl: crate::storage::VecStorage::new(),
        }
    }
}

} // verus!
