//! Typed handles: opaque, copyable integers tagged by the entity kind they
//! index (expressions, patterns, declarations, constructors, modules), issued
//! by per-kind monotonic counters starting at zero and never reused.

use vstd::prelude::*;

verus! {

/// Marker for the expression kind.
#[derive(Debug, Default, Copy, Clone)]
pub struct Expr;

/// Marker for the pattern kind.
#[derive(Debug, Default, Copy, Clone)]
pub struct Patn;

/// Marker for the declaration kind.
#[derive(Debug, Default, Copy, Clone)]
pub struct Decl;

/// Marker for the constructor kind.
#[derive(Debug, Default, Copy, Clone)]
pub struct Cons;

/// Marker for the module kind.
#[derive(Debug, Default, Copy, Clone)]
pub struct Modl;

/// A typed handle: an index into the storage of entity kind `K`.
/// Handle equality is integer equality; the kind tag exists only to keep
/// handles of different kinds apart at the type level.
#[derive(Debug)]
pub struct Ref<K> {
    kind: core::marker::PhantomData<K>,
    index: usize,
}

impl<K> View for Ref<K> {
    type V = nat;

    closed spec fn view(&self) -> nat {
        self.index as nat
    }
}

impl<K> Ref<K> {
    /// Build the handle with the given index.
    pub fn from_index(index: usize) -> (r: Ref<K>)
        ensures
            r@ == index as nat,
    {
        Ref { kind: core::marker::PhantomData, index }
    }

    /// The handle's underlying integer.
    pub fn index(self) -> (i: usize)
        ensures
            i as nat == self@,
    {
        self.index
    }
}

impl<K> Copy for Ref<K> {

}

impl<K> Clone for Ref<K> {
    fn clone(&self) -> (r: Ref<K>)
        ensures
            r == *self,
    {
        *self
    }
}

impl<K> PartialEq for Ref<K> {
    fn eq(&self, other: &Ref<K>) -> (r: bool) {
        self.index == other.index
    }
}

impl<K> Eq for Ref<K> {

}

impl<K> vstd::std_specs::cmp::PartialEqSpecImpl for Ref<K> {
    open spec fn obeys_eq_spec() -> bool {
        true
    }

    open spec fn eq_spec(&self, other: &Ref<K>) -> bool {
        self@ == other@
    }
}

pub type ExprRef = Ref<Expr>;

pub type PatnRef = Ref<Patn>;

pub type DeclRef = Ref<Decl>;

pub type ConsRef = Ref<Cons>;

pub type ModlRef = Ref<Modl>;

/// The integer indices of a sequence of handles.
pub open spec fn refs_view<K>(s: Seq<Ref<K>>) -> Seq<nat> {
    Seq::new(s.len(), |i: int| s[i]@)
}

/// Viewing one more handle appends its index.
pub proof fn lemma_refs_view_push<K>(s: Seq<Ref<K>>, x: Ref<K>)
    ensures
        refs_view(s.push(x)) == refs_view(s).push(x@),
{
    assert(refs_view(s.push(x)) =~= refs_view(s).push(x@));
}

/// The five per-kind handle counters of one compilation context.
#[derive(Debug)]
pub struct IdCounter {
    pub expr: crate::storage::RefCounter<Expr>,
    pub patn: crate::storage::RefCounter<Patn>,
    pub decl: crate::storage::RefCounter<Decl>,
    pub cons: crate::storage::RefCounter<Cons>,
    pub modl: crate::storage::RefCounter<Modl>,
}

impl IdCounter {
    /// Counters that have issued no handles yet.
    pub fn new() -> (c: IdCounter)
        ensures
            c.expr@ == 0,
            c.patn@ == 0,
            c.decl@ == 0,
            c.cons@ == 0,
            c.modl@ == 0,
    {
        IdCounter {
            expr: crate::storage::RefCounter::new(),
            patn: crate::storage::RefCounter::new(),
            decl: crate::storage::RefCounter::new(),
            cons: crate::storage::RefCounter::new(),
            modl: crate::storage::RefCounter::new(),
        }
    }
}

} // verus!
