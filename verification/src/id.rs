//! The interner: a bidirectional mapping between identifier text and small
//! dense integer ids, assigned in first-seen order starting at zero.
//! Interning the same text twice yields the same id; nothing is ever removed.

use vstd::prelude::*;

verus! {

/// A dense integer id standing for one piece of interned identifier text.
#[derive(Debug, Copy, Clone, PartialEq, Eq, Structural)]
pub struct Ident {
    pub id: usize,
}

impl View for Ident {
    type V = nat;

    open spec fn view(&self) -> nat {
        self.id as nat
    }
}

impl Ident {
    /// Build the id with the given integer value.
    pub fn from_index(id: usize) -> (r: Ident)
        ensures
            r@ == id as nat,
    {
        Ident { id }
    }

    /// The id's underlying integer.
    pub fn index(self) -> (i: usize)
        ensures
            i as nat == self@,
    {
        self.id
    }
}

/// No identifier text occurs twice in the table.
pub open spec fn distinct_names(names: Seq<Seq<char>>) -> bool {
    forall|i: int, j: int| 0 <= i < j < names.len() ==> names[i] != names[j]
}

/// Some entry of the table holds exactly the text `s`.
pub open spec fn table_contains(names: Seq<Seq<char>>, s: Seq<char>) -> bool {
    exists|i: int| 0 <= i < names.len() && names[i] == s
}

/// The interner. Its view is the sequence of interned identifier texts, in
/// first-seen order; the id of a text is its position in that sequence.
#[derive(Debug)]
pub struct NameTable {
    names: Vec<String>,
}

impl View for NameTable {
    type V = Seq<Seq<char>>;

    closed spec fn view(&self) -> Seq<Seq<char>> {
        self.names.deep_view()
    }
}

impl NameTable {
    /// The table's invariant: ids are dense, so no text is stored twice.
    pub open spec fn wf(&self) -> bool {
        distinct_names(self@)
    }

    /// An empty table: nothing has been interned.
    pub fn new() -> (t: NameTable)
        ensures
            t@ == Seq::<Seq<char>>::empty(),
            t.wf(),
    {
        NameTable { names: Vec::new() }
    }

    /// How many distinct texts have been interned.
    pub fn len(&self) -> (n: usize)
        ensures
            n as nat == self@.len(),
    {
        self.names.len()
    }

    /// The id already assigned to `name`, if `name` has been interned.
    pub fn get_ident(&self, name: &str) -> (r: Option<Ident>)
        ensures
            match r {
                Some(id) => id@ < self@.len() && self@[id@ as int] == name@,
                None => !table_contains(self@, name@),
            },
    {
        let key: String = name.to_owned();
        let n = self.names.len();
        let mut i: usize = 0;
        while i < n
            invariant
                n as nat == self@.len(),
                i <= n,
                key@ == name@,
                self@ == self.names.deep_view(),
                forall|j: int| 0 <= j < i ==> self@[j] != name@,
            decreases n - i,
        {
            if self.names[i] == key {
                return Some(Ident::from_index(i));
            }
            i = i + 1;
        }
        None
    }

    /// Intern `name`: return its id if it is already in the table, otherwise
    /// append it and return the freshly assigned id. Idempotent: the same
    /// text always yields the same id within one table's lifetime.
    pub fn make_ident(&mut self, name: &str) -> (id: Ident)
        requires
            old(self).wf(),
        ensures
            final(self).wf(),
            id@ < final(self)@.len(),
            final(self)@[id@ as int] == name@,
            table_contains(old(self)@, name@) ==> final(self)@ == old(self)@,
            !table_contains(old(self)@, name@) ==> final(self)@ == old(self)@.push(name@)
                && id@ == old(self)@.len(),
    {
        match self.get_ident(name) {
            Some(id) => {
                assert(table_contains(self@, name@));
                id
            },
            None => {
                let id = Ident::from_index(self.names.len());
                let key: String = name.to_owned();
                self.names.push(key);
                proof {
                    assert(self@ =~= old(self)@.push(name@));
                }
                id
            },
        }
    }

    /// The text interned under `id`. Valid only for previously issued ids;
    /// asking for any other id is a programming error, ruled out here.
    pub fn get(&self, id: Ident) -> (name: &String)
        requires
            id@ < self@.len(),
        ensures
            name@ == self@[id@ as int],
    {
        &self.names[id.index()]
    }
}

/// Interner idempotence: under the table invariant each text names one id,
/// so interning equal texts yields equal ids and interning distinct texts
/// yields distinct ids.
pub proof fn lemma_interner_idempotence(
    names: Seq<Seq<char>>,
    s1: Seq<char>,
    s2: Seq<char>,
    i: int,
    j: int,
)
    requires
        distinct_names(names),
        0 <= i < names.len(),
        0 <= j < names.len(),
        names[i] == s1,
        names[j] == s2,
    ensures
        s1 == s2 <==> i == j,
{
}

} // verus!
