//! The tree shapes the external parser produces: one file's worth of
//! declarations, with nested module expressions, named module paths,
//! call-shape signatures, patterns and expressions. The tree builder consumes
//! these and never inspects expression bodies beyond storing them.

use vstd::prelude::*;

verus! {

/// A token description carried by a parse error: byte position and text.
#[derive(Debug)]
pub struct OwnedToken(pub usize, pub String);

/// A raw (not yet interned) identifier: its source text.
#[derive(Debug)]
pub struct Ident(pub String);

impl DeepView for Ident {
    type V = Seq<char>;

    open spec fn deep_view(&self) -> Seq<char> {
        self.0@
    }
}

/// The smallest pieces an expression or pattern is built from. `T` is the
/// enclosing tree type, so a parenthesised subtree can nest.
#[derive(Debug)]
pub enum Atom<T> {
    /// A hole (`_`).
    Hole,
    /// The unit value.
    Unit,
    /// A numeric literal, carried as its bit pattern; the tree builder
    /// never reads it.
    Number(u64),
    /// An identifier occurrence.
    Ident(Ident),
    /// A text literal.
    Text(String),
    /// A parenthesised subtree.
    Nested(Box<T>),
}

/// The view of an `Atom<T>`, over the view `V` of `T`.
pub enum AtomView<V> {
    Hole,
    Unit,
    Number(u64),
    Ident(Seq<char>),
    Text(Seq<char>),
    Nested(V),
}

/// An expression: a flat application chain, a function, a match, or a
/// declaration-scoped body.
#[derive(Debug)]
pub enum Expr {
    Flat(Vec<Atom<Expr>>),
    Func(Box<Patn>, Box<Expr>),
    Match(Box<Expr>, Vec<(Patn, Expr)>),
    Scoped(Vec<Decl>, Box<Expr>),
}

pub enum ExprView {
    Flat(Seq<AtomView<ExprView>>),
    Func(Box<PatnView>, Box<ExprView>),
    Match(Box<ExprView>, Seq<(PatnView, ExprView)>),
    Scoped(Seq<DeclView>, Box<ExprView>),
}

/// A pattern: a flat chain of atoms, or a declaration-scoped pattern.
#[derive(Debug)]
pub enum Patn {
    Flat(Vec<Atom<Patn>>),
    Scoped(Vec<Decl>, Box<Patn>),
}

pub enum PatnView {
    Flat(Seq<AtomView<PatnView>>),
    Scoped(Seq<DeclView>, Box<PatnView>),
}

/// One element of a declaration's call-shape signature: a fixed keyword or
/// an argument-pattern slot.
#[derive(Debug)]
pub enum Sign {
    Word(Ident),
    Patn(Box<Patn>),
}

pub enum SignView {
    Word(Seq<char>),
    Patn(Box<PatnView>),
}

/// A declaration: a plain binding, a definition with a call signature, a
/// data-constructor declaration, a named submodule, or an anonymous import.
#[derive(Debug)]
pub enum Decl {
    Let(Box<Patn>, Box<Expr>),
    Def(Vec<Sign>, Box<Expr>),
    Con(Vec<Sign>),
    Mod(Ident, Box<Modl>),
    Use(Box<Modl>),
}

pub enum DeclView {
    Let(Box<PatnView>, Box<ExprView>),
    Def(Seq<SignView>, Box<ExprView>),
    Con(Seq<SignView>),
    Mod(Seq<char>, Box<ModlView>),
    Use(Box<ModlView>),
}

/// A dotted module reference: its identifier segments, and whether lookup
/// starts from the global module (`absolute`) or from the defining scope.
#[derive(Debug)]
pub struct ModlPath {
    pub path: Vec<Ident>,
    pub absolute: bool,
}

#[verifier::ext_equal]
pub struct ModlPathView {
    pub path: Seq<Seq<char>>,
    pub absolute: bool,
}

/// A module's raw syntax: either a declaration list (a module expression)
/// or a named reference to another module.
#[derive(Debug)]
pub enum Modl {
    ModExp(Vec<Decl>),
    Named(ModlPath),
}

pub enum ModlView {
    ModExp(Seq<DeclView>),
    Named(ModlPathView),
}

impl DeepView for Atom<Expr> {
    type V = AtomView<ExprView>;

    open spec fn deep_view(&self) -> AtomView<ExprView> {
        expr_atom_view(*self)
    }
}

impl DeepView for Atom<Patn> {
    type V = AtomView<PatnView>;

    open spec fn deep_view(&self) -> AtomView<PatnView> {
        patn_atom_view(*self)
    }
}

impl DeepView for Expr {
    type V = ExprView;

    open spec fn deep_view(&self) -> ExprView {
        expr_view(*self)
    }
}

impl DeepView for Patn {
    type V = PatnView;

    open spec fn deep_view(&self) -> PatnView {
        patn_view(*self)
    }
}

impl DeepView for Sign {
    type V = SignView;

    open spec fn deep_view(&self) -> SignView {
        sign_view(*self)
    }
}

impl DeepView for Decl {
    type V = DeclView;

    open spec fn deep_view(&self) -> DeclView {
        decl_view(*self)
    }
}

impl DeepView for ModlPath {
    type V = ModlPathView;

    open spec fn deep_view(&self) -> ModlPathView {
        modl_path_view(*self)
    }
}

impl DeepView for Modl {
    type V = ModlView;

    open spec fn deep_view(&self) -> ModlView {
        modl_view(*self)
    }
}

pub open spec fn idents_view(ids: Seq<Ident>) -> Seq<Seq<char>>
    decreases ids,
{
    if ids.len() == 0 {
        Seq::empty()
    } else {
        seq![ids[0].0@] + idents_view(ids.drop_first())
    }
}

pub open spec fn modl_path_view(p: ModlPath) -> ModlPathView {
    ModlPathView { path: idents_view(p.path@), absolute: p.absolute }
}

pub open spec fn expr_atom_view(a: Atom<Expr>) -> AtomView<ExprView>
    decreases a,
{
    match a {
        Atom::Hole => AtomView::Hole,
        Atom::Unit => AtomView::Unit,
        Atom::Number(n) => AtomView::Number(n),
        Atom::Ident(id) => AtomView::Ident(id.0@),
        Atom::Text(s) => AtomView::Text(s@),
        Atom::Nested(e) => AtomView::Nested(expr_view(*e)),
    }
}

pub open spec fn patn_atom_view(a: Atom<Patn>) -> AtomView<PatnView>
    decreases a,
{
    match a {
        Atom::Hole => AtomView::Hole,
        Atom::Unit => AtomView::Unit,
        Atom::Number(n) => AtomView::Number(n),
        Atom::Ident(id) => AtomView::Ident(id.0@),
        Atom::Text(s) => AtomView::Text(s@),
        Atom::Nested(p) => AtomView::Nested(patn_view(*p)),
    }
}

pub open spec fn expr_atoms_view(atoms: Seq<Atom<Expr>>) -> Seq<AtomView<ExprView>>
    decreases atoms,
{
    if atoms.len() == 0 {
        Seq::empty()
    } else {
        seq![expr_atom_view(atoms[0])] + expr_atoms_view(atoms.drop_first())
    }
}

pub open spec fn patn_atoms_view(atoms: Seq<Atom<Patn>>) -> Seq<AtomView<PatnView>>
    decreases atoms,
{
    if atoms.len() == 0 {
        Seq::empty()
    } else {
        seq![patn_atom_view(atoms[0])] + patn_atoms_view(atoms.drop_first())
    }
}

pub open spec fn arms_view(arms: Seq<(Patn, Expr)>) -> Seq<(PatnView, ExprView)>
    decreases arms,
{
    if arms.len() == 0 {
        Seq::empty()
    } else {
        seq![(patn_view(arms[0].0), expr_view(arms[0].1))] + arms_view(arms.drop_first())
    }
}

pub open spec fn signs_view(sig: Seq<Sign>) -> Seq<SignView>
    decreases sig,
{
    if sig.len() == 0 {
        Seq::empty()
    } else {
        seq![sign_view(sig[0])] + signs_view(sig.drop_first())
    }
}

pub open spec fn decls_view(decls: Seq<Decl>) -> Seq<DeclView>
    decreases decls,
{
    if decls.len() == 0 {
        Seq::empty()
    } else {
        seq![decl_view(decls[0])] + decls_view(decls.drop_first())
    }
}

pub open spec fn expr_view(e: Expr) -> ExprView
    decreases e,
{
    match e {
        Expr::Flat(atoms) => ExprView::Flat(expr_atoms_view(atoms@)),
        Expr::Func(p, b) => ExprView::Func(Box::new(patn_view(*p)), Box::new(expr_view(*b))),
        Expr::Match(s, arms) => ExprView::Match(Box::new(expr_view(*s)), arms_view(arms@)),
        Expr::Scoped(decls, b) => ExprView::Scoped(decls_view(decls@), Box::new(expr_view(*b))),
    }
}

pub open spec fn patn_view(p: Patn) -> PatnView
    decreases p,
{
    match p {
        Patn::Flat(atoms) => PatnView::Flat(patn_atoms_view(atoms@)),
        Patn::Scoped(decls, inner) => PatnView::Scoped(
            decls_view(decls@),
            Box::new(patn_view(*inner)),
        ),
    }
}

pub open spec fn sign_view(s: Sign) -> SignView
    decreases s,
{
    match s {
        Sign::Word(id) => SignView::Word(id.0@),
        Sign::Patn(p) => SignView::Patn(Box::new(patn_view(*p))),
    }
}

pub open spec fn decl_view(d: Decl) -> DeclView
    decreases d,
{
    match d {
        Decl::Let(p, e) => DeclView::Let(Box::new(patn_view(*p)), Box::new(expr_view(*e))),
        Decl::Def(sig, e) => DeclView::Def(signs_view(sig@), Box::new(expr_view(*e))),
        Decl::Con(sig) => DeclView::Con(signs_view(sig@)),
        Decl::Mod(id, body) => DeclView::Mod(id.0@, Box::new(modl_view(*body))),
        Decl::Use(body) => DeclView::Use(Box::new(modl_view(*body))),
    }
}

pub open spec fn modl_view(m: Modl) -> ModlView
    decreases m,
{
    match m {
        Modl::ModExp(decls) => ModlView::ModExp(decls_view(decls@)),
        Modl::Named(path) => ModlView::Named(modl_path_view(path)),
    }
}

proof fn lemma_idents_view_push(s: Seq<Ident>, x: Ident)
    ensures
        idents_view(s.push(x)) == idents_view(s) + seq![x.0@],
    decreases s,
{
    if s.len() == 0 {
        assert(s.push(x) =~= seq![x]);
        assert(s.push(x).drop_first() =~= s);
        assert(idents_view(s.push(x)) =~= idents_view(s) + seq![x.0@]);
    } else {
        assert(s.push(x).drop_first() =~= s.drop_first().push(x));
        lemma_idents_view_push(s.drop_first(), x);
        assert(idents_view(s.push(x)) =~= idents_view(s) + seq![x.0@]);
    }
}

proof fn lemma_expr_atoms_view_push(s: Seq<Atom<Expr>>, x: Atom<Expr>)
    ensures
        expr_atoms_view(s.push(x)) == expr_atoms_view(s) + seq![expr_atom_view(x)],
    decreases s,
{
    if s.len() == 0 {
        assert(s.push(x) =~= seq![x]);
        assert(s.push(x).drop_first() =~= s);
        assert(expr_atoms_view(s.push(x)) =~= expr_atoms_view(s) + seq![expr_atom_view(x)]);
    } else {
        assert(s.push(x).drop_first() =~= s.drop_first().push(x));
        lemma_expr_atoms_view_push(s.drop_first(), x);
        assert(expr_atoms_view(s.push(x)) =~= expr_atoms_view(s) + seq![expr_atom_view(x)]);
    }
}

proof fn lemma_patn_atoms_view_push(s: Seq<Atom<Patn>>, x: Atom<Patn>)
    ensures
        patn_atoms_view(s.push(x)) == patn_atoms_view(s) + seq![patn_atom_view(x)],
    decreases s,
{
    if s.len() == 0 {
        assert(s.push(x) =~= seq![x]);
        assert(s.push(x).drop_first() =~= s);
        assert(patn_atoms_view(s.push(x)) =~= patn_atoms_view(s) + seq![patn_atom_view(x)]);
    } else {
        assert(s.push(x).drop_first() =~= s.drop_first().push(x));
        lemma_patn_atoms_view_push(s.drop_first(), x);
        assert(patn_atoms_view(s.push(x)) =~= patn_atoms_view(s) + seq![patn_atom_view(x)]);
    }
}

proof fn lemma_arms_view_push(s: Seq<(Patn, Expr)>, x: (Patn, Expr))
    ensures
        arms_view(s.push(x)) == arms_view(s) + seq![(patn_view(x.0), expr_view(x.1))],
    decreases s,
{
    if s.len() == 0 {
        assert(s.push(x) =~= seq![x]);
        assert(s.push(x).drop_first() =~= s);
        assert(arms_view(s.push(x)) =~= arms_view(s) + seq![(patn_view(x.0), expr_view(x.1))]);
    } else {
        assert(s.push(x).drop_first() =~= s.drop_first().push(x));
        lemma_arms_view_push(s.drop_first(), x);
        assert(arms_view(s.push(x)) =~= arms_view(s) + seq![(patn_view(x.0), expr_view(x.1))]);
    }
}

proof fn lemma_signs_view_push(s: Seq<Sign>, x: Sign)
    ensures
        signs_view(s.push(x)) == signs_view(s) + seq![sign_view(x)],
    decreases s,
{
    if s.len() == 0 {
        assert(s.push(x) =~= seq![x]);
        assert(s.push(x).drop_first() =~= s);
        assert(signs_view(s.push(x)) =~= signs_view(s) + seq![sign_view(x)]);
    } else {
        assert(s.push(x).drop_first() =~= s.drop_first().push(x));
        lemma_signs_view_push(s.drop_first(), x);
        assert(signs_view(s.push(x)) =~= signs_view(s) + seq![sign_view(x)]);
    }
}

proof fn lemma_decls_view_push(s: Seq<Decl>, x: Decl)
    ensures
        decls_view(s.push(x)) == decls_view(s) + seq![decl_view(x)],
    decreases s,
{
    if s.len() == 0 {
        assert(s.push(x) =~= seq![x]);
        assert(s.push(x).drop_first() =~= s);
        assert(decls_view(s.push(x)) =~= decls_view(s) + seq![decl_view(x)]);
    } else {
        assert(s.push(x).drop_first() =~= s.drop_first().push(x));
        lemma_decls_view_push(s.drop_first(), x);
        assert(decls_view(s.push(x)) =~= decls_view(s) + seq![decl_view(x)]);
    }
}

/// A signature's view is its elements' views, in place.
pub proof fn lemma_signs_view_index(s: Seq<Sign>, i: int)
    requires
        0 <= i < s.len(),
    ensures
        signs_view(s).len() == s.len(),
        signs_view(s)[i] == sign_view(s[i]),
    decreases s,
{
    lemma_signs_view_len(s);
    if i > 0 {
        lemma_signs_view_index(s.drop_first(), i - 1);
        assert(s.drop_first()[i - 1] == s[i]);
    }
}

/// A signature's view has its length.
pub proof fn lemma_signs_view_len(s: Seq<Sign>)
    ensures
        signs_view(s).len() == s.len(),
    decreases s,
{
    if s.len() > 0 {
        lemma_signs_view_len(s.drop_first());
    }
}

/// An identifier list's view is its texts, in place.
pub proof fn lemma_idents_view_index(s: Seq<Ident>, i: int)
    requires
        0 <= i < s.len(),
    ensures
        idents_view(s).len() == s.len(),
        idents_view(s)[i] == s[i].0@,
    decreases s,
{
    lemma_idents_view_len(s);
    if i > 0 {
        lemma_idents_view_index(s.drop_first(), i - 1);
        assert(s.drop_first()[i - 1] == s[i]);
    }
}

/// An identifier list's view has its length.
pub proof fn lemma_idents_view_len(s: Seq<Ident>)
    ensures
        idents_view(s).len() == s.len(),
    decreases s,
{
    if s.len() > 0 {
        lemma_idents_view_len(s.drop_first());
    }
}

/// A declaration list's view is its declarations' views, in place.
pub proof fn lemma_decls_view_index(s: Seq<Decl>, i: int)
    requires
        0 <= i < s.len(),
    ensures
        decls_view(s).len() == s.len(),
        decls_view(s)[i] == decl_view(s[i]),
    decreases s,
{
    lemma_decls_view_len(s);
    if i > 0 {
        lemma_decls_view_index(s.drop_first(), i - 1);
        assert(s.drop_first()[i - 1] == s[i]);
    }
}

/// A declaration list's view has its length.
pub proof fn lemma_decls_view_len(s: Seq<Decl>)
    ensures
        decls_view(s).len() == s.len(),
    decreases s,
{
    if s.len() > 0 {
        lemma_decls_view_len(s.drop_first());
    }
}

/// Copy one raw identifier; the copy carries the same text.
pub fn clone_ident(id: &Ident) -> (r: Ident)
    ensures
        r.deep_view() == id.deep_view(),
{
    Ident(id.0.clone())
}

/// Copy an expression atom; the copy has the same view.
pub fn clone_expr_atom(a: &Atom<Expr>) -> (r: Atom<Expr>)
    ensures
        expr_atom_view(r) == expr_atom_view(*a),
    decreases *a,
{
    match a {
        Atom::Hole => Atom::Hole,
        Atom::Unit => Atom::Unit,
        Atom::Number(n) => Atom::Number(*n),
        Atom::Ident(id) => Atom::Ident(clone_ident(id)),
        Atom::Text(s) => Atom::Text(s.clone()),
        Atom::Nested(e) => Atom::Nested(Box::new(clone_expr(e))),
    }
}

/// Copy a pattern atom; the copy has the same view.
pub fn clone_patn_atom(a: &Atom<Patn>) -> (r: Atom<Patn>)
    ensures
        patn_atom_view(r) == patn_atom_view(*a),
    decreases *a,
{
    match a {
        Atom::Hole => Atom::Hole,
        Atom::Unit => Atom::Unit,
        Atom::Number(n) => Atom::Number(*n),
        Atom::Ident(id) => Atom::Ident(clone_ident(id)),
        Atom::Text(s) => Atom::Text(s.clone()),
        Atom::Nested(p) => Atom::Nested(Box::new(clone_patn(p))),
    }
}

/// Copy an expression; the copy has the same view.
pub fn clone_expr(e: &Expr) -> (r: Expr)
    ensures
        expr_view(r) == expr_view(*e),
    decreases *e,
{
    match e {
        Expr::Flat(atoms) => {
            let mut out: Vec<Atom<Expr>> = Vec::new();
            let n = atoms.len();
            let mut i: usize = 0;
            while i < n
                invariant
                    i <= n,
                    n == atoms@.len(),
                    decreases_to!(*e => atoms@),
                    expr_atoms_view(out@) == expr_atoms_view(atoms@.subrange(0, i as int)),
                decreases n - i,
            {
                proof {
                    assert(decreases_to!(atoms@ => atoms@[i as int]));
                }
                let c = clone_expr_atom(&atoms[i]);
                proof {
                    lemma_expr_atoms_view_push(out@, c);
                    lemma_expr_atoms_view_push(atoms@.subrange(0, i as int), atoms@[i as int]);
                    assert(atoms@.subrange(0, i as int).push(atoms@[i as int]) =~= atoms@.subrange(
                        0,
                        i as int + 1,
                    ));
                }
                out.push(c);
                i = i + 1;
            }
            proof {
                assert(atoms@.subrange(0, n as int) =~= atoms@);
            }
            Expr::Flat(out)
        },
        Expr::Func(p, b) => Expr::Func(Box::new(clone_patn(p)), Box::new(clone_expr(b))),
        Expr::Match(s, arms) => {
            let scrutinee = clone_expr(s);
            let mut out: Vec<(Patn, Expr)> = Vec::new();
            let n = arms.len();
            let mut i: usize = 0;
            while i < n
                invariant
                    i <= n,
                    n == arms@.len(),
                    decreases_to!(*e => arms@),
                    arms_view(out@) == arms_view(arms@.subrange(0, i as int)),
                decreases n - i,
            {
                proof {
                    assert(decreases_to!(arms@ => arms@[i as int]));
                    assert(decreases_to!(arms@[i as int] => arms@[i as int].0));
                    assert(decreases_to!(arms@[i as int] => arms@[i as int].1));
                }
                let p = clone_patn(&arms[i].0);
                let b = clone_expr(&arms[i].1);
                proof {
                    lemma_arms_view_push(out@, (p, b));
                    lemma_arms_view_push(arms@.subrange(0, i as int), arms@[i as int]);
                    assert(arms@.subrange(0, i as int).push(arms@[i as int]) =~= arms@.subrange(
                        0,
                        i as int + 1,
                    ));
                }
                out.push((p, b));
                i = i + 1;
            }
            proof {
                assert(arms@.subrange(0, n as int) =~= arms@);
            }
            Expr::Match(Box::new(scrutinee), out)
        },
        Expr::Scoped(decls, b) => Expr::Scoped(clone_decls(decls), Box::new(clone_expr(b))),
    }
}

/// Copy a pattern; the copy has the same view.
pub fn clone_patn(p: &Patn) -> (r: Patn)
    ensures
        patn_view(r) == patn_view(*p),
    decreases *p,
{
    match p {
        Patn::Flat(atoms) => {
            let mut out: Vec<Atom<Patn>> = Vec::new();
            let n = atoms.len();
            let mut i: usize = 0;
            while i < n
                invariant
                    i <= n,
                    n == atoms@.len(),
                    decreases_to!(*p => atoms@),
                    patn_atoms_view(out@) == patn_atoms_view(atoms@.subrange(0, i as int)),
                decreases n - i,
            {
                proof {
                    assert(decreases_to!(atoms@ => atoms@[i as int]));
                }
                let c = clone_patn_atom(&atoms[i]);
                proof {
                    lemma_patn_atoms_view_push(out@, c);
                    lemma_patn_atoms_view_push(atoms@.subrange(0, i as int), atoms@[i as int]);
                    assert(atoms@.subrange(0, i as int).push(atoms@[i as int]) =~= atoms@.subrange(
                        0,
                        i as int + 1,
                    ));
                }
                out.push(c);
                i = i + 1;
            }
            proof {
                assert(atoms@.subrange(0, n as int) =~= atoms@);
            }
            Patn::Flat(out)
        },
        Patn::Scoped(decls, inner) => Patn::Scoped(clone_decls(decls), Box::new(clone_patn(inner))),
    }
}

/// Copy a signature element; the copy has the same view.
pub fn clone_sign(s: &Sign) -> (r: Sign)
    ensures
        sign_view(r) == sign_view(*s),
    decreases *s,
{
    match s {
        Sign::Word(id) => Sign::Word(clone_ident(id)),
        Sign::Patn(p) => Sign::Patn(Box::new(clone_patn(p))),
    }
}

/// Copy a signature; the copy has the same view.
pub fn clone_signs(sig: &Vec<Sign>) -> (r: Vec<Sign>)
    ensures
        signs_view(r@) == signs_view(sig@),
    decreases sig@,
{
    let mut out: Vec<Sign> = Vec::new();
    let n = sig.len();
    let mut i: usize = 0;
    while i < n
        invariant
            i <= n,
            n == sig@.len(),
            signs_view(out@) == signs_view(sig@.subrange(0, i as int)),
        decreases n - i,
    {
        let c = clone_sign(&sig[i]);
        proof {
            lemma_signs_view_push(out@, c);
            lemma_signs_view_push(sig@.subrange(0, i as int), sig@[i as int]);
            assert(sig@.subrange(0, i as int).push(sig@[i as int]) =~= sig@.subrange(
                0,
                i as int + 1,
            ));
        }
        out.push(c);
        i = i + 1;
    }
    proof {
        assert(sig@.subrange(0, n as int) =~= sig@);
    }
    out
}

/// Copy a declaration; the copy has the same view.
pub fn clone_decl(d: &Decl) -> (r: Decl)
    ensures
        decl_view(r) == decl_view(*d),
    decreases *d,
{
    match d {
        Decl::Let(p, e) => Decl::Let(Box::new(clone_patn(p)), Box::new(clone_expr(e))),
        Decl::Def(sig, e) => Decl::Def(clone_signs(sig), Box::new(clone_expr(e))),
        Decl::Con(sig) => Decl::Con(clone_signs(sig)),
        Decl::Mod(id, body) => Decl::Mod(clone_ident(id), Box::new(clone_modl(body))),
        Decl::Use(body) => Decl::Use(Box::new(clone_modl(body))),
    }
}

/// Copy a declaration list; the copy has the same view.
pub fn clone_decls(decls: &Vec<Decl>) -> (r: Vec<Decl>)
    ensures
        decls_view(r@) == decls_view(decls@),
    decreases decls@,
{
    let mut out: Vec<Decl> = Vec::new();
    let n = decls.len();
    let mut i: usize = 0;
    while i < n
        invariant
            i <= n,
            n == decls@.len(),
            decls_view(out@) == decls_view(decls@.subrange(0, i as int)),
        decreases n - i,
    {
        let c = clone_decl(&decls[i]);
        proof {
            lemma_decls_view_push(out@, c);
            lemma_decls_view_push(decls@.subrange(0, i as int), decls@[i as int]);
            assert(decls@.subrange(0, i as int).push(decls@[i as int]) =~= decls@.subrange(
                0,
                i as int + 1,
            ));
        }
        out.push(c);
        i = i + 1;
    }
    proof {
        assert(decls@.subrange(0, n as int) =~= decls@);
    }
    out
}

/// Copy a dotted module reference; the copy has the same view.
pub fn clone_modl_path(p: &ModlPath) -> (r: ModlPath)
    ensures
        modl_path_view(r) == modl_path_view(*p),
{
    let mut out: Vec<Ident> = Vec::new();
    let n = p.path.len();
    let mut i: usize = 0;
    while i < n
        invariant
            i <= n,
            n == p.path@.len(),
            idents_view(out@) == idents_view(p.path@.subrange(0, i as int)),
        decreases n - i,
    {
        let c = clone_ident(&p.path[i]);
        proof {
            lemma_idents_view_push(out@, c);
            lemma_idents_view_push(p.path@.subrange(0, i as int), p.path@[i as int]);
            assert(p.path@.subrange(0, i as int).push(p.path@[i as int]) =~= p.path@.subrange(
                0,
                i as int + 1,
            ));
        }
        out.push(c);
        i = i + 1;
    }
    proof {
        assert(p.path@.subrange(0, n as int) =~= p.path@);
    }
    ModlPath { path: out, absolute: p.absolute }
}

/// Copy a module's raw syntax; the copy has the same view.
pub fn clone_modl(m: &Modl) -> (r: Modl)
    ensures
        modl_view(r) == modl_view(*m),
    decreases *m,
{
    match m {
        Modl::ModExp(decls) => Modl::ModExp(clone_decls(decls)),
        Modl::Named(path) => Modl::Named(clone_modl_path(path)),
    }
}

/// One storage per entity kind, holding each entity's raw syntax under its
/// handle. Module slots are written when the module is discovered; the other
/// slots are written as declarations are processed.
#[derive(Debug)]
pub struct AstStorage {
    pub expr: crate::storage::VecStorage<crate::refs::Expr, Expr>,
    pub patn: crate::storage::VecStorage<crate::refs::Patn, Patn>,
    pub decl: crate::storage::VecStorage<crate::refs::Decl, Decl>,
    pub cons: crate::storage::VecStorage<crate::refs::Cons, Decl>,
    pub modl: crate::storage::VecStorage<crate::refs::Modl, Modl>,
}

impl AstStorage {
    /// Empty storages: no entity of any kind has raw syntax yet.
    pub fn new() -> (s: AstStorage)
        ensures
            s.expr@.len() == 0,
            s.patn@.len() == 0,
            s.decl@.len() == 0,
            s.cons@.len() == 0,
            s.modl@.len() == 0,
    {
        AstStorage {
            expr: crate::storage::VecStorage::new(),
            patn: crate::storage::VecStorage::new(),
            decl: crate::storage::VecStorage::new(),
            cons: crate::storage::VecStorage::new(),
            modl: crate::storage::VecStorage::new(),
        }
    }
}

} // verus!
