//! The passes: per-file module-tree construction over a breadth-first
//! worklist, and the whole-program alias resolver that follows it.

use vstd::prelude::*;
use vstd::string::StrSliceExecFns;
use vstd::string::StringExecFns;

use crate::ast;
use crate::ctx::Context;
use crate::error::FridayError;
use crate::id::{table_contains, Ident, NameTable};
use crate::ir;
use crate::refs::ModlRef;

verus! {

/// The index of the last occurrence of `c` in `s`, or -1 if `c` does not
/// occur.
pub open spec fn last_index_of(s: Seq<char>, c: char) -> int
    decreases s.len(),
{
    if s.len() == 0 {
        -1
    } else if s[s.len() - 1] == c {
        s.len() - 1
    } else {
        last_index_of(s.drop_last(), c)
    }
}

/// Where the file name begins: right after the last directory separator.
pub open spec fn file_name_start(s: Seq<char>) -> int {
    last_index_of(s, '/') + 1
}

/// The path names a source file of this language: its file name is a
/// non-empty stem followed by the literal extension `.fri`.
pub open spec fn valid_fri_path(s: Seq<char>) -> bool {
    let dot = last_index_of(s, '.');
    dot > file_name_start(s) && s.subrange(dot, s.len() as int) =~= seq!['.', 'f', 'r', 'i']
}

/// The module's diagnostic name: the file name minus its extension.
pub open spec fn file_stem(s: Seq<char>) -> Seq<char> {
    s.subrange(file_name_start(s), last_index_of(s, '.'))
}

/// Extending the scanned prefix by one character moves the last occurrence
/// to that character's position exactly when it matches.
proof fn lemma_last_index_of_extend(s: Seq<char>, i: int, c: char)
    requires
        0 <= i < s.len(),
    ensures
        last_index_of(s.subrange(0, i + 1), c) == if s[i] == c {
            i
        } else {
            last_index_of(s.subrange(0, i), c)
        },
{
    let p = s.subrange(0, i + 1);
    assert(p.drop_last() =~= s.subrange(0, i));
    assert(p[p.len() - 1] == s[i]);
}

/// Validate that a path names a source file and derive the module's
/// diagnostic name from its file stem; any other path is an invalid
/// filename, fatal for that file only.
pub fn verify_file_path(path: &str) -> (r: Result<String, FridayError>)
    ensures
        match r {
            Ok(stem) => valid_fri_path(path@) && stem@ == file_stem(path@),
            Err(e) => !valid_fri_path(path@) && (e matches FridayError::InvalidFilename(p) && p@
                == path@),
        },
{
    let n = path.unicode_len();
    let mut start: usize = 0;
    let mut dot_plus: usize = 0;
    let mut i: usize = 0;
    proof {
        assert(path@.subrange(0, 0) =~= Seq::<char>::empty());
    }
    while i < n
        invariant
            i <= n,
            n == path@.len(),
            start <= i,
            dot_plus <= i,
            start as int == last_index_of(path@.subrange(0, i as int), '/') + 1,
            dot_plus as int == last_index_of(path@.subrange(0, i as int), '.') + 1,
        decreases n - i,
    {
        proof {
            lemma_last_index_of_extend(path@, i as int, '/');
            lemma_last_index_of_extend(path@, i as int, '.');
        }
        let c = path.get_char(i);
        if c == '/' {
            start = i + 1;
        }
        if c == '.' {
            dot_plus = i + 1;
        }
        i = i + 1;
    }
    proof {
        assert(path@.subrange(0, n as int) =~= path@);
    }
    if dot_plus >= 1 && dot_plus - 1 > start && n - (dot_plus - 1) == 4 {
        let dot = dot_plus - 1;
        if path.get_char(dot) == '.' && path.get_char(dot + 1) == 'f' && path.get_char(dot + 2)
            == 'r' && path.get_char(dot + 3) == 'i' {
            proof {
                assert(path@.subrange(dot as int, n as int) =~= seq!['.', 'f', 'r', 'i']);
            }
            let stem = path.substring_char(start, dot);
            return Ok(stem.to_owned());
        }
    }
    proof {
        if valid_fri_path(path@) {
            let d = last_index_of(path@, '.');
            assert(path@.subrange(d, n as int)[0] == path@[d]);
            assert(false);
        }
    }
    Err(FridayError::InvalidFilename(path.to_owned()))
}

/// The decimal digit character for `d`.
pub open spec fn digit_char(d: nat) -> char {
    if d == 0 {
        '0'
    } else if d == 1 {
        '1'
    } else if d == 2 {
        '2'
    } else if d == 3 {
        '3'
    } else if d == 4 {
        '4'
    } else if d == 5 {
        '5'
    } else if d == 6 {
        '6'
    } else if d == 7 {
        '7'
    } else if d == 8 {
        '8'
    } else {
        '9'
    }
}

/// The decimal digits of `n`, most significant first.
pub open spec fn dec_digits(n: nat) -> Seq<char>
    decreases n,
{
    if n < 10 {
        seq![digit_char(n)]
    } else {
        dec_digits(n / 10).push(digit_char(n % 10))
    }
}

/// The one-character text of a decimal digit.
fn digit_str(d: usize) -> (r: &'static str)
    requires
        d < 10,
    ensures
        r@ =~= seq![digit_char(d as nat)],
{
    proof {
        reveal_strlit("0");
        reveal_strlit("1");
        reveal_strlit("2");
        reveal_strlit("3");
        reveal_strlit("4");
        reveal_strlit("5");
        reveal_strlit("6");
        reveal_strlit("7");
        reveal_strlit("8");
        reveal_strlit("9");
    }
    if d == 0 {
        "0"
    } else if d == 1 {
        "1"
    } else if d == 2 {
        "2"
    } else if d == 3 {
        "3"
    } else if d == 4 {
        "4"
    } else if d == 5 {
        "5"
    } else if d == 6 {
        "6"
    } else if d == 7 {
        "7"
    } else if d == 8 {
        "8"
    } else {
        "9"
    }
}

/// Render `n` in decimal.
fn usize_to_string(n: usize) -> (r: String)
    ensures
        r@ == dec_digits(n as nat),
    decreases n,
{
    if n < 10 {
        let r = String::from_str(digit_str(n));
        proof {
            assert(r@ =~= dec_digits(n as nat));
        }
        r
    } else {
        let mut r = usize_to_string(n / 10);
        r.append(digit_str(n % 10));
        proof {
            assert(r@ =~= dec_digits(n as nat));
        }
        r
    }
}

/// The diagnostic name of a named submodule: `<parent>.<child>`.
pub open spec fn child_name_of(parent: Seq<char>, child: Seq<char>) -> Seq<char> {
    parent + seq!['.'] + child
}

/// The diagnostic name of an anonymous import: `<parent>.<anon N>`.
pub open spec fn anon_name_of(parent: Seq<char>, n: nat) -> Seq<char> {
    parent + seq!['.', '<', 'a', 'n', 'o', 'n'] + dec_digits(n) + seq!['>']
}

/// Build a named submodule's diagnostic name.
fn child_name(parent: &str, child: &str) -> (r: String)
    ensures
        r@ == child_name_of(parent@, child@),
{
    proof {
        reveal_strlit(".");
    }
    let mut r = String::from_str(parent);
    r.append(".");
    r.append(child);
    proof {
        assert(r@ =~= child_name_of(parent@, child@));
    }
    r
}

/// Build an anonymous import's diagnostic name.
fn anon_name(parent: &str, n: usize) -> (r: String)
    ensures
        r@ == anon_name_of(parent@, n as nat),
{
    proof {
        reveal_strlit(".<anon");
        reveal_strlit(">");
    }
    let mut r = String::from_str(parent);
    r.append(".<anon");
    let digits = usize_to_string(n);
    r.append(digits.as_str());
    r.append(">");
    proof {
        assert(r@ =~= anon_name_of(parent@, n as nat));
    }
    r
}

/// Intern one signature element: a keyword becomes its dense id, a pattern
/// slot keeps only its position.
pub fn sign_from_ast(names: &mut NameTable, s: &ast::Sign) -> (r: ir::Sign<()>)
    requires
        old(names).wf(),
    ensures
        final(names).wf(),
        old(names)@.is_prefix_of(final(names)@),
        match s {
            ast::Sign::Word(id) => r matches ir::Sign::Word(w) && w@ < final(names)@.len()
                && final(names)@[w@ as int] == id.0@ && final(names)@ == intern_text(
                old(names)@,
                id.0@,
            ),
            ast::Sign::Patn(_) => r == ir::Sign::<()>::Patn(()) && final(names)@ == old(names)@,
        },
{
    match s {
        ast::Sign::Word(id) => ir::Sign::Word(names.make_ident(id.0.as_str())),
        ast::Sign::Patn(_) => ir::Sign::Patn(()),
    }
}

/// The first index holding text `t` in the interner, or -1 if absent.
pub open spec fn name_index(names: Seq<Seq<char>>, t: Seq<char>) -> int
    decreases names.len(),
{
    if names.len() == 0 {
        -1
    } else if names[0] == t {
        0
    } else {
        let r = name_index(names.drop_first(), t);
        if r == -1 {
            -1
        } else {
            r + 1
        }
    }
}

/// `name_index` finds exactly the entries the table holds.
pub proof fn lemma_name_index_contains(names: Seq<Seq<char>>, t: Seq<char>)
    ensures
        table_contains(names, t) <==> name_index(names, t) >= 0,
        name_index(names, t) >= 0 ==> name_index(names, t) < names.len() && names[name_index(
            names,
            t,
        )] == t,
    decreases names.len(),
{
    if names.len() > 0 {
        lemma_name_index_contains(names.drop_first(), t);
        if names[0] == t {
        } else {
            assert forall|i: int| 0 <= i < names.len() && names[i] == t implies table_contains(
                names.drop_first(),
                t,
            ) by {
                assert(names.drop_first()[i - 1] == t);
            }
        }
    }
}

/// With no text stored twice, the index of a stored text is the position it
/// is stored at.
pub proof fn lemma_name_index_unique(names: Seq<Seq<char>>, i: int)
    requires
        crate::id::distinct_names(names),
        0 <= i < names.len(),
    ensures
        name_index(names, names[i]) == i,
    decreases names.len(),
{
    if i > 0 {
        assert(crate::id::distinct_names(names.drop_first()));
        lemma_name_index_unique(names.drop_first(), i - 1);
        assert(names.drop_first()[i - 1] == names[i]);
        assert(names[0] != names[i]);
    }
}

/// A text's index does not move when the table is extended.
pub proof fn lemma_name_index_stable(n1: Seq<Seq<char>>, n2: Seq<Seq<char>>, t: Seq<char>)
    requires
        n1.is_prefix_of(n2),
        table_contains(n1, t),
    ensures
        name_index(n2, t) == name_index(n1, t),
    decreases n1.len(),
{
    if n1.len() > 0 {
        if n1[0] == t {
            assert(n2[0] == t);
        } else {
            assert(n2[0] == n1[0]);
            assert forall|i: int| 0 <= i < n1.len() && n1[i] == t implies table_contains(
                n1.drop_first(),
                t,
            ) by {
                assert(n1.drop_first()[i - 1] == t);
            }
            assert(n1.drop_first().is_prefix_of(n2.drop_first()));
            lemma_name_index_stable(n1.drop_first(), n2.drop_first(), t);
            lemma_name_index_contains(n1.drop_first(), t);
        }
    }
}

/// Interning one text: the table is unchanged if the text is present,
/// extended by it otherwise.
pub open spec fn intern_text(names: Seq<Seq<char>>, t: Seq<char>) -> Seq<Seq<char>> {
    if table_contains(names, t) {
        names
    } else {
        names.push(t)
    }
}

/// Interning the keyword texts of a call signature, left to right.
pub open spec fn intern_sig(names: Seq<Seq<char>>, sig: Seq<ast::SignView>) -> Seq<Seq<char>>
    decreases sig.len(),
{
    if sig.len() == 0 {
        names
    } else {
        let names1 = match sig[0] {
            ast::SignView::Word(t) => intern_text(names, t),
            ast::SignView::Patn(_) => names,
        };
        intern_sig(names1, sig.drop_first())
    }
}

/// Every keyword text of `sig` is in the table.
pub open spec fn sig_words_contained(names: Seq<Seq<char>>, sig: Seq<ast::SignView>) -> bool {
    forall|k: int|
        0 <= k < sig.len() ==> match #[trigger] sig[k] {
            ast::SignView::Word(t) => table_contains(names, t),
            ast::SignView::Patn(_) => true,
        }
}

/// The interned form of a call signature, with keyword ids read off a table
/// that already contains every keyword: each keyword becomes its id, each
/// pattern slot a bare marker.
pub open spec fn sig_ids(names: Seq<Seq<char>>, sig: Seq<ast::SignView>) -> Seq<ir::Sign<()>> {
    Seq::new(
        sig.len(),
        |k: int|
            match sig[k] {
                ast::SignView::Word(t) => ir::Sign::Word(
                    Ident { id: name_index(names, t) as usize },
                ),
                ast::SignView::Patn(_) => ir::Sign::Patn(()),
            },
    )
}

/// Interned signatures do not change when the table grows.
pub proof fn lemma_sig_ids_stable(n1: Seq<Seq<char>>, n2: Seq<Seq<char>>, sig: Seq<ast::SignView>)
    requires
        n1.is_prefix_of(n2),
        sig_words_contained(n1, sig),
    ensures
        sig_ids(n2, sig) == sig_ids(n1, sig),
        sig_words_contained(n2, sig),
{
    assert forall|k: int| 0 <= k < sig.len() implies sig_ids(n2, sig)[k] == sig_ids(n1, sig)[k] by {
        match sig[k] {
            ast::SignView::Word(t) => {
                lemma_name_index_stable(n1, n2, t);
            },
            ast::SignView::Patn(_) => {},
        }
    }
    assert forall|k: int| 0 <= k < sig.len() implies match #[trigger] sig[k] {
        ast::SignView::Word(t) => table_contains(n2, t),
        ast::SignView::Patn(_) => true,
    } by {
        match sig[k] {
            ast::SignView::Word(t) => {
                let i = choose|i: int| 0 <= i < n1.len() && n1[i] == t;
                assert(n2[i] == t);
            },
            ast::SignView::Patn(_) => {},
        }
    }
    assert(sig_ids(n2, sig) =~= sig_ids(n1, sig));
}

/// What lowering a declaration list produces, besides handles: the final
/// interner contents; the raw syntax and signatures of the declarations and
/// constructors registered, in source order; and the bodies and names of the
/// child modules discovered, in source order (`None` marks an anonymous
/// import).
#[verifier::ext_equal]
pub struct BuildOut {
    pub names: Seq<Seq<char>>,
    pub defs: Seq<ast::DeclView>,
    pub defsigs: Seq<Option<Seq<ast::SignView>>>,
    pub cons: Seq<ast::DeclView>,
    pub consigs: Seq<Seq<ast::SignView>>,
    pub mods: Seq<ast::ModlView>,
    pub modnames: Seq<Option<Seq<char>>>,
}

/// Lowering an empty list produces nothing.
pub open spec fn build_init(names: Seq<Seq<char>>) -> BuildOut {
    BuildOut {
        names,
        defs: Seq::empty(),
        defsigs: Seq::empty(),
        cons: Seq::empty(),
        consigs: Seq::empty(),
        mods: Seq::empty(),
        modnames: Seq::empty(),
    }
}

/// How one declaration extends the outcome: a binding or definition joins
/// the declaration list (a definition also interning its signature), a
/// constructor joins the constructor list, a named submodule or anonymous
/// import contributes a child module body.
pub open spec fn build_step(o: BuildOut, d: ast::DeclView) -> BuildOut {
    match d {
        ast::DeclView::Let(_, _) => BuildOut {
            defs: o.defs.push(d),
            defsigs: o.defsigs.push(None),
            ..o
        },
        ast::DeclView::Def(sig, _) => BuildOut {
            names: intern_sig(o.names, sig),
            defs: o.defs.push(d),
            defsigs: o.defsigs.push(Some(sig)),
            ..o
        },
        ast::DeclView::Con(sig) => BuildOut {
            names: intern_sig(o.names, sig),
            cons: o.cons.push(d),
            consigs: o.consigs.push(sig),
            ..o
        },
        ast::DeclView::Mod(t, body) => BuildOut {
            names: intern_text(o.names, t),
            mods: o.mods.push(*body),
            modnames: o.modnames.push(Some(t)),
            ..o
        },
        ast::DeclView::Use(body) => BuildOut {
            mods: o.mods.push(*body),
            modnames: o.modnames.push(None),
            ..o
        },
    }
}

/// The outcome of lowering a declaration list, in source order.
pub open spec fn build_model(names: Seq<Seq<char>>, ds: Seq<ast::DeclView>) -> BuildOut
    decreases ds.len(),
{
    if ds.len() == 0 {
        build_init(names)
    } else {
        build_step(build_model(names, ds.drop_last()), ds.last())
    }
}

/// How many anonymous imports a child list has.
pub open spec fn count_none(modnames: Seq<Option<Seq<char>>>) -> nat
    decreases modnames.len(),
{
    if modnames.len() == 0 {
        0
    } else {
        count_none(modnames.drop_last()) + if modnames.last() is None {
            1nat
        } else {
            0nat
        }
    }
}

/// The diagnostic name a child module gets: derived from its own name for a
/// named submodule, generated from the count of earlier anonymous imports
/// for an anonymous one.
pub open spec fn deferred_name(parent: Seq<char>, modnames: Seq<Option<Seq<char>>>, k: int) -> Seq<
    char,
> {
    match modnames[k] {
        Some(t) => child_name_of(parent, t),
        None => anon_name_of(parent, count_none(modnames.subrange(0, k))),
    }
}

/// Which child handle a name id maps to after lowering: the last named
/// submodule with that name wins; anonymous imports never map.
pub open spec fn child_model_lookup(
    names: Seq<Seq<char>>,
    modnames: Seq<Option<Seq<char>>>,
    base: nat,
    id: nat,
) -> Option<nat>
    decreases modnames.len(),
{
    if modnames.len() == 0 {
        None
    } else {
        match modnames.last() {
            Some(t) => if name_index(names, t) == id {
                Some((base + modnames.len() - 1) as nat)
            } else {
                child_model_lookup(names, modnames.drop_last(), base, id)
            },
            None => child_model_lookup(names, modnames.drop_last(), base, id),
        }
    }
}

/// The declaration-side signature buckets after lowering: each definition,
/// in order, appended under its interned signature.
pub open spec fn decl_buckets_model(
    names: Seq<Seq<char>>,
    defsigs: Seq<Option<Seq<ast::SignView>>>,
    base: nat,
) -> Seq<(Seq<ir::Sign<()>>, Seq<nat>)>
    decreases defsigs.len(),
{
    if defsigs.len() == 0 {
        Seq::empty()
    } else {
        let prev = decl_buckets_model(names, defsigs.drop_last(), base);
        match defsigs.last() {
            Some(sig) => crate::symbol::bucket_insert(
                prev,
                sig_ids(names, sig),
                (base + defsigs.len() - 1) as nat,
            ),
            None => prev,
        }
    }
}

/// The constructor-side signature buckets after lowering.
pub open spec fn cons_buckets_model(
    names: Seq<Seq<char>>,
    consigs: Seq<Seq<ast::SignView>>,
    base: nat,
) -> Seq<(Seq<ir::Sign<()>>, Seq<nat>)>
    decreases consigs.len(),
{
    if consigs.len() == 0 {
        Seq::empty()
    } else {
        crate::symbol::bucket_insert(
            cons_buckets_model(names, consigs.drop_last(), base),
            sig_ids(names, consigs.last()),
            (base + consigs.len() - 1) as nat,
        )
    }
}

/// The handles of the registered (signature-indexed) declarations, in
/// overall registration order: every definition's handle, in source order.
pub open spec fn registered_order(
    defsigs: Seq<Option<Seq<ast::SignView>>>,
    base: nat,
) -> Seq<nat>
    decreases defsigs.len(),
{
    if defsigs.len() == 0 {
        Seq::empty()
    } else {
        let prev = registered_order(defsigs.drop_last(), base);
        match defsigs.last() {
            Some(_) => prev.push((base + defsigs.len() - 1) as nat),
            None => prev,
        }
    }
}

/// The size of a module's raw syntax: one for the node itself plus its
/// declarations, each counting any nested module body. Queued work shrinks
/// by this measure, which bounds both recursion and handle consumption.
pub open spec fn modl_size(m: ast::ModlView) -> nat
    decreases m,
{
    match m {
        ast::ModlView::ModExp(ds) => 1 + decls_size(ds),
        ast::ModlView::Named(_) => 1,
    }
}

/// The combined size of a declaration list.
pub open spec fn decls_size(ds: Seq<ast::DeclView>) -> nat
    decreases ds,
{
    if ds.len() == 0 {
        0
    } else {
        decls_size(ds.drop_last()) + decl_size(ds.last())
    }
}

/// The size of one declaration.
pub open spec fn decl_size(d: ast::DeclView) -> nat
    decreases d,
{
    match d {
        ast::DeclView::Let(_, _) => 1,
        ast::DeclView::Def(_, _) => 1,
        ast::DeclView::Con(_) => 1,
        ast::DeclView::Mod(_, body) => 1 + modl_size(*body),
        ast::DeclView::Use(body) => 1 + modl_size(*body),
    }
}

/// The combined size of a list of module bodies.
pub open spec fn mods_size(ms: Seq<ast::ModlView>) -> nat
    decreases ms.len(),
{
    if ms.len() == 0 {
        0
    } else {
        mods_size(ms.drop_last()) + modl_size(ms.last())
    }
}

/// Lowering a declaration list yields child bodies no larger, all told,
/// than the declarations they came from; every other output grows in step.
pub proof fn lemma_build_model_bounds(names: Seq<Seq<char>>, ds: Seq<ast::DeclView>)
    ensures
        mods_size(build_model(names, ds).mods) <= decls_size(ds),
        build_model(names, ds).defs.len() + mods_size(build_model(names, ds).mods) <= decls_size(
            ds,
        ),
        build_model(names, ds).cons.len() + mods_size(build_model(names, ds).mods) <= decls_size(
            ds,
        ),
        build_model(names, ds).mods.len() + mods_size(build_model(names, ds).mods) <= decls_size(
            ds,
        ),
        ds.len() <= decls_size(ds),
        build_model(names, ds).defs.len() <= ds.len(),
        build_model(names, ds).cons.len() <= ds.len(),
        build_model(names, ds).mods.len() <= ds.len(),
        build_model(names, ds).defsigs.len() == build_model(names, ds).defs.len(),
        build_model(names, ds).consigs.len() == build_model(names, ds).cons.len(),
        build_model(names, ds).modnames.len() == build_model(names, ds).mods.len(),
        names.is_prefix_of(build_model(names, ds).names),
    decreases ds.len(),
{
    if ds.len() > 0 {
        lemma_build_model_bounds(names, ds.drop_last());
        let o = build_model(names, ds.drop_last());
        match ds.last() {
            ast::DeclView::Mod(_, body) => {
                assert(o.mods.push(*body).drop_last() =~= o.mods);
                assert(o.mods.push(*body).last() == *body);
                assert(mods_size(o.mods.push(*body)) == mods_size(o.mods) + modl_size(*body));
                assert(decls_size(ds) == decls_size(ds.drop_last()) + decl_size(ds.last()));
            },
            ast::DeclView::Use(body) => {
                assert(o.mods.push(*body).drop_last() =~= o.mods);
                assert(o.mods.push(*body).last() == *body);
                assert(mods_size(o.mods.push(*body)) == mods_size(o.mods) + modl_size(*body));
                assert(decls_size(ds) == decls_size(ds.drop_last()) + decl_size(ds.last()));
            },
            ast::DeclView::Def(sig, _) => {
                lemma_intern_sig_prefix(o.names, sig);
                assert(decls_size(ds) == decls_size(ds.drop_last()) + decl_size(ds.last()));
            },
            ast::DeclView::Con(sig) => {
                lemma_intern_sig_prefix(o.names, sig);
                assert(decls_size(ds) == decls_size(ds.drop_last()) + decl_size(ds.last()));
            },
            ast::DeclView::Let(_, _) => {
                assert(decls_size(ds) == decls_size(ds.drop_last()) + decl_size(ds.last()));
            },
        }
    }
}

/// Interning a signature only ever extends the table, keeps it free of
/// duplicates, and leaves every keyword of the signature in it.
pub proof fn lemma_intern_sig_prefix(names: Seq<Seq<char>>, sig: Seq<ast::SignView>)
    ensures
        names.is_prefix_of(intern_sig(names, sig)),
        crate::id::distinct_names(names) ==> crate::id::distinct_names(intern_sig(names, sig)),
    decreases sig.len(),
{
    if sig.len() > 0 {
        match sig[0] {
            ast::SignView::Word(t) => {
                lemma_intern_text_prefix(names, t);
                lemma_intern_sig_prefix(intern_text(names, t), sig.drop_first());
            },
            ast::SignView::Patn(_) => {
                lemma_intern_sig_prefix(names, sig.drop_first());
            },
        }
    }
}

/// Interning one text only ever extends the table and keeps it free of
/// duplicates.
pub proof fn lemma_intern_text_prefix(names: Seq<Seq<char>>, t: Seq<char>)
    ensures
        names.is_prefix_of(intern_text(names, t)),
        crate::id::distinct_names(names) ==> crate::id::distinct_names(intern_text(names, t)),
        table_contains(intern_text(names, t), t),
{
    if !table_contains(names, t) {
        let u = names.push(t);
        assert(u[u.len() - 1] == t);
        if crate::id::distinct_names(names) {
            assert forall|i: int, j: int| 0 <= i < j < u.len() implies u[i] != u[j] by {
                if j == u.len() - 1 {
                    assert(!(exists|k: int| 0 <= k < names.len() && names[k] == t));
                    assert(u[i] == names[i]);
                }
            }
        }
    } else {
        let i = choose|i: int| 0 <= i < names.len() && names[i] == t;
        assert(intern_text(names, t)[i] == t);
    }
}

/// Interning one more signature element extends a left-to-right interning.
pub proof fn lemma_intern_sig_push(
    names: Seq<Seq<char>>,
    sig: Seq<ast::SignView>,
    x: ast::SignView,
)
    ensures
        intern_sig(names, sig.push(x)) == (match x {
            ast::SignView::Word(t) => intern_text(intern_sig(names, sig), t),
            ast::SignView::Patn(_) => intern_sig(names, sig),
        }),
    decreases sig.len(),
{
    if sig.len() == 0 {
        assert(sig.push(x).drop_first() =~= sig);
        assert(sig.push(x)[0] == x);
        match x {
            ast::SignView::Word(t) => {
                assert(intern_sig(names, sig.push(x)) == intern_sig(intern_text(names, t), sig));
            },
            ast::SignView::Patn(_) => {
                assert(intern_sig(names, sig.push(x)) == intern_sig(names, sig));
            },
        }
    } else {
        assert(sig.push(x)[0] == sig[0]);
        assert(sig.push(x).drop_first() =~= sig.drop_first().push(x));
        match sig[0] {
            ast::SignView::Word(t) => {
                lemma_intern_sig_push(intern_text(names, t), sig.drop_first(), x);
            },
            ast::SignView::Patn(_) => {
                lemma_intern_sig_push(names, sig.drop_first(), x);
            },
        }
    }
}

/// Declaration buckets do not change when the interner grows, as long as it
/// already holds every keyword of the recorded signatures.
pub proof fn lemma_decl_buckets_stable(
    n1: Seq<Seq<char>>,
    n2: Seq<Seq<char>>,
    defsigs: Seq<Option<Seq<ast::SignView>>>,
    base: nat,
)
    requires
        n1.is_prefix_of(n2),
        forall|k: int|
            0 <= k < defsigs.len() ==> match #[trigger] defsigs[k] {
                Some(sig) => sig_words_contained(n1, sig),
                None => true,
            },
    ensures
        decl_buckets_model(n2, defsigs, base) == decl_buckets_model(n1, defsigs, base),
    decreases defsigs.len(),
{
    if defsigs.len() > 0 {
        assert forall|k: int| 0 <= k < defsigs.drop_last().len() implies match #[trigger] defsigs.drop_last()[k] {
            Some(sig) => sig_words_contained(n1, sig),
            None => true,
        } by {
            assert(defsigs.drop_last()[k] == defsigs[k]);
        }
        lemma_decl_buckets_stable(n1, n2, defsigs.drop_last(), base);
        match defsigs.last() {
            Some(sig) => {
                lemma_sig_ids_stable(n1, n2, sig);
            },
            None => {},
        }
    }
}

/// Constructor buckets do not change when the interner grows, as long as it
/// already holds every keyword of the recorded signatures.
pub proof fn lemma_cons_buckets_stable(
    n1: Seq<Seq<char>>,
    n2: Seq<Seq<char>>,
    consigs: Seq<Seq<ast::SignView>>,
    base: nat,
)
    requires
        n1.is_prefix_of(n2),
        forall|k: int| 0 <= k < consigs.len() ==> sig_words_contained(n1, #[trigger] consigs[k]),
    ensures
        cons_buckets_model(n2, consigs, base) == cons_buckets_model(n1, consigs, base),
    decreases consigs.len(),
{
    if consigs.len() > 0 {
        assert forall|k: int| 0 <= k < consigs.drop_last().len() implies sig_words_contained(
            n1,
            #[trigger] consigs.drop_last()[k],
        ) by {
            assert(consigs.drop_last()[k] == consigs[k]);
        }
        lemma_cons_buckets_stable(n1, n2, consigs.drop_last(), base);
        lemma_sig_ids_stable(n1, n2, consigs.last());
    }
}

/// The child map does not change when the interner grows, as long as it
/// already holds every recorded child name.
pub proof fn lemma_child_model_stable(
    n1: Seq<Seq<char>>,
    n2: Seq<Seq<char>>,
    modnames: Seq<Option<Seq<char>>>,
    base: nat,
)
    requires
        n1.is_prefix_of(n2),
        forall|k: int|
            0 <= k < modnames.len() ==> match #[trigger] modnames[k] {
                Some(t) => table_contains(n1, t),
                None => true,
            },
    ensures
        forall|id: nat|
            #[trigger] child_model_lookup(n2, modnames, base, id) == child_model_lookup(
                n1,
                modnames,
                base,
                id,
            ),
    decreases modnames.len(),
{
    if modnames.len() > 0 {
        assert forall|k: int| 0 <= k < modnames.drop_last().len() implies match #[trigger] modnames.drop_last()[k] {
            Some(t) => table_contains(n1, t),
            None => true,
        } by {
            assert(modnames.drop_last()[k] == modnames[k]);
        }
        lemma_child_model_stable(n1, n2, modnames.drop_last(), base);
        match modnames.last() {
            Some(t) => {
                lemma_name_index_stable(n1, n2, t);
            },
            None => {},
        }
        assert forall|id: nat| #[trigger] child_model_lookup(n2, modnames, base, id)
            == child_model_lookup(n1, modnames, base, id) by {
            assert(child_model_lookup(n2, modnames.drop_last(), base, id) == child_model_lookup(
                n1,
                modnames.drop_last(),
                base,
                id,
            ));
        }
    }
}

/// A pending module-processing task: the module's diagnostic name, the
/// module whose scope it inherits, and its pre-allocated handle, whose raw
/// syntax is already stored.
#[derive(Debug)]
pub struct DeferredModl {
    pub name: String,
    pub parent: ModlRef,
    pub modl_ref: ModlRef,
}

/// Interning a list of texts, left to right.
pub open spec fn intern_texts(names: Seq<Seq<char>>, ts: Seq<Seq<char>>) -> Seq<Seq<char>>
    decreases ts.len(),
{
    if ts.len() == 0 {
        names
    } else {
        intern_texts(intern_text(names, ts[0]), ts.drop_first())
    }
}

/// Interning one more text extends a left-to-right interning.
pub proof fn lemma_intern_texts_push(names: Seq<Seq<char>>, ts: Seq<Seq<char>>, x: Seq<char>)
    ensures
        intern_texts(names, ts.push(x)) == intern_text(intern_texts(names, ts), x),
    decreases ts.len(),
{
    if ts.len() == 0 {
        assert(ts.push(x).drop_first() =~= ts);
        assert(ts.push(x)[0] == x);
        assert(intern_texts(names, ts.push(x)) == intern_texts(intern_text(names, x), ts));
    } else {
        assert(ts.push(x)[0] == ts[0]);
        assert(ts.push(x).drop_first() =~= ts.drop_first().push(x));
        lemma_intern_texts_push(intern_text(names, ts[0]), ts.drop_first(), x);
    }
}

/// What never changes across one module's processing: the other entity
/// kinds' counters and storages, the lowered storages of every kind but
/// modules, and the global module handle; the interner only grows.
pub open spec fn untouched_outcome(pre: Context, post: Context) -> bool {
    &&& post.global_modl == pre.global_modl
    &&& post.refs.expr@ == pre.refs.expr@
    &&& post.refs.patn@ == pre.refs.patn@
    &&& post.ast.expr@ == pre.ast.expr@
    &&& post.ast.patn@ == pre.ast.patn@
    &&& post.ir.expr@ == pre.ir.expr@
    &&& post.ir.patn@ == pre.ir.patn@
    &&& post.ir.decl@ == pre.ir.decl@
    &&& post.ir.cons@ == pre.ir.cons@
    &&& pre.names@.is_prefix_of(post.names@)
}

/// How the module storage's length grows when slot `at` is written.
pub open spec fn grown_len(pre_len: nat, at: nat) -> nat {
    if at + 1 > pre_len {
        at + 1
    } else {
        pre_len
    }
}

/// Processing a named module reference writes exactly one alias record: its
/// defining scope is the global module for an absolute path and the queued
/// parent otherwise, its target is still unresolved, and its path is the
/// reference's identifier sequence, interned in order. Nothing else changes.
pub open spec fn alias_outcome(
    pre: Context,
    post: Context,
    m: DeferredModl,
    p: ast::ModlPathView,
) -> bool {
    &&& post.refs.decl@ == pre.refs.decl@
    &&& post.refs.cons@ == pre.refs.cons@
    &&& post.refs.modl@ == pre.refs.modl@
    &&& post.ast.decl@ == pre.ast.decl@
    &&& post.ast.cons@ == pre.ast.cons@
    &&& post.ast.modl@ == pre.ast.modl@
    &&& post.names@ == intern_texts(pre.names@, p.path)
    &&& post.ir.modl@.len() == grown_len(pre.ir.modl@.len(), m.modl_ref@)
    &&& forall|i: int|
        0 <= i < post.ir.modl@.len() && i != m.modl_ref@ ==> post.ir.modl@[i] == (if i
            < pre.ir.modl@.len() {
            pre.ir.modl@[i]
        } else {
            None
        })
    &&& post.ir.modl@[m.modl_ref@ as int] matches Some(pm) && pm matches ir::Modl::Alias(a) && {
        &&& a.name@ == m.name@
        &&& a.scope@ == if p.absolute {
            pre.global_modl@
        } else {
            m.parent@
        }
        &&& a.aliased is None
        &&& a.path@.len() == p.path.len()
        &&& forall|k: int|
            0 <= k < a.path@.len() ==> (#[trigger] a.path@[k])@ < post.names@.len()
                && post.names@[a.path@[k]@ as int] == p.path[k]
    }
}

/// The module entry at `i` is the record lowered from the declaration list
/// `ds`, with handles issued from the given counter bases and keyword ids
/// read off the interner that lowering extended from `names0`: declaration
/// and constructor handles consecutive in source order with their raw syntax
/// stored under them, signature buckets and registration order per the
/// lowering model, and the child map giving the last named submodule per
/// name, children's bodies stored under consecutive fresh module handles.
pub open spec fn record_entry_lowering(
    post: Context,
    i: int,
    names0: Seq<Seq<char>>,
    d0: nat,
    c0: nat,
    m0: nat,
    ds: Seq<ast::DeclView>,
) -> bool {
    let o = build_model(names0, ds);
    &&& 0 <= i < post.ir.modl@.len()
    &&& names0.is_prefix_of(post.names@)
    &&& o.names.is_prefix_of(post.names@)
    &&& post.ir.modl@[i] matches Some(pm) && pm matches ir::Modl::Record(r) && {
        &&& crate::refs::refs_view(r.decls@) == Seq::new(o.defs.len(), |k: int| (d0 + k) as nat)
        &&& crate::refs::refs_view(r.cons@) == Seq::new(o.cons.len(), |k: int| (c0 + k) as nat)
        &&& r.symbols@.decls == decl_buckets_model(o.names, o.defsigs, d0)
        &&& r.symbols@.cons == cons_buckets_model(o.names, o.consigs, c0)
        &&& r.symbols@.decl_order == registered_order(o.defsigs, d0)
        &&& r.symbols@.cons_order == Seq::new(o.cons.len(), |k: int| (c0 + k) as nat)
        &&& forall|id: nat|
            #[trigger] crate::ir::child_lookup(r.children@, id) == child_model_lookup(
                o.names,
                o.modnames,
                m0,
                id,
            )
    }
    &&& forall|k: int|
        0 <= k < o.defs.len() ==> d0 + k < post.ast.decl@.len() && post.ast.decl@[d0 + k] is Some
            && crate::ast::decl_view(#[trigger] post.ast.decl@[d0 + k].unwrap()) == o.defs[k]
    &&& forall|k: int|
        0 <= k < o.cons.len() ==> c0 + k < post.ast.cons@.len() && post.ast.cons@[c0 + k] is Some
            && crate::ast::decl_view(#[trigger] post.ast.cons@[c0 + k].unwrap()) == o.cons[k]
    &&& forall|k: int|
        0 <= k < o.mods.len() ==> m0 + k < post.ast.modl@.len() && post.ast.modl@[m0 + k] is Some
            && crate::ast::modl_view(#[trigger] post.ast.modl@[m0 + k].unwrap()) == o.mods[k]
}

/// The module entry at `i` is the faithful lowering of its stored raw
/// syntax: a module expression became the record its declarations prescribe,
/// for the counter bases in force when it was processed; a named reference
/// became an alias carrying exactly its interned path, anchored at the
/// global module when absolute.
pub open spec fn entry_lowered(post: Context, i: int) -> bool {
    &&& 0 <= i < post.ast.modl@.len() && post.ast.modl@[i] is Some
    &&& 0 <= i < post.ir.modl@.len() && post.ir.modl@[i] is Some
    &&& match crate::ast::modl_view(post.ast.modl@[i].unwrap()) {
        ast::ModlView::ModExp(ds) => exists|names0: Seq<Seq<char>>, d0: nat, c0: nat, m0: nat|
            #[trigger] record_entry_lowering(post, i, names0, d0, c0, m0, ds),
        ast::ModlView::Named(p) => post.ir.modl@[i].unwrap() matches ir::Modl::Alias(a) && {
            &&& a.path@.len() == p.path.len()
            &&& forall|k: int|
                0 <= k < a.path@.len() ==> (#[trigger] a.path@[k])@ < post.names@.len()
                    && post.names@[a.path@[k]@ as int] == p.path[k]
            &&& (p.absolute ==> a.scope@ == post.global_modl@)
        },
    }
}

/// Processing a module expression writes exactly one module record, whose
/// scope begins with the queued parent. Its declarations and constructors
/// receive consecutive fresh handles in source order and their raw syntax is
/// stored under them; definitions and constructors are indexed by interned
/// call shape; named submodules enter the child map, last writer winning;
/// and each nested module body is stored under a fresh module handle and
/// queued, never processed inline.
pub open spec fn record_outcome(
    pre: Context,
    post: Context,
    m: DeferredModl,
    ds: Seq<ast::DeclView>,
    deferred: Seq<DeferredModl>,
) -> bool {
    let o = build_model(pre.names@, ds);
    let d0 = pre.refs.decl@;
    let c0 = pre.refs.cons@;
    let m0 = pre.refs.modl@;
    &&& post.names@ == o.names
    &&& post.refs.decl@ == d0 + o.defs.len()
    &&& post.refs.cons@ == c0 + o.cons.len()
    &&& post.refs.modl@ == m0 + o.mods.len()
    &&& forall|i: int| 0 <= i < pre.ast.decl@.len() ==> post.ast.decl@[i] == pre.ast.decl@[i]
    &&& forall|i: int| 0 <= i < pre.ast.cons@.len() ==> post.ast.cons@[i] == pre.ast.cons@[i]
    &&& forall|i: int| 0 <= i < pre.ast.modl@.len() ==> post.ast.modl@[i] == pre.ast.modl@[i]
    &&& pre.ast.decl@.len() <= post.ast.decl@.len()
    &&& pre.ast.cons@.len() <= post.ast.cons@.len()
    &&& pre.ast.modl@.len() <= post.ast.modl@.len()
    &&& record_entry_lowering(post, m.modl_ref@ as int, pre.names@, d0, c0, m0, ds)
    &&& post.ir.modl@.len() == grown_len(pre.ir.modl@.len(), m.modl_ref@)
    &&& forall|i: int|
        0 <= i < post.ir.modl@.len() && i != m.modl_ref@ ==> post.ir.modl@[i] == (if i
            < pre.ir.modl@.len() {
            pre.ir.modl@[i]
        } else {
            None
        })
    &&& post.ir.modl@[m.modl_ref@ as int] matches Some(pm) && pm matches ir::Modl::Record(r) && {
        &&& r.name@ == m.name@
        &&& crate::refs::refs_view(r.scope@) == seq![m.parent@]
    }
    &&& deferred.len() == o.mods.len()
    &&& forall|k: int|
        0 <= k < deferred.len() ==> (#[trigger] deferred[k]).modl_ref@ == m0 + k
            && deferred[k].parent@ == m.modl_ref@ && deferred[k].name@ == deferred_name(
            m.name@,
            o.modnames,
            k,
        )
}

/// Old module entries stay well formed when one unpopulated slot is written
/// with a well-formed entry and the counters only grow.
proof fn lemma_wf_preserved(
    ir1: Seq<Option<ir::Modl>>,
    ir2: Seq<Option<ir::Modl>>,
    at: int,
    n_m1: nat,
    n_d1: nat,
    n_c1: nat,
    n_m2: nat,
    n_d2: nat,
    n_c2: nat,
)
    requires
        forall|i: int| 0 <= i < ir1.len() ==> crate::ctx::modl_entry_wf(ir1, i, n_m1, n_d1, n_c1),
        n_m1 <= n_m2,
        n_d1 <= n_d2,
        n_c1 <= n_c2,
        0 <= at,
        ir2.len() == grown_len(ir1.len(), at as nat),
        forall|i: int|
            0 <= i < ir2.len() && i != at ==> ir2[i] == (if i < ir1.len() {
                ir1[i]
            } else {
                None
            }),
        at < ir1.len() ==> ir1[at as int] is None,
        crate::ctx::modl_entry_wf(ir2, at, n_m2, n_d2, n_c2),
    ensures
        forall|i: int| 0 <= i < ir2.len() ==> crate::ctx::modl_entry_wf(ir2, i, n_m2, n_d2, n_c2),
{
    assert forall|i: int| 0 <= i < ir2.len() implies crate::ctx::modl_entry_wf(
        ir2,
        i,
        n_m2,
        n_d2,
        n_c2,
    ) by {
        if i != at {
            if i < ir1.len() {
                assert(crate::ctx::modl_entry_wf(ir1, i, n_m1, n_d1, n_c1));
                match ir2[i] {
                    Some(m) => match m {
                        ir::Modl::Record(r) => {
                            assert forall|k: int| 0 <= k < r.scope@.len() implies (
                            #[trigger] r.scope@[k])@ < i && crate::ctx::is_record(
                                ir2,
                                r.scope@[k]@ as int,
                            ) by {
                                assert(crate::ctx::is_record(ir1, r.scope@[k]@ as int));
                            }
                        },
                        ir::Modl::Alias(a) => {
                            assert(crate::ctx::is_record(ir1, a.scope@ as int));
                        },
                    },
                    None => {},
                }
            }
        }
    }
}

/// Intern a whole call signature: keywords become their dense ids, pattern
/// slots bare markers, with the table extended left to right.
pub fn intern_signature(names: &mut NameTable, sig: &Vec<ast::Sign>) -> (r: Vec<ir::Sign<()>>)
    requires
        old(names).wf(),
    ensures
        final(names).wf(),
        old(names)@.is_prefix_of(final(names)@),
        final(names)@ == intern_sig(old(names)@, crate::ast::signs_view(sig@)),
        r@ == sig_ids(final(names)@, crate::ast::signs_view(sig@)),
        sig_words_contained(final(names)@, crate::ast::signs_view(sig@)),
{
    let ghost names0 = names@;
    let ghost sv = crate::ast::signs_view(sig@);
    proof {
        crate::ast::lemma_signs_view_len(sig@);
        assert(sv.subrange(0, 0) =~= Seq::<ast::SignView>::empty());
        assert(sig_ids(names@, sv.subrange(0, 0)) =~= Seq::<ir::Sign<()>>::empty());
    }
    let n = sig.len();
    let mut r: Vec<ir::Sign<()>> = Vec::new();
    let mut k: usize = 0;
    while k < n
        invariant
            k <= n,
            n == sig@.len(),
            sv == crate::ast::signs_view(sig@),
            sv.len() == n,
            names.wf(),
            names0.is_prefix_of(names@),
            names@ == intern_sig(names0, sv.subrange(0, k as int)),
            r@ == sig_ids(names@, sv.subrange(0, k as int)),
            sig_words_contained(names@, sv.subrange(0, k as int)),
        decreases n - k,
    {
        let ghost names_k = names@;
        proof {
            crate::ast::lemma_signs_view_index(sig@, k as int);
            lemma_intern_sig_push(names0, sv.subrange(0, k as int), sv[k as int]);
            assert(sv.subrange(0, k as int).push(sv[k as int]) =~= sv.subrange(0, k as int + 1));
        }
        let s = sign_from_ast(names, &sig[k]);
        r.push(s);
        proof {
            lemma_sig_ids_stable(names_k, names@, sv.subrange(0, k as int));
            match sig@[k as int] {
                ast::Sign::Word(idt) => {
                    let w = s->Word_0;
                    lemma_name_index_unique(names@, w@ as int);
                    assert(name_index(names@, idt.0@) == w@ as int);
                    assert(table_contains(names@, idt.0@));
                },
                ast::Sign::Patn(_) => {},
            }
            assert(r@ =~= sig_ids(names@, sv.subrange(0, k as int + 1)));
            assert forall|j: int| 0 <= j < k as int + 1 implies match #[trigger] sv.subrange(
                0,
                k as int + 1,
            )[j] {
                ast::SignView::Word(t) => table_contains(names@, t),
                ast::SignView::Patn(_) => true,
            } by {
                if j < k as int {
                    assert(sv.subrange(0, k as int + 1)[j] == sv.subrange(0, k as int)[j]);
                }
            }
        }
        k = k + 1;
    }
    proof {
        assert(sv.subrange(0, n as int) =~= sv);
    }
    r
}

/// Process one queued module, given its pre-stored raw syntax. A named
/// module reference becomes an alias record (resolution is deferred entirely
/// to the alias resolver). A module expression becomes a module record whose
/// scope begins with the queued parent; its declarations are processed
/// strictly in source order, and each nested module or anonymous import is
/// stored under a fresh handle and returned as deferred work, never
/// processed inline, so that no two modules are ever open at once.
#[verifier::rlimit(100)]
pub fn process_modl_ast(ctx: &mut Context, modl: DeferredModl) -> (r: Result<
    Vec<DeferredModl>,
    FridayError,
>)
    requires
        old(ctx).wf(),
        modl.modl_ref@ < old(ctx).ast.modl@.len(),
        old(ctx).ast.modl@[modl.modl_ref@ as int] is Some,
        modl.modl_ref@ < old(ctx).ir.modl@.len() ==> old(ctx).ir.modl@[modl.modl_ref@ as int]
            is None,
        crate::ctx::is_record(old(ctx).ir.modl@, modl.parent@ as int),
        modl.parent@ < modl.modl_ref@,
        old(ctx).global_modl@ < modl.modl_ref@,
        (crate::ast::modl_view(old(ctx).ast.modl@[modl.modl_ref@ as int].unwrap())
            matches ast::ModlView::ModExp(ds) ==> old(ctx).refs.decl@ + ds.len() <= usize::MAX
            && old(ctx).refs.cons@ + ds.len() <= usize::MAX && old(ctx).refs.modl@ + ds.len()
            <= usize::MAX),
        (crate::ast::modl_view(old(ctx).ast.modl@[modl.modl_ref@ as int].unwrap())
            matches ast::ModlView::Named(p) ==> p.path.len() >= 1),
    ensures
        final(ctx).wf(),
        untouched_outcome(*old(ctx), *final(ctx)),
        r is Ok,
        (crate::ast::modl_view(old(ctx).ast.modl@[modl.modl_ref@ as int].unwrap())
            matches ast::ModlView::Named(p) ==> alias_outcome(*old(ctx), *final(ctx), modl, p)
            && r.unwrap()@.len() == 0),
        (crate::ast::modl_view(old(ctx).ast.modl@[modl.modl_ref@ as int].unwrap())
            matches ast::ModlView::ModExp(ds) ==> record_outcome(
            *old(ctx),
            *final(ctx),
            modl,
            ds,
            r.unwrap()@,
        )),
{
    let ghost pre = *ctx;
    let DeferredModl { name, parent, modl_ref } = modl;

    let modl_ast: ast::Modl = match ctx.ast.modl.get(modl_ref) {
        Some(m) => crate::ast::clone_modl(m),
        None => vstd::pervasive::unreached(),
    };
    proof {
        assert(crate::ast::modl_view(modl_ast) == crate::ast::modl_view(
            pre.ast.modl@[modl_ref@ as int].unwrap(),
        ));
    }

    match modl_ast {
        ast::Modl::Named(modl_path) => {
            let ghost pv = crate::ast::modl_path_view(modl_path);
            let scope = if modl_path.absolute {
                ctx.global_modl()
            } else {
                parent
            };
            let ghost ts = pv.path;
            proof {
                assert(ts.subrange(0, 0) =~= Seq::<Seq<char>>::empty());
            }
            let n = modl_path.path.len();
            proof {
                crate::ast::lemma_idents_view_len(modl_path.path@);
            }
            let mut path: Vec<Ident> = Vec::new();
            let mut k: usize = 0;
            while k < n
                invariant
                    k <= n,
                    n == modl_path.path@.len(),
                    ts == crate::ast::idents_view(modl_path.path@),
                    ts.len() == n,
                    ctx.names.wf(),
                    pre.names@.is_prefix_of(ctx.names@),
                    ctx.names@ == intern_texts(pre.names@, ts.subrange(0, k as int)),
                    path@.len() == k,
                    forall|j: int|
                        0 <= j < k ==> (#[trigger] path@[j])@ < ctx.names@.len()
                            && ctx.names@[path@[j]@ as int] == ts[j],
                    ctx.refs == pre.refs,
                    ctx.ast == pre.ast,
                    ctx.ir == pre.ir,
                    ctx.global_modl == pre.global_modl,
                decreases n - k,
            {
                let ghost names_k = ctx.names@;
                proof {
                    crate::ast::lemma_idents_view_index(modl_path.path@, k as int);
                    lemma_intern_texts_push(pre.names@, ts.subrange(0, k as int), ts[k as int]);
                    assert(ts.subrange(0, k as int).push(ts[k as int]) =~= ts.subrange(
                        0,
                        k as int + 1,
                    ));
                }
                let id = ctx.names.make_ident(modl_path.path[k].0.as_str());
                path.push(id);
                proof {
                    assert(ctx.names@ == intern_text(names_k, ts[k as int]));
                    assert forall|j: int| 0 <= j < k as int + 1 implies (#[trigger] path@[j])@
                        < ctx.names@.len() && ctx.names@[path@[j]@ as int] == ts[j] by {
                        if j < k as int {
                            assert(ctx.names@[path@[j]@ as int] == names_k[path@[j]@ as int]);
                        }
                    }
                }
                k = k + 1;
            }
            proof {
                assert(ts.subrange(0, n as int) =~= ts);
            }
            let alias = ir::ModlAlias { name, scope, aliased: None, path };
            let ghost ir1 = ctx.ir.modl@;
            ctx.ir.modl.set(modl_ref, ir::Modl::Alias(alias));
            proof {
                assert(crate::ctx::modl_entry_wf(
                    ctx.ir.modl@,
                    modl_ref@ as int,
                    ctx.refs.modl@,
                    ctx.refs.decl@,
                    ctx.refs.cons@,
                )) by {
                    assert(crate::ctx::is_record(ir1, scope@ as int));
                    assert(ctx.ir.modl@[scope@ as int] == ir1[scope@ as int]);
                }
                lemma_wf_preserved(
                    ir1,
                    ctx.ir.modl@,
                    modl_ref@ as int,
                    pre.refs.modl@,
                    pre.refs.decl@,
                    pre.refs.cons@,
                    ctx.refs.modl@,
                    ctx.refs.decl@,
                    ctx.refs.cons@,
                );
                assert(crate::ctx::is_record(ctx.ir.modl@, ctx.global_modl@ as int));
            }
            Ok(Vec::new())
        },
        ast::Modl::ModExp(decls) => {
            let ghost ds0 = crate::ast::decls_view(decls@);
            let ghost d0 = pre.refs.decl@;
            let ghost c0 = pre.refs.cons@;
            let ghost m0 = pre.refs.modl@;
            proof {
                crate::ast::lemma_decls_view_len(decls@);
                assert(ds0.subrange(0, 0) =~= Seq::<ast::DeclView>::empty());
            }
            let n = decls.len();
            let mut record = ir::ModlRecord::new(name.clone());
            record.scope.push(parent);
            proof {
                assert(crate::refs::refs_view(record.scope@) =~= seq![parent@]);
            }
            let mut deferred: Vec<DeferredModl> = Vec::new();
            let mut anon_ctr: usize = 0;
            let mut i: usize = 0;
            while i < n
                invariant
                    i <= n,
                    n == decls@.len(),
                    name@ == modl.name@,
                    parent == modl.parent,
                    modl_ref == modl.modl_ref,
                    ds0 == crate::ast::decls_view(decls@),
                    ds0.len() == n,
                    d0 == pre.refs.decl@,
                    c0 == pre.refs.cons@,
                    m0 == pre.refs.modl@,
                    d0 + n <= usize::MAX,
                    c0 + n <= usize::MAX,
                    m0 + n <= usize::MAX,
                    modl_ref@ < pre.ast.modl@.len(),
                    pre.ast.modl@.len() <= m0,
                    pre.ast.decl@.len() <= d0,
                    pre.ast.cons@.len() <= c0,
                    ctx.names.wf(),
                    pre.names@.is_prefix_of(ctx.names@),
                    ctx.names@ == build_model(pre.names@, ds0.subrange(0, i as int)).names,
                    ctx.refs.decl@ == d0 + build_model(pre.names@, ds0.subrange(0, i as int)).defs.len(),
                    ctx.refs.cons@ == c0 + build_model(pre.names@, ds0.subrange(0, i as int)).cons.len(),
                    ctx.refs.modl@ == m0 + build_model(pre.names@, ds0.subrange(0, i as int)).mods.len(),
                    build_model(pre.names@, ds0.subrange(0, i as int)).defs.len() <= i,
                    build_model(pre.names@, ds0.subrange(0, i as int)).cons.len() <= i,
                    build_model(pre.names@, ds0.subrange(0, i as int)).mods.len() <= i,
                    build_model(pre.names@, ds0.subrange(0, i as int)).defsigs.len() == build_model(pre.names@, ds0.subrange(0, i as int)).defs.len(),
                    build_model(pre.names@, ds0.subrange(0, i as int)).consigs.len() == build_model(pre.names@, ds0.subrange(0, i as int)).cons.len(),
                    build_model(pre.names@, ds0.subrange(0, i as int)).modnames.len() == build_model(pre.names@, ds0.subrange(0, i as int)).mods.len(),
                    ctx.refs.expr@ == pre.refs.expr@,
                    ctx.refs.patn@ == pre.refs.patn@,
                    ctx.ast.expr@ == pre.ast.expr@,
                    ctx.ast.patn@ == pre.ast.patn@,
                    ctx.ir.modl@ == pre.ir.modl@,
                    ctx.ir.expr@ == pre.ir.expr@,
                    ctx.ir.patn@ == pre.ir.patn@,
                    ctx.ir.decl@ == pre.ir.decl@,
                    ctx.ir.cons@ == pre.ir.cons@,
                    ctx.global_modl == pre.global_modl,
                    ctx.ast.decl@.len() <= ctx.refs.decl@,
                    ctx.ast.cons@.len() <= ctx.refs.cons@,
                    ctx.ast.modl@.len() <= ctx.refs.modl@,
                    pre.ast.decl@.len() <= ctx.ast.decl@.len(),
                    pre.ast.cons@.len() <= ctx.ast.cons@.len(),
                    pre.ast.modl@.len() <= ctx.ast.modl@.len(),
                    forall|j: int|
                        0 <= j < pre.ast.decl@.len() ==> ctx.ast.decl@[j] == pre.ast.decl@[j],
                    forall|j: int|
                        0 <= j < pre.ast.cons@.len() ==> ctx.ast.cons@[j] == pre.ast.cons@[j],
                    forall|j: int|
                        0 <= j < pre.ast.modl@.len() ==> ctx.ast.modl@[j] == pre.ast.modl@[j],
                    forall|k: int|
                        0 <= k < build_model(pre.names@, ds0.subrange(0, i as int)).defs.len()
                            ==> d0 + k < ctx.ast.decl@.len() && ctx.ast.decl@[d0 + k] is Some
                            && crate::ast::decl_view(#[trigger] ctx.ast.decl@[d0 + k].unwrap())
                            == build_model(pre.names@, ds0.subrange(0, i as int)).defs[k],
                    forall|k: int|
                        0 <= k < build_model(pre.names@, ds0.subrange(0, i as int)).cons.len()
                            ==> c0 + k < ctx.ast.cons@.len() && ctx.ast.cons@[c0 + k] is Some
                            && crate::ast::decl_view(#[trigger] ctx.ast.cons@[c0 + k].unwrap())
                            == build_model(pre.names@, ds0.subrange(0, i as int)).cons[k],
                    forall|k: int|
                        0 <= k < build_model(pre.names@, ds0.subrange(0, i as int)).mods.len()
                            ==> m0 + k < ctx.ast.modl@.len() && ctx.ast.modl@[m0 + k] is Some
                            && crate::ast::modl_view(#[trigger] ctx.ast.modl@[m0 + k].unwrap())
                            == build_model(pre.names@, ds0.subrange(0, i as int)).mods[k],
                    record.wf(),
                    record.name@ == modl.name@,
                    crate::refs::refs_view(record.scope@) == seq![modl.parent@],
                    crate::refs::refs_view(record.decls@) == Seq::new(
                        build_model(pre.names@, ds0.subrange(0, i as int)).defs.len(),
                        |k: int| (d0 + k) as nat,
                    ),
                    crate::refs::refs_view(record.cons@) == Seq::new(
                        build_model(pre.names@, ds0.subrange(0, i as int)).cons.len(),
                        |k: int| (c0 + k) as nat,
                    ),
                    record.symbols@.decls == decl_buckets_model(
                        ctx.names@,
                        build_model(pre.names@, ds0.subrange(0, i as int)).defsigs,
                        d0,
                    ),
                    record.symbols@.cons == cons_buckets_model(
                        ctx.names@,
                        build_model(pre.names@, ds0.subrange(0, i as int)).consigs,
                        c0,
                    ),
                    record.symbols@.decl_order == registered_order(
                        build_model(pre.names@, ds0.subrange(0, i as int)).defsigs,
                        d0,
                    ),
                    record.symbols@.cons_order == Seq::new(
                        build_model(pre.names@, ds0.subrange(0, i as int)).cons.len(),
                        |k: int| (c0 + k) as nat,
                    ),
                    forall|id: nat|
                        #[trigger] crate::ir::child_lookup(record.children@, id)
                            == child_model_lookup(
                            ctx.names@,
                            build_model(pre.names@, ds0.subrange(0, i as int)).modnames,
                            m0,
                            id,
                        ),
                    forall|k: int|
                        0 <= k < record.children@.len() ==> (#[trigger] record.children@[k]).1@
                            < ctx.refs.modl@,
                    deferred@.len() == build_model(pre.names@, ds0.subrange(0, i as int)).mods.len(),
                    forall|k: int|
                        0 <= k < deferred@.len() ==> (#[trigger] deferred@[k]).modl_ref@ == m0 + k
                            && deferred@[k].parent@ == modl.modl_ref@ && deferred@[k].name@
                            == deferred_name(
                            modl.name@,
                            build_model(pre.names@, ds0.subrange(0, i as int)).modnames,
                            k,
                        ),
                    anon_ctr <= i,
                    anon_ctr as nat == count_none(
                        build_model(pre.names@, ds0.subrange(0, i as int)).modnames,
                    ),
                    forall|k: int|
                        0 <= k < build_model(pre.names@, ds0.subrange(0, i as int)).defsigs.len()
                            ==> match #[trigger] build_model(
                            pre.names@,
                            ds0.subrange(0, i as int),
                        ).defsigs[k] {
                            Some(sig) => sig_words_contained(ctx.names@, sig),
                            None => true,
                        },
                    forall|k: int|
                        0 <= k < build_model(pre.names@, ds0.subrange(0, i as int)).consigs.len()
                            ==> sig_words_contained(
                            ctx.names@,
                            #[trigger] build_model(
                                pre.names@,
                                ds0.subrange(0, i as int),
                            ).consigs[k],
                        ),
                    forall|k: int|
                        0 <= k < build_model(pre.names@, ds0.subrange(0, i as int)).modnames.len()
                            ==> match #[trigger] build_model(
                            pre.names@,
                            ds0.subrange(0, i as int),
                        ).modnames[k] {
                            Some(t) => table_contains(ctx.names@, t),
                            None => true,
                        },
                decreases n - i,
            {
                let ghost o_i = build_model(pre.names@, ds0.subrange(0, i as int));
                let ghost names_i = ctx.names@;
                proof {
                    crate::ast::lemma_decls_view_index(decls@, i as int);
                    assert(ds0.subrange(0, i as int + 1).drop_last() =~= ds0.subrange(0, i as int));
                    assert(ds0.subrange(0, i as int + 1).last() == ds0[i as int]);
                }
                let ghost o_next = build_model(pre.names@, ds0.subrange(0, i as int + 1));
                proof {
                    assert(o_next == build_step(o_i, ds0[i as int]));
                }
                let d = crate::ast::clone_decl(&decls[i]);
                proof {
                    assert(crate::ast::decl_view(d) == ds0[i as int]);
                }
                match d {
                    ast::Decl::Def(sig, body) => {
                        let ghost sv = crate::ast::signs_view(sig@);
                        proof {
                            assert(ds0[i as int] == ast::DeclView::Def(
                                sv,
                                Box::new(crate::ast::expr_view(*body)),
                            ));
                        }
                        let ir_sig = intern_signature(&mut ctx.names, &sig);
                        let decl_ref = ctx.refs.decl.make_ref();
                        record.symbols.new_decl(decl_ref, ir_sig);
                        let ghost rd1 = record.decls@;
                        record.decls.push(decl_ref);
                        let ghost ad1 = ctx.ast.decl@;
                        ctx.ast.decl.set(decl_ref, ast::Decl::Def(sig, body));
                        proof {
                            crate::refs::lemma_refs_view_push(rd1, decl_ref);
                            lemma_decl_buckets_stable(names_i, ctx.names@, o_i.defsigs, d0);
                            lemma_cons_buckets_stable(names_i, ctx.names@, o_i.consigs, c0);
                            lemma_child_model_stable(names_i, ctx.names@, o_i.modnames, m0);
                            assert(o_next.defsigs.drop_last() =~= o_i.defsigs);
                            assert(record.symbols@.decls == decl_buckets_model(
                                ctx.names@,
                                o_next.defsigs,
                                d0,
                            ));
                            assert(record.symbols@.decl_order == registered_order(
                                o_next.defsigs,
                                d0,
                            ));
                            assert(crate::refs::refs_view(record.decls@) =~= Seq::new(
                                o_next.defs.len(),
                                |k: int| (d0 + k) as nat,
                            ));
                            assert forall|k: int| 0 <= k < o_next.defs.len() implies d0 + k
                                < ctx.ast.decl@.len() && ctx.ast.decl@[d0 + k] is Some
                                && crate::ast::decl_view(
                                #[trigger] ctx.ast.decl@[d0 + k].unwrap(),
                            ) == o_next.defs[k] by {
                                if k < o_i.defs.len() {
                                    assert(crate::ast::decl_view(ad1[d0 + k].unwrap())
                                        == o_i.defs[k]);
                                    assert(ctx.ast.decl@[d0 + k] == ad1[d0 + k]);
                                    assert(o_next.defs[k] == o_i.defs[k]);
                                } else {
                                    assert(o_next.defs[k] == ds0[i as int]);
                                    assert(ast::Decl::Def(sig, body) == ctx.ast.decl@[d0
                                        + k].unwrap());
                                }
                            }
                            assert forall|k: int| 0 <= k < o_next.defsigs.len() implies match
                                #[trigger] o_next.defsigs[k] {
                                Some(s2) => sig_words_contained(ctx.names@, s2),
                                None => true,
                            } by {
                                if k < o_i.defsigs.len() {
                                    assert(o_next.defsigs[k] == o_i.defsigs[k]);
                                    match o_i.defsigs[k] {
                                        Some(s2) => {
                                            lemma_sig_ids_stable(names_i, ctx.names@, s2);
                                        },
                                        None => {},
                                    }
                                }
                            }
                            assert forall|k: int| 0 <= k < o_next.consigs.len() implies
                                sig_words_contained(
                                ctx.names@,
                                #[trigger] o_next.consigs[k],
                            ) by {
                                assert(o_next.consigs[k] == o_i.consigs[k]);
                                lemma_sig_ids_stable(names_i, ctx.names@, o_i.consigs[k]);
                            }
                            assert forall|k: int| 0 <= k < o_next.modnames.len() implies match
                                #[trigger] o_next.modnames[k] {
                                Some(t2) => table_contains(ctx.names@, t2),
                                None => true,
                            } by {
                                assert(o_next.modnames[k] == o_i.modnames[k]);
                                match o_i.modnames[k] {
                                    Some(t2) => {
                                        let ix = choose|ix: int|
                                            0 <= ix < names_i.len() && names_i[ix] == t2;
                                        assert(ctx.names@[ix] == t2);
                                    },
                                    None => {},
                                }
                            }
                        }
                    },
                    ast::Decl::Con(sig) => {
                        let ghost sv = crate::ast::signs_view(sig@);
                        proof {
                            assert(ds0[i as int] == ast::DeclView::Con(sv));
                        }
                        let ir_sig = intern_signature(&mut ctx.names, &sig);
                        let cons_ref = ctx.refs.cons.make_ref();
                        record.symbols.new_cons(cons_ref, ir_sig);
                        let ghost rc1 = record.cons@;
                        record.cons.push(cons_ref);
                        let ghost ac1 = ctx.ast.cons@;
                        ctx.ast.cons.set(cons_ref, ast::Decl::Con(sig));
                        proof {
                            crate::refs::lemma_refs_view_push(rc1, cons_ref);
                            lemma_decl_buckets_stable(names_i, ctx.names@, o_i.defsigs, d0);
                            lemma_cons_buckets_stable(names_i, ctx.names@, o_i.consigs, c0);
                            lemma_child_model_stable(names_i, ctx.names@, o_i.modnames, m0);
                            assert(o_next.consigs.drop_last() =~= o_i.consigs);
                            assert(record.symbols@.cons == cons_buckets_model(
                                ctx.names@,
                                o_next.consigs,
                                c0,
                            ));
                            assert(record.symbols@.cons_order =~= Seq::new(
                                o_next.cons.len(),
                                |k: int| (c0 + k) as nat,
                            ));
                            assert(crate::refs::refs_view(record.cons@) =~= Seq::new(
                                o_next.cons.len(),
                                |k: int| (c0 + k) as nat,
                            ));
                            assert forall|k: int| 0 <= k < o_next.cons.len() implies c0 + k
                                < ctx.ast.cons@.len() && ctx.ast.cons@[c0 + k] is Some
                                && crate::ast::decl_view(
                                #[trigger] ctx.ast.cons@[c0 + k].unwrap(),
                            ) == o_next.cons[k] by {
                                if k < o_i.cons.len() {
                                    assert(crate::ast::decl_view(ac1[c0 + k].unwrap())
                                        == o_i.cons[k]);
                                    assert(ctx.ast.cons@[c0 + k] == ac1[c0 + k]);
                                    assert(o_next.cons[k] == o_i.cons[k]);
                                } else {
                                    assert(o_next.cons[k] == ds0[i as int]);
                                    assert(ast::Decl::Con(sig) == ctx.ast.cons@[c0 + k].unwrap());
                                }
                            }
                            assert forall|k: int| 0 <= k < o_next.defsigs.len() implies match
                                #[trigger] o_next.defsigs[k] {
                                Some(s2) => sig_words_contained(ctx.names@, s2),
                                None => true,
                            } by {
                                assert(o_next.defsigs[k] == o_i.defsigs[k]);
                                match o_i.defsigs[k] {
                                    Some(s2) => {
                                        lemma_sig_ids_stable(names_i, ctx.names@, s2);
                                    },
                                    None => {},
                                }
                            }
                            assert forall|k: int| 0 <= k < o_next.consigs.len() implies
                                sig_words_contained(
                                ctx.names@,
                                #[trigger] o_next.consigs[k],
                            ) by {
                                if k < o_i.consigs.len() {
                                    assert(o_next.consigs[k] == o_i.consigs[k]);
                                    lemma_sig_ids_stable(names_i, ctx.names@, o_i.consigs[k]);
                                }
                            }
                            assert forall|k: int| 0 <= k < o_next.modnames.len() implies match
                                #[trigger] o_next.modnames[k] {
                                Some(t2) => table_contains(ctx.names@, t2),
                                None => true,
                            } by {
                                assert(o_next.modnames[k] == o_i.modnames[k]);
                                match o_i.modnames[k] {
                                    Some(t2) => {
                                        let ix = choose|ix: int|
                                            0 <= ix < names_i.len() && names_i[ix] == t2;
                                        assert(ctx.names@[ix] == t2);
                                    },
                                    None => {},
                                }
                            }
                        }
                    },
                    ast::Decl::Let(p, e) => {
                        proof {
                            assert(ds0[i as int] == ast::DeclView::Let(
                                Box::new(crate::ast::patn_view(*p)),
                                Box::new(crate::ast::expr_view(*e)),
                            ));
                        }
                        let decl_ref = ctx.refs.decl.make_ref();
                        let ghost rd1 = record.decls@;
                        record.decls.push(decl_ref);
                        let ghost ad1 = ctx.ast.decl@;
                        ctx.ast.decl.set(decl_ref, ast::Decl::Let(p, e));
                        proof {
                            crate::refs::lemma_refs_view_push(rd1, decl_ref);
                            assert(o_next.defsigs.drop_last() =~= o_i.defsigs);
                            assert(record.symbols@.decls == decl_buckets_model(
                                ctx.names@,
                                o_next.defsigs,
                                d0,
                            ));
                            assert(record.symbols@.decl_order == registered_order(
                                o_next.defsigs,
                                d0,
                            ));
                            assert(record.symbols@.decl_order == registered_order(
                                o_next.defsigs,
                                d0,
                            ));
                            assert(crate::refs::refs_view(record.decls@) =~= Seq::new(
                                o_next.defs.len(),
                                |k: int| (d0 + k) as nat,
                            ));
                            assert forall|k: int| 0 <= k < o_next.defs.len() implies d0 + k
                                < ctx.ast.decl@.len() && ctx.ast.decl@[d0 + k] is Some
                                && crate::ast::decl_view(
                                #[trigger] ctx.ast.decl@[d0 + k].unwrap(),
                            ) == o_next.defs[k] by {
                                if k < o_i.defs.len() {
                                    assert(crate::ast::decl_view(ad1[d0 + k].unwrap())
                                        == o_i.defs[k]);
                                    assert(ctx.ast.decl@[d0 + k] == ad1[d0 + k]);
                                    assert(o_next.defs[k] == o_i.defs[k]);
                                } else {
                                    assert(o_next.defs[k] == ds0[i as int]);
                                }
                            }
                            assert forall|k: int| 0 <= k < o_next.defsigs.len() implies match
                                #[trigger] o_next.defsigs[k] {
                                Some(s2) => sig_words_contained(ctx.names@, s2),
                                None => true,
                            } by {
                                if k < o_i.defsigs.len() {
                                    assert(o_next.defsigs[k] == o_i.defsigs[k]);
                                }
                            }
                        }
                    },
                    ast::Decl::Mod(id, body) => {
                        proof {
                            assert(ds0[i as int] == ast::DeclView::Mod(
                                id.0@,
                                Box::new(crate::ast::modl_view(*body)),
                            ));
                        }
                        let child_id = ctx.names.make_ident(id.0.as_str());
                        let child_modl = ctx.refs.modl.make_ref();
                        record.insert_child(child_id, child_modl);
                        let ghost am1 = ctx.ast.modl@;
                        ctx.ast.modl.set(child_modl, *body);
                        let dn = child_name(name.as_str(), id.0.as_str());
                        let ghost df1 = deferred@;
                        deferred.push(
                            DeferredModl { name: dn, parent: modl_ref, modl_ref: child_modl },
                        );
                        proof {
                            assert(ctx.names@ == intern_text(names_i, id.0@));
                            lemma_decl_buckets_stable(names_i, ctx.names@, o_i.defsigs, d0);
                            lemma_cons_buckets_stable(names_i, ctx.names@, o_i.consigs, c0);
                            lemma_child_model_stable(names_i, ctx.names@, o_i.modnames, m0);
                            lemma_name_index_unique(ctx.names@, child_id@ as int);
                            assert(o_next.modnames.drop_last() =~= o_i.modnames);
                            assert forall|idq: nat| #[trigger] crate::ir::child_lookup(
                                record.children@,
                                idq,
                            ) == child_model_lookup(ctx.names@, o_next.modnames, m0, idq) by {
                                if idq == child_id@ {
                                    assert(name_index(ctx.names@, id.0@) == child_id@ as int);
                                } else {
                                    assert(crate::ir::child_lookup(record.children@, idq)
                                        == child_model_lookup(ctx.names@, o_i.modnames, m0, idq));
                                }
                            }
                            assert forall|k: int| 0 <= k < o_next.mods.len() implies m0 + k
                                < ctx.ast.modl@.len() && ctx.ast.modl@[m0 + k] is Some
                                && crate::ast::modl_view(
                                #[trigger] ctx.ast.modl@[m0 + k].unwrap(),
                            ) == o_next.mods[k] by {
                                if k < o_i.mods.len() {
                                    assert(crate::ast::modl_view(am1[m0 + k].unwrap())
                                        == o_i.mods[k]);
                                    assert(ctx.ast.modl@[m0 + k] == am1[m0 + k]);
                                    assert(o_next.mods[k] == o_i.mods[k]);
                                } else {
                                    assert(o_next.mods[k] == crate::ast::modl_view(*body));
                                }
                            }
                            assert(count_none(o_next.modnames) == count_none(o_i.modnames));
                            assert(name@ == modl.name@);
                            assert(dn@ == child_name_of(modl.name@, id.0@));
                            assert(deferred@.last().name@ == dn@);
                            assert(deferred@.last().modl_ref@ == m0 + o_i.mods.len());
                            assert(deferred@.last().parent@ == modl.modl_ref@);
                            assert(deferred@.len() == o_i.mods.len() + 1);
                            assert(o_next.modnames == o_i.modnames.push(Some(id.0@)));
                            assert forall|k: int| 0 <= k < deferred@.len() implies (
                            #[trigger] deferred@[k]).modl_ref@ == m0 + k && deferred@[k].parent@
                                == modl.modl_ref@ && deferred@[k].name@ == deferred_name(
                                modl.name@,
                                o_next.modnames,
                                k,
                            ) by {
                                if k < o_i.mods.len() {
                                    assert(deferred@[k] == df1[k]);
                                    assert((df1[k]).modl_ref@ == m0 + k && df1[k].parent@
                                        == modl.modl_ref@ && df1[k].name@ == deferred_name(
                                        modl.name@,
                                        o_i.modnames,
                                        k,
                                    ));
                                    assert(o_next.modnames[k] == o_i.modnames[k]);
                                    assert(o_next.modnames.subrange(0, k) =~= o_i.modnames.subrange(
                                        0,
                                        k,
                                    ));
                                } else {
                                    assert(deferred@[k] == deferred@.last());
                                    assert(o_next.modnames[k] == Some(id.0@));
                                }
                            }
                            assert forall|k: int| 0 <= k < o_next.defsigs.len() implies match
                                #[trigger] o_next.defsigs[k] {
                                Some(s2) => sig_words_contained(ctx.names@, s2),
                                None => true,
                            } by {
                                assert(o_next.defsigs[k] == o_i.defsigs[k]);
                                match o_i.defsigs[k] {
                                    Some(s2) => {
                                        lemma_sig_ids_stable(names_i, ctx.names@, s2);
                                    },
                                    None => {},
                                }
                            }
                            assert forall|k: int| 0 <= k < o_next.consigs.len() implies
                                sig_words_contained(
                                ctx.names@,
                                #[trigger] o_next.consigs[k],
                            ) by {
                                assert(o_next.consigs[k] == o_i.consigs[k]);
                                lemma_sig_ids_stable(names_i, ctx.names@, o_i.consigs[k]);
                            }
                            assert forall|k: int| 0 <= k < o_next.modnames.len() implies match
                                #[trigger] o_next.modnames[k] {
                                Some(t2) => table_contains(ctx.names@, t2),
                                None => true,
                            } by {
                                if k < o_i.modnames.len() {
                                    assert(o_next.modnames[k] == o_i.modnames[k]);
                                    match o_i.modnames[k] {
                                        Some(t2) => {
                                            let ix = choose|ix: int|
                                                0 <= ix < names_i.len() && names_i[ix] == t2;
                                            assert(ctx.names@[ix] == t2);
                                        },
                                        None => {},
                                    }
                                } else {
                                    assert(o_next.modnames[k] == Some(id.0@));
                                    assert(ctx.names@[child_id@ as int] == id.0@);
                                }
                            }
                        }
                    },
                    ast::Decl::Use(body) => {
                        proof {
                            assert(ds0[i as int] == ast::DeclView::Use(
                                Box::new(crate::ast::modl_view(*body)),
                            ));
                        }
                        let new_modl = ctx.refs.modl.make_ref();
                        let ghost am1 = ctx.ast.modl@;
                        ctx.ast.modl.set(new_modl, *body);
                        let dn = anon_name(name.as_str(), anon_ctr);
                        let ghost df1 = deferred@;
                        deferred.push(
                            DeferredModl { name: dn, parent: modl_ref, modl_ref: new_modl },
                        );
                        anon_ctr = anon_ctr + 1;
                        proof {
                            assert(o_next.modnames.drop_last() =~= o_i.modnames);
                            assert forall|idq: nat| #[trigger] crate::ir::child_lookup(
                                record.children@,
                                idq,
                            ) == child_model_lookup(ctx.names@, o_next.modnames, m0, idq) by {
                                assert(crate::ir::child_lookup(record.children@, idq)
                                    == child_model_lookup(ctx.names@, o_i.modnames, m0, idq));
                            }
                            assert forall|k: int| 0 <= k < o_next.mods.len() implies m0 + k
                                < ctx.ast.modl@.len() && ctx.ast.modl@[m0 + k] is Some
                                && crate::ast::modl_view(
                                #[trigger] ctx.ast.modl@[m0 + k].unwrap(),
                            ) == o_next.mods[k] by {
                                if k < o_i.mods.len() {
                                    assert(crate::ast::modl_view(am1[m0 + k].unwrap())
                                        == o_i.mods[k]);
                                    assert(ctx.ast.modl@[m0 + k] == am1[m0 + k]);
                                    assert(o_next.mods[k] == o_i.mods[k]);
                                } else {
                                    assert(o_next.mods[k] == crate::ast::modl_view(*body));
                                }
                            }
                            assert(count_none(o_next.modnames) == count_none(o_i.modnames) + 1);
                            assert(name@ == modl.name@);
                            assert(dn@ == anon_name_of(modl.name@, count_none(o_i.modnames)));
                            assert(deferred@.last().name@ == dn@);
                            assert(deferred@.last().modl_ref@ == m0 + o_i.mods.len());
                            assert(deferred@.last().parent@ == modl.modl_ref@);
                            assert(deferred@.len() == o_i.mods.len() + 1);
                            assert(o_next.modnames == o_i.modnames.push(None));
                            assert forall|k: int| 0 <= k < deferred@.len() implies (
                            #[trigger] deferred@[k]).modl_ref@ == m0 + k && deferred@[k].parent@
                                == modl.modl_ref@ && deferred@[k].name@ == deferred_name(
                                modl.name@,
                                o_next.modnames,
                                k,
                            ) by {
                                if k < o_i.mods.len() {
                                    assert(deferred@[k] == df1[k]);
                                    assert((df1[k]).modl_ref@ == m0 + k && df1[k].parent@
                                        == modl.modl_ref@ && df1[k].name@ == deferred_name(
                                        modl.name@,
                                        o_i.modnames,
                                        k,
                                    ));
                                    assert(o_next.modnames[k] == o_i.modnames[k]);
                                    assert(o_next.modnames.subrange(0, k) =~= o_i.modnames.subrange(
                                        0,
                                        k,
                                    ));
                                } else {
                                    assert(deferred@[k] == deferred@.last());
                                    assert(o_next.modnames[k] is None);
                                    assert(o_next.modnames.subrange(0, k) =~= o_i.modnames);
                                }
                            }
                            assert forall|k: int| 0 <= k < o_next.defsigs.len() implies match
                                #[trigger] o_next.defsigs[k] {
                                Some(s2) => sig_words_contained(ctx.names@, s2),
                                None => true,
                            } by {
                                assert(o_next.defsigs[k] == o_i.defsigs[k]);
                            }
                            assert forall|k: int| 0 <= k < o_next.modnames.len() implies match
                                #[trigger] o_next.modnames[k] {
                                Some(t2) => table_contains(ctx.names@, t2),
                                None => true,
                            } by {
                                if k < o_i.modnames.len() {
                                    assert(o_next.modnames[k] == o_i.modnames[k]);
                                }
                            }
                        }
                    },
                }
                i = i + 1;
            }
            proof {
                assert(ds0.subrange(0, n as int) =~= ds0);
            }
            let ghost o_fin = build_model(pre.names@, ds0);
            let ghost ir1 = ctx.ir.modl@;
            ctx.ir.modl.set(modl_ref, ir::Modl::Record(record));
            proof {
                assert(crate::ctx::modl_entry_wf(
                    ctx.ir.modl@,
                    modl_ref@ as int,
                    ctx.refs.modl@,
                    ctx.refs.decl@,
                    ctx.refs.cons@,
                )) by {
                    assert(crate::ctx::is_record(ir1, modl.parent@ as int));
                    assert(ctx.ir.modl@[modl.parent@ as int] == ir1[modl.parent@ as int]);
                    assert forall|k: int| 0 <= k < record.scope@.len() implies (
                    #[trigger] record.scope@[k])@ < modl_ref@ as int && crate::ctx::is_record(
                        ctx.ir.modl@,
                        record.scope@[k]@ as int,
                    ) by {
                        assert(crate::refs::refs_view(record.scope@)[k] == record.scope@[k]@);
                    }
                    assert forall|k: int| 0 <= k < record.decls@.len() implies (
                    #[trigger] record.decls@[k])@ < ctx.refs.decl@ by {
                        assert(crate::refs::refs_view(record.decls@)[k] == record.decls@[k]@);
                    }
                    assert forall|k: int| 0 <= k < record.cons@.len() implies (
                    #[trigger] record.cons@[k])@ < ctx.refs.cons@ by {
                        assert(crate::refs::refs_view(record.cons@)[k] == record.cons@[k]@);
                    }
                }
                lemma_wf_preserved(
                    ir1,
                    ctx.ir.modl@,
                    modl_ref@ as int,
                    pre.refs.modl@,
                    pre.refs.decl@,
                    pre.refs.cons@,
                    ctx.refs.modl@,
                    ctx.refs.decl@,
                    ctx.refs.cons@,
                );
                assert(crate::ctx::is_record(ctx.ir.modl@, ctx.global_modl@ as int));
                assert(record_outcome(pre, *ctx, modl, ds0, deferred@));
            }
            Ok(deferred)
        },
    }
}

/// Every named module reference in the tree carries at least one path
/// segment, as the grammar guarantees.
pub open spec fn modl_paths_nonempty(m: ast::ModlView) -> bool
    decreases m,
{
    match m {
        ast::ModlView::ModExp(ds) => decls_paths_nonempty(ds),
        ast::ModlView::Named(p) => p.path.len() >= 1,
    }
}

/// Every named module reference under these declarations carries at least
/// one path segment.
pub open spec fn decls_paths_nonempty(ds: Seq<ast::DeclView>) -> bool
    decreases ds,
{
    if ds.len() == 0 {
        true
    } else {
        decls_paths_nonempty(ds.drop_last()) && decl_paths_nonempty(ds.last())
    }
}

/// Every named module reference under this declaration carries at least one
/// path segment.
pub open spec fn decl_paths_nonempty(d: ast::DeclView) -> bool
    decreases d,
{
    match d {
        ast::DeclView::Mod(_, body) => modl_paths_nonempty(*body),
        ast::DeclView::Use(body) => modl_paths_nonempty(*body),
        _ => true,
    }
}

/// Lowering preserves the non-empty-path guarantee into every child body.
pub proof fn lemma_build_model_paths(names: Seq<Seq<char>>, ds: Seq<ast::DeclView>)
    requires
        decls_paths_nonempty(ds),
    ensures
        forall|k: int|
            0 <= k < build_model(names, ds).mods.len() ==> modl_paths_nonempty(
                #[trigger] build_model(names, ds).mods[k],
            ),
    decreases ds.len(),
{
    if ds.len() > 0 {
        assert(decls_paths_nonempty(ds.drop_last()));
        assert(decl_paths_nonempty(ds.last()));
        lemma_build_model_paths(names, ds.drop_last());
        let o = build_model(names, ds.drop_last());
        let o2 = build_model(names, ds);
        assert(o2 == build_step(o, ds.last()));
        assert forall|k: int| 0 <= k < o2.mods.len() implies modl_paths_nonempty(
            #[trigger] o2.mods[k],
        ) by {
            match ds.last() {
                ast::DeclView::Mod(_, body) => {
                    assert(o2.mods == o.mods.push(*body));
                    if k < o.mods.len() {
                        assert(o2.mods[k] == o.mods[k]);
                    }
                },
                ast::DeclView::Use(body) => {
                    assert(o2.mods == o.mods.push(*body));
                    if k < o.mods.len() {
                        assert(o2.mods[k] == o.mods[k]);
                    }
                },
                _ => {
                    assert(o2.mods == o.mods);
                },
            }
        }
    }
}

/// The size of one queued item's stored raw syntax.
pub open spec fn item_measure(ast_modl: Seq<Option<ast::Modl>>, d: DeferredModl) -> nat {
    if d.modl_ref@ < ast_modl.len() && ast_modl[d.modl_ref@ as int] is Some {
        modl_size(crate::ast::modl_view(ast_modl[d.modl_ref@ as int].unwrap()))
    } else {
        0
    }
}

/// The combined size of the raw syntax still queued: the measure that
/// shrinks as the worklist drains.
pub open spec fn queue_measure(ast_modl: Seq<Option<ast::Modl>>, q: Seq<DeferredModl>) -> nat
    decreases q.len(),
{
    if q.len() == 0 {
        0
    } else {
        queue_measure(ast_modl, q.drop_last()) + item_measure(ast_modl, q.last())
    }
}

/// The measure distributes over concatenation.
pub proof fn lemma_queue_measure_concat(
    ast_modl: Seq<Option<ast::Modl>>,
    q1: Seq<DeferredModl>,
    q2: Seq<DeferredModl>,
)
    ensures
        queue_measure(ast_modl, q1 + q2) == queue_measure(ast_modl, q1) + queue_measure(
            ast_modl,
            q2,
        ),
    decreases q2.len(),
{
    if q2.len() == 0 {
        assert(q1 + q2 =~= q1);
    } else {
        assert((q1 + q2).drop_last() =~= q1 + q2.drop_last());
        assert((q1 + q2).last() == q2.last());
        lemma_queue_measure_concat(ast_modl, q1, q2.drop_last());
    }
}

/// The measure of a queue does not change when the storage changes only at
/// slots no queued item points at.
pub proof fn lemma_queue_measure_stable(
    a1: Seq<Option<ast::Modl>>,
    a2: Seq<Option<ast::Modl>>,
    q: Seq<DeferredModl>,
)
    requires
        forall|j: int|
            0 <= j < q.len() ==> (#[trigger] q[j]).modl_ref@ < a1.len()
                && a2[q[j].modl_ref@ as int] == a1[q[j].modl_ref@ as int] && q[j].modl_ref@
                < a2.len(),
    ensures
        queue_measure(a2, q) == queue_measure(a1, q),
    decreases q.len(),
{
    if q.len() > 0 {
        assert forall|j: int| 0 <= j < q.drop_last().len() implies (
        #[trigger] q.drop_last()[j]).modl_ref@ < a1.len() && a2[q.drop_last()[j].modl_ref@ as int]
            == a1[q.drop_last()[j].modl_ref@ as int] && q.drop_last()[j].modl_ref@ < a2.len() by {
            assert(q.drop_last()[j] == q[j]);
        }
        lemma_queue_measure_stable(a1, a2, q.drop_last());
        assert(q.last() == q[q.len() - 1]);
    }
}

/// Freshly deferred children weigh exactly their stored bodies.
pub proof fn lemma_queue_measure_of_deferred(
    ast_modl: Seq<Option<ast::Modl>>,
    q: Seq<DeferredModl>,
    ms: Seq<ast::ModlView>,
    base: nat,
)
    requires
        q.len() == ms.len(),
        forall|k: int|
            0 <= k < q.len() ==> (#[trigger] q[k]).modl_ref@ == base + k && base + k
                < ast_modl.len() && ast_modl[base + k] is Some && crate::ast::modl_view(
                ast_modl[base + k].unwrap(),
            ) == ms[k],
    ensures
        queue_measure(ast_modl, q) == mods_size(ms),
    decreases q.len(),
{
    if q.len() > 0 {
        assert forall|k: int| 0 <= k < q.drop_last().len() implies (
        #[trigger] q.drop_last()[k]).modl_ref@ == base + k && base + k < ast_modl.len()
            && ast_modl[base + k] is Some && crate::ast::modl_view(ast_modl[base + k].unwrap())
            == ms.drop_last()[k] by {
            assert(q.drop_last()[k] == q[k]);
            assert(ms.drop_last()[k] == ms[k]);
        }
        lemma_queue_measure_of_deferred(ast_modl, q.drop_last(), ms.drop_last(), base);
        assert(q.last() == q[q.len() - 1]);
        assert(ms.last() == ms[ms.len() - 1]);
    }
}



/// A child map lookup lands on one of the freshly issued child handles.
proof fn lemma_child_model_bound(
    names: Seq<Seq<char>>,
    modnames: Seq<Option<Seq<char>>>,
    base: nat,
    id: nat,
)
    ensures
        child_model_lookup(names, modnames, base, id) matches Some(c) ==> base <= c < base
            + modnames.len(),
    decreases modnames.len(),
{
    if modnames.len() > 0 {
        lemma_child_model_bound(names, modnames.drop_last(), base, id);
    }
}

/// Draining one item keeps mid-drain completeness: the processed module is
/// now populated, its children are the freshly queued items, and every other
/// link is as before, with the queue shifted.
proof fn lemma_pending_after_step(
    ir0: Seq<Option<ir::Modl>>,
    ir1: Seq<Option<ir::Modl>>,
    q0: Seq<DeferredModl>,
    q1: Seq<DeferredModl>,
    d: DeferredModl,
    more: Seq<DeferredModl>,
    m0: nat,
)
    requires
        q0.len() > 0,
        d == q0[0],
        q1 == q0.drop_first() + more,
        ir1.len() == grown_len(ir0.len(), d.modl_ref@),
        forall|i: int|
            0 <= i < ir1.len() && i != d.modl_ref@ ==> ir1[i] == (if i < ir0.len() {
                ir0[i]
            } else {
                None
            }),
        d.modl_ref@ < ir1.len(),
        ir1[d.modl_ref@ as int] is Some,
        forall|i: int| 0 <= i < ir0.len() ==> #[trigger] modl_entry_pending(ir0, i, q0),
        (ir1[d.modl_ref@ as int].unwrap() matches ir::Modl::Record(r) ==> forall|id: nat|
            #[trigger] crate::ir::child_lookup(r.children@, id) is Some ==> m0
                <= crate::ir::child_lookup(r.children@, id).unwrap() < m0 + more.len()),
        (ir1[d.modl_ref@ as int].unwrap() matches ir::Modl::Alias(a) ==> a.aliased is None),
        forall|k: int| 0 <= k < more.len() ==> (#[trigger] more[k]).modl_ref@ == m0 + k,
    ensures
        forall|i: int| 0 <= i < ir1.len() ==> #[trigger] modl_entry_pending(ir1, i, q1),
{
    assert forall|i: int| 0 <= i < ir1.len() implies #[trigger] modl_entry_pending(
        ir1,
        i,
        q1,
    ) by {
        if i == d.modl_ref@ as int {
            match ir1[i] {
                Some(m) => match m {
                    ir::Modl::Record(r) => {
                        assert forall|id: nat| #[trigger] crate::ir::child_lookup(
                            r.children@,
                            id,
                        ) is Some implies {
                            let c = crate::ir::child_lookup(r.children@, id).unwrap();
                            (c < ir1.len() && ir1[c as int] is Some) || exists|j: int|
                                0 <= j < q1.len() && (#[trigger] q1[j]).modl_ref@ == c
                        } by {
                            let c = crate::ir::child_lookup(r.children@, id).unwrap();
                            let k = c - m0;
                            assert(q1[q0.len() - 1 + k] == more[k]);
                        }
                    },
                    ir::Modl::Alias(_) => {},
                },
                None => {},
            }
        } else if i < ir0.len() {
            assert(modl_entry_pending(ir0, i, q0));
            assert(ir1[i] == ir0[i]);
            match ir1[i] {
                Some(m) => match m {
                    ir::Modl::Record(r) => {
                        assert forall|id: nat| #[trigger] crate::ir::child_lookup(
                            r.children@,
                            id,
                        ) is Some implies {
                            let c = crate::ir::child_lookup(r.children@, id).unwrap();
                            (c < ir1.len() && ir1[c as int] is Some) || exists|j: int|
                                0 <= j < q1.len() && (#[trigger] q1[j]).modl_ref@ == c
                        } by {
                            let c = crate::ir::child_lookup(r.children@, id).unwrap();
                            if c < ir0.len() && ir0[c as int] is Some {
                                if c == d.modl_ref@ {
                                    assert(ir1[c as int] is Some);
                                } else {
                                    assert(ir1[c as int] == ir0[c as int]);
                                }
                            } else {
                                let j = choose|j: int|
                                    0 <= j < q0.len() && (#[trigger] q0[j]).modl_ref@ == c;
                                if j == 0 {
                                    assert(ir1[d.modl_ref@ as int] is Some);
                                } else {
                                    assert(q1[j - 1] == q0[j]);
                                }
                            }
                        }
                    },
                    ir::Modl::Alias(a) => {
                        match a.aliased {
                            Some(tt) => {
                                if tt@ == d.modl_ref@ {
                                    assert(ir1[tt@ as int] is Some);
                                } else {
                                    assert(ir1[tt@ as int] == ir0[tt@ as int]);
                                }
                            },
                            None => {},
                        }
                    },
                },
                None => {},
            }
        }
    }
}

/// After one drain step, the processed module and every earlier one are the
/// lowerings of their stored syntax, and every issued handle has its raw
/// syntax stored.
proof fn lemma_step_lowering(ctx0: Context, ctx1: Context, d: DeferredModl, more0: Seq<
    DeferredModl,
>, pre_m: nat)
    requires
        ctx0.wf(),
        d.modl_ref@ < ctx0.ast.modl@.len(),
        ctx0.ast.modl@[d.modl_ref@ as int] is Some,
        d.modl_ref@ < ctx0.ir.modl@.len() ==> ctx0.ir.modl@[d.modl_ref@ as int] is None,
        untouched_outcome(ctx0, ctx1),
        (crate::ast::modl_view(ctx0.ast.modl@[d.modl_ref@ as int].unwrap())
            matches ast::ModlView::ModExp(ds) ==> record_outcome(ctx0, ctx1, d, ds, more0)),
        (crate::ast::modl_view(ctx0.ast.modl@[d.modl_ref@ as int].unwrap())
            matches ast::ModlView::Named(p) ==> alias_outcome(ctx0, ctx1, d, p)),
        forall|h: int|
            pre_m <= h < ctx0.refs.modl@ && h < ctx0.ir.modl@.len() && ctx0.ir.modl@[h] is Some
                ==> #[trigger] entry_lowered(ctx0, h),
        forall|h: int|
            pre_m <= h < ctx0.refs.modl@ ==> h < ctx0.ast.modl@.len() && ctx0.ast.modl@[h] is Some,
    ensures
        entry_lowered(ctx1, d.modl_ref@ as int),
        ctx1.ir.modl@.len() <= ctx0.refs.modl@,
        forall|h: int|
            pre_m <= h < ctx1.refs.modl@ && h < ctx1.ir.modl@.len() && ctx1.ir.modl@[h] is Some
                ==> #[trigger] entry_lowered(ctx1, h),
        forall|h: int|
            pre_m <= h < ctx1.refs.modl@ ==> h < ctx1.ast.modl@.len() && ctx1.ast.modl@[h] is Some,
{
    let mv = crate::ast::modl_view(ctx0.ast.modl@[d.modl_ref@ as int].unwrap());
    assert(ctx1.ir.modl@.len() <= ctx0.refs.modl@) by {
        assert(ctx0.ir.modl@.len() <= ctx0.refs.modl@);
        assert(ctx0.ast.modl@.len() <= ctx0.refs.modl@);
    }
    assert(entry_lowered(ctx1, d.modl_ref@ as int)) by {
        assert(ctx1.ast.modl@[d.modl_ref@ as int] == ctx0.ast.modl@[d.modl_ref@ as int]);
        match mv {
            ast::ModlView::ModExp(ds) => {
                assert(record_entry_lowering(
                    ctx1,
                    d.modl_ref@ as int,
                    ctx0.names@,
                    ctx0.refs.decl@,
                    ctx0.refs.cons@,
                    ctx0.refs.modl@,
                    ds,
                ));
            },
            ast::ModlView::Named(_) => {},
        }
    }
    assert forall|h: int|
        pre_m <= h < ctx1.refs.modl@ && h < ctx1.ir.modl@.len() && ctx1.ir.modl@[h]
            is Some implies #[trigger] entry_lowered(ctx1, h) by {
        if h != d.modl_ref@ as int {
            if h < ctx0.ir.modl@.len() && ctx0.ir.modl@[h] is Some {
                assert(entry_lowered(ctx0, h));
                assert(ctx1.ir.modl@[h] == ctx0.ir.modl@[h]);
                lemma_entry_lowered_stable(ctx0, ctx1, h);
            } else {
                assert(!(ctx1.ir.modl@[h] is Some));
            }
        }
    }
    assert forall|h: int| pre_m <= h < ctx1.refs.modl@ implies h < ctx1.ast.modl@.len()
        && ctx1.ast.modl@[h] is Some by {
        if h < ctx0.refs.modl@ {
            assert(ctx0.ast.modl@[h] is Some);
            assert(ctx1.ast.modl@[h] == ctx0.ast.modl@[h]);
        } else {
            match mv {
                ast::ModlView::ModExp(ds) => {
                    let o = build_model(ctx0.names@, ds);
                    let k = h - ctx0.refs.modl@;
                    assert(ctx1.ast.modl@[ctx0.refs.modl@ + k] is Some);
                },
                ast::ModlView::Named(_) => {},
            }
        }
    }
}

/// Mid-drain completeness: every cross-module link lands on a populated
/// module or on one still queued for processing.
pub open spec fn modl_entry_pending(
    ir: Seq<Option<ir::Modl>>,
    i: int,
    q: Seq<DeferredModl>,
) -> bool {
    match ir[i] {
        Some(m) => match m {
            ir::Modl::Record(r) => forall|id: nat|
                #[trigger] crate::ir::child_lookup(r.children@, id) matches Some(c) ==> (c
                    < ir.len() && ir[c as int] is Some) || exists|j: int|
                    0 <= j < q.len() && (#[trigger] q[j]).modl_ref@ == c,
            ir::Modl::Alias(a) => match a.aliased {
                Some(t) => t@ < ir.len() && ir[t@ as int] is Some,
                None => true,
            },
        },
        None => true,
    }
}

/// Lower one file's parsed declarations: allocate the file's module handle,
/// store its raw syntax, register it under its interned stem as a child of
/// the global module, and drain a first-in-first-out worklist that processes
/// the module and, breadth first, every nested module and anonymous import
/// it declares. A path that does not name a source file fails with an
/// invalid-filename error and leaves the context untouched.
#[verifier::rlimit(100)]
#[verifier::spinoff_prover]
pub fn process_file(ctx: &mut Context, file_name: &str, decls: Vec<ast::Decl>) -> (r: Result<
    ModlRef,
    FridayError,
>)
    requires
        old(ctx).wf(),
        old(ctx).complete(),
        old(ctx).refs.modl@ + 1 + modl_size(
            ast::ModlView::ModExp(crate::ast::decls_view(decls@)),
        ) <= usize::MAX,
        old(ctx).refs.decl@ + modl_size(ast::ModlView::ModExp(crate::ast::decls_view(decls@)))
            <= usize::MAX,
        old(ctx).refs.cons@ + modl_size(ast::ModlView::ModExp(crate::ast::decls_view(decls@)))
            <= usize::MAX,
        decls_paths_nonempty(crate::ast::decls_view(decls@)),
    ensures
        final(ctx).wf(),
        final(ctx).complete(),
        match r {
            Ok(mref) => {
                &&& valid_fri_path(file_name@)
                &&& mref@ == old(ctx).refs.modl@
                &&& untouched_outcome(*old(ctx), *final(ctx))
                &&& mref@ < final(ctx).ir.modl@.len()
                &&& final(ctx).ir.modl@[mref@ as int] is Some
                &&& forall|i: int|
                    0 <= i < old(ctx).ir.modl@.len() && i != old(ctx).global_modl@
                        ==> final(ctx).ir.modl@[i] == old(ctx).ir.modl@[i]
                &&& (final(ctx).ir.modl@[old(ctx).global_modl@ as int] matches Some(g)
                    && g matches ir::Modl::Record(gr) && exists|fid: nat|
                    fid < final(ctx).names@.len() && final(ctx).names@[fid as int] == file_stem(
                        file_name@,
                    ) && #[trigger] crate::ir::child_lookup(gr.children@, fid) == Some(mref@))
                &&& mref@ < final(ctx).ast.modl@.len()
                &&& final(ctx).ast.modl@[mref@ as int] is Some
                &&& crate::ast::modl_view(final(ctx).ast.modl@[mref@ as int].unwrap())
                    == ast::ModlView::ModExp(crate::ast::decls_view(decls@))
                &&& record_entry_lowering(
                    *final(ctx),
                    mref@ as int,
                    intern_text(old(ctx).names@, file_stem(file_name@)),
                    old(ctx).refs.decl@,
                    old(ctx).refs.cons@,
                    old(ctx).refs.modl@ + 1,
                    crate::ast::decls_view(decls@),
                )
                &&& (final(ctx).ir.modl@[mref@ as int] matches Some(fm)
                    && fm matches ir::Modl::Record(fr) && fr.name@ == file_stem(file_name@)
                    && crate::refs::refs_view(fr.scope@) == seq![old(ctx).global_modl@])
                &&& old(ctx).refs.modl@ < final(ctx).refs.modl@
                &&& forall|h: int|
                    old(ctx).refs.modl@ <= h < final(ctx).refs.modl@ ==> h
                        < final(ctx).ast.modl@.len() && final(ctx).ast.modl@[h] is Some && h
                        < final(ctx).ir.modl@.len() && final(ctx).ir.modl@[h] is Some
                        && #[trigger] entry_lowered(*final(ctx), h)
            },
            Err(e) => !valid_fri_path(file_name@) && (e matches FridayError::InvalidFilename(p)
                && p@ == file_name@) && *final(ctx) == *old(ctx),
        },
{
    let ghost pre = *ctx;
    let modl_name = match verify_file_path(file_name) {
        Ok(stem) => stem,
        Err(e) => {
            return Err(e);
        },
    };
    let ghost size0 = modl_size(ast::ModlView::ModExp(crate::ast::decls_view(decls@)));
    let ghost dsv = crate::ast::decls_view(decls@);

    let modl_ref = ctx.refs.modl.make_ref();
    ctx.ast.modl.set(modl_ref, ast::Modl::ModExp(decls));
    let file_id = ctx.names.make_ident(modl_name.as_str());
    proof {
        assert(crate::ast::modl_view(ctx.ast.modl@[modl_ref@ as int].unwrap())
            == ast::ModlView::ModExp(dsv));
        assert(ctx.names@ == intern_text(pre.names@, file_stem(file_name@)));
    }

    let g = ctx.global_modl();
    let ghost ir0 = ctx.ir.modl@;
    proof {
        assert(crate::ctx::modl_entry_wf(
            pre.ir.modl@,
            pre.global_modl@ as int,
            pre.refs.modl@,
            pre.refs.decl@,
            pre.refs.cons@,
        ));
    }
    match ctx.ir.modl.get_mut(g) {
        Some(m) => match m.as_record_mut() {
            Ok(rec) => {
                rec.insert_child(file_id, modl_ref);
            },
            Err(_) => {
                return vstd::pervasive::unreached();
            },
        },
        None => {
            return vstd::pervasive::unreached();
        },
    }

    let mut queue: Vec<DeferredModl> = Vec::new();
    queue.push(DeferredModl { name: modl_name, parent: g, modl_ref });

    proof {
        assert(ctx.ir.modl@ =~= ir0.update(g@ as int, ctx.ir.modl@[g@ as int]));
        assert(ctx.ir.modl@[g@ as int] matches Some(gm) && gm is Record);
        assert forall|i: int| 0 <= i < ctx.ir.modl@.len() implies crate::ctx::modl_entry_wf(
            ctx.ir.modl@,
            i,
            ctx.refs.modl@,
            ctx.refs.decl@,
            ctx.refs.cons@,
        ) by {
            assert(crate::ctx::modl_entry_wf(ir0, i, pre.refs.modl@, pre.refs.decl@,
                pre.refs.cons@));
            if i != g@ as int {
                assert(ctx.ir.modl@[i] == ir0[i]);
                match ctx.ir.modl@[i] {
                    Some(m) => match m {
                        ir::Modl::Record(r) => {
                            assert forall|k: int| 0 <= k < r.scope@.len() implies (
                            #[trigger] r.scope@[k])@ < i && crate::ctx::is_record(
                                ctx.ir.modl@,
                                r.scope@[k]@ as int,
                            ) by {
                                assert(crate::ctx::is_record(ir0, r.scope@[k]@ as int));
                            }
                        },
                        ir::Modl::Alias(a) => {
                            assert(crate::ctx::is_record(ir0, a.scope@ as int));
                        },
                    },
                    None => {},
                }
            }
        }
        assert(ctx.wf());
        assert forall|i: int| 0 <= i < ctx.ir.modl@.len() implies modl_entry_pending(
            ctx.ir.modl@,
            i,
            queue@,
        ) by {
            assert(crate::ctx::modl_entry_complete(ir0, i));
            if i != g@ as int {
                assert(ctx.ir.modl@[i] == ir0[i]);
            } else {
                match ctx.ir.modl@[i] {
                    Some(m) => match m {
                        ir::Modl::Record(r) => {
                            assert forall|id: nat| #[trigger] crate::ir::child_lookup(
                                r.children@,
                                id,
                            ) is Some implies {
                                let c = crate::ir::child_lookup(r.children@, id).unwrap();
                                (c < ctx.ir.modl@.len() && ctx.ir.modl@[c as int] is Some)
                                    || exists|j: int|
                                    0 <= j < queue@.len() && (#[trigger] queue@[j]).modl_ref@ == c
                            } by {
                                let c = crate::ir::child_lookup(r.children@, id).unwrap();
                                if id == file_id@ {
                                    assert(queue@[0].modl_ref@ == c);
                                } else {
                                    assert(crate::ir::child_lookup(
                                        ir0[i].unwrap()->Record_0.children@,
                                        id,
                                    ) == Some(c));
                                }
                            }
                        },
                        ir::Modl::Alias(_) => {},
                    },
                    None => {},
                }
            }
        }
        assert(queue_measure(ctx.ast.modl@, queue@) == size0) by {
            assert(queue@.drop_last() =~= Seq::<DeferredModl>::empty());
            assert(queue_measure(ctx.ast.modl@, queue@.drop_last()) == 0);
            assert(queue@.last() == queue@[0]);
        }
    }

    while queue.len() > 0
        invariant
            ctx.wf(),
            ctx.global_modl == pre.global_modl,
            ctx.refs.expr@ == pre.refs.expr@,
            ctx.refs.patn@ == pre.refs.patn@,
            ctx.ast.expr@ == pre.ast.expr@,
            ctx.ast.patn@ == pre.ast.patn@,
            ctx.ir.expr@ == pre.ir.expr@,
            ctx.ir.patn@ == pre.ir.patn@,
            ctx.ir.decl@ == pre.ir.decl@,
            ctx.ir.cons@ == pre.ir.cons@,
            pre.names@.is_prefix_of(ctx.names@),
            ctx.refs.decl@ + queue_measure(ctx.ast.modl@, queue@) <= usize::MAX,
            ctx.refs.cons@ + queue_measure(ctx.ast.modl@, queue@) <= usize::MAX,
            ctx.refs.modl@ + queue_measure(ctx.ast.modl@, queue@) <= usize::MAX,
            forall|j: int|
                0 <= j < queue@.len() ==> {
                    let d = #[trigger] queue@[j];
                    &&& d.modl_ref@ < ctx.ast.modl@.len()
                    &&& ctx.ast.modl@[d.modl_ref@ as int] is Some
                    &&& (d.modl_ref@ < ctx.ir.modl@.len() ==> ctx.ir.modl@[d.modl_ref@ as int]
                        is None)
                    &&& crate::ctx::is_record(ctx.ir.modl@, d.parent@ as int)
                    &&& d.parent@ < d.modl_ref@
                    &&& ctx.global_modl@ < d.modl_ref@
                    &&& d.modl_ref@ >= pre.ir.modl@.len()
                    &&& modl_paths_nonempty(
                        crate::ast::modl_view(ctx.ast.modl@[d.modl_ref@ as int].unwrap()),
                    )
                    &&& d.modl_ref@ < ctx.refs.modl@
                },
            forall|j1: int, j2: int|
                0 <= j1 < j2 < queue@.len() ==> queue@[j1].modl_ref@ != queue@[j2].modl_ref@,
            forall|i: int|
                0 <= i < ctx.ir.modl@.len() ==> #[trigger] modl_entry_pending(
                    ctx.ir.modl@,
                    i,
                    queue@,
                ),
            forall|i: int|
                0 <= i < pre.ir.modl@.len() && i != pre.global_modl@ ==> ctx.ir.modl@[i]
                    == pre.ir.modl@[i],
            pre.ir.modl@.len() <= ctx.ir.modl@.len(),
            modl_ref@ == pre.refs.modl@,
            modl_ref@ < ctx.ir.modl@.len() && ctx.ir.modl@[modl_ref@ as int] is Some || exists|
                j: int,
            |
                0 <= j < queue@.len() && (#[trigger] queue@[j]).modl_ref@ == modl_ref@,
            modl_ref@ < ctx.ast.modl@.len() && ctx.ast.modl@[modl_ref@ as int] is Some
                && crate::ast::modl_view(ctx.ast.modl@[modl_ref@ as int].unwrap())
                == ast::ModlView::ModExp(dsv),
            pre.refs.modl@ < ctx.refs.modl@,
            forall|h: int|
                pre.refs.modl@ <= h < ctx.refs.modl@ ==> h < ctx.ast.modl@.len()
                    && ctx.ast.modl@[h] is Some,
            forall|h: int|
                pre.refs.modl@ <= h < ctx.refs.modl@ && h < ctx.ir.modl@.len()
                    && ctx.ir.modl@[h] is Some ==> #[trigger] entry_lowered(*ctx, h),
            forall|h: int|
                pre.refs.modl@ <= h < ctx.refs.modl@ ==> (h < ctx.ir.modl@.len()
                    && ctx.ir.modl@[h] is Some) || exists|j: int|
                    0 <= j < queue@.len() && (#[trigger] queue@[j]).modl_ref@ == h,
            (queue@.len() == 1 && queue@[0].modl_ref@ == modl_ref@ && queue@[0].parent
                == pre.global_modl && queue@[0].name@ == file_stem(file_name@) && ctx.names@
                == intern_text(pre.names@, file_stem(file_name@)) && ctx.refs.decl@
                == pre.refs.decl@ && ctx.refs.cons@ == pre.refs.cons@ && ctx.refs.modl@
                == pre.refs.modl@ + 1) || (record_entry_lowering(
                *ctx,
                modl_ref@ as int,
                intern_text(pre.names@, file_stem(file_name@)),
                pre.refs.decl@,
                pre.refs.cons@,
                pre.refs.modl@ + 1,
                dsv,
            ) && (ctx.ir.modl@[modl_ref@ as int] matches Some(fm)
                && fm matches ir::Modl::Record(fr) && fr.name@ == file_stem(file_name@)
                && crate::refs::refs_view(fr.scope@) == seq![pre.global_modl@])),
            ctx.ir.modl@[pre.global_modl@ as int] matches Some(g2) && g2 matches ir::Modl::Record(
                gr,
            ) && file_id@ < ctx.names@.len() && ctx.names@[file_id@ as int] == file_stem(
                file_name@,
            ) && crate::ir::child_lookup(gr.children@, file_id@) == Some(modl_ref@),
        decreases queue_measure(ctx.ast.modl@, queue@),
    {
        let ghost q0 = queue@;
        let ghost ctx0 = *ctx;
        let d = queue.remove(0);
        proof {
            assert(q0[0] == d);
            assert(q0 =~= seq![d] + queue@);
            lemma_queue_measure_concat(ctx.ast.modl@, seq![d], queue@);
            assert(seq![d].drop_last() =~= Seq::<DeferredModl>::empty());
            assert(queue_measure(ctx.ast.modl@, seq![d].drop_last()) == 0);
            assert(seq![d].last() == d);
            assert(queue_measure(ctx.ast.modl@, seq![d]) == item_measure(ctx.ast.modl@, d));
        }
        let ghost mv = crate::ast::modl_view(ctx.ast.modl@[d.modl_ref@ as int].unwrap());
        proof {
            match mv {
                ast::ModlView::ModExp(ds) => {
                    lemma_build_model_bounds(ctx.names@, ds);
                },
                ast::ModlView::Named(_) => {},
            }
        }
        let mut more = match process_modl_ast(ctx, d) {
            Ok(v) => v,
            Err(_) => {
                return vstd::pervasive::unreached();
            },
        };
        proof {
            // remaining queue items keep their stored syntax and facts
            assert forall|j: int| 0 <= j < queue@.len() implies (#[trigger] queue@[j]).modl_ref@
                < ctx0.ast.modl@.len() && ctx.ast.modl@[queue@[j].modl_ref@ as int]
                == ctx0.ast.modl@[queue@[j].modl_ref@ as int] && queue@[j].modl_ref@
                < ctx.ast.modl@.len() by {
                assert(q0[j + 1] == queue@[j]);
            }
            lemma_queue_measure_stable(ctx0.ast.modl@, ctx.ast.modl@, queue@);
        }
        let ghost qmid = queue@;
        let ghost more0 = more@;
        queue.append(&mut more);
        proof {
            lemma_queue_measure_concat(ctx.ast.modl@, qmid, more0);
            match mv {
                ast::ModlView::ModExp(ds) => {
                    let o = build_model(ctx0.names@, ds);
                    assert(record_outcome(ctx0, *ctx, d, ds, more0));
                    lemma_build_model_bounds(ctx0.names@, ds);
                    lemma_queue_measure_of_deferred(
                        ctx.ast.modl@,
                        more0,
                        o.mods,
                        ctx0.refs.modl@,
                    );
                },
                ast::ModlView::Named(_) => {
                    assert(more0.len() == 0);
                    assert(queue_measure(ctx.ast.modl@, more0) == 0);
                },
            }
        }
        proof {
            // queue item facts for old and new entries
            assert forall|j: int| 0 <= j < queue@.len() implies {
                let dq = #[trigger] queue@[j];
                &&& dq.modl_ref@ < ctx.ast.modl@.len()
                &&& ctx.ast.modl@[dq.modl_ref@ as int] is Some
                &&& (dq.modl_ref@ < ctx.ir.modl@.len() ==> ctx.ir.modl@[dq.modl_ref@ as int]
                    is None)
                &&& crate::ctx::is_record(ctx.ir.modl@, dq.parent@ as int)
                &&& dq.parent@ < dq.modl_ref@
                &&& ctx.global_modl@ < dq.modl_ref@
                &&& dq.modl_ref@ >= pre.ir.modl@.len()
                &&& modl_paths_nonempty(
                    crate::ast::modl_view(ctx.ast.modl@[dq.modl_ref@ as int].unwrap()),
                )
                &&& dq.modl_ref@ < ctx.refs.modl@
            } by {
                if j < qmid.len() {
                    assert(queue@[j] == qmid[j]);
                    assert(q0[j + 1] == qmid[j]);
                    let dq = queue@[j];
                    assert(dq.modl_ref@ != d.modl_ref@);
                    assert(ctx0.refs.modl@ <= ctx.refs.modl@);
                    assert(ctx.ast.modl@[dq.modl_ref@ as int] == ctx0.ast.modl@[
                        dq.modl_ref@ as int]);
                    assert(modl_paths_nonempty(
                        crate::ast::modl_view(ctx0.ast.modl@[dq.modl_ref@ as int].unwrap()),
                    ));
                    assert(crate::ctx::is_record(ctx0.ir.modl@, dq.parent@ as int));
                    if dq.parent@ as int == d.modl_ref@ as int {
                        assert(ctx0.ir.modl@[d.modl_ref@ as int] is None
                            || d.modl_ref@ >= ctx0.ir.modl@.len());
                        assert(false);
                    }
                    assert(ctx.ir.modl@[dq.parent@ as int] == ctx0.ir.modl@[dq.parent@ as int]);
                } else {
                    assert(queue@[j] == more0[j - qmid.len()]);
                    let k = j - qmid.len();
                    match mv {
                        ast::ModlView::ModExp(ds) => {
                            assert(record_outcome(ctx0, *ctx, d, ds, more0));
                            lemma_build_model_paths(ctx0.names@, ds);
                            let o = build_model(ctx0.names@, ds);
                            let dq = queue@[j];
                            assert(dq.modl_ref@ == ctx0.refs.modl@ + k);
                            assert(ctx.ast.modl@[dq.modl_ref@ as int] is Some);
                            assert(crate::ast::modl_view(ctx.ast.modl@[dq.modl_ref@ as int].unwrap())
                                == o.mods[k]);
                            assert(modl_paths_nonempty(o.mods[k]));
                            assert(ctx0.ir.modl@.len() <= ctx0.refs.modl@);
                            assert(d.modl_ref@ < ctx0.ast.modl@.len());
                            assert(ctx0.ast.modl@.len() <= ctx0.refs.modl@);
                            assert(ctx.ir.modl@.len() == grown_len(
                                ctx0.ir.modl@.len(),
                                d.modl_ref@,
                            ));
                            assert(ctx.ir.modl@.len() <= ctx0.refs.modl@);
                            assert(dq.modl_ref@ >= ctx.ir.modl@.len());
                            assert(crate::ctx::is_record(ctx.ir.modl@, d.modl_ref@ as int));
                            assert(pre.ir.modl@.len() <= ctx0.ir.modl@.len());
                        },
                        ast::ModlView::Named(_) => {},
                    }
                }
            }
            assert forall|j1: int, j2: int|
                0 <= j1 < j2 < queue@.len() implies queue@[j1].modl_ref@
                != queue@[j2].modl_ref@ by {
                if j2 < qmid.len() {
                    assert(queue@[j1] == q0[j1 + 1]);
                    assert(queue@[j2] == q0[j2 + 1]);
                } else if j1 < qmid.len() {
                    assert(queue@[j1] == q0[j1 + 1]);
                    assert(q0[j1 + 1].modl_ref@ < ctx0.refs.modl@);
                    assert(queue@[j2] == more0[j2 - qmid.len()]);
                    match mv {
                        ast::ModlView::ModExp(ds) => {
                            assert(record_outcome(ctx0, *ctx, d, ds, more0));
                        },
                        ast::ModlView::Named(_) => {},
                    }
                } else {
                    assert(queue@[j1] == more0[j1 - qmid.len()]);
                    assert(queue@[j2] == more0[j2 - qmid.len()]);
                    match mv {
                        ast::ModlView::ModExp(ds) => {
                            assert(record_outcome(ctx0, *ctx, d, ds, more0));
                        },
                        ast::ModlView::Named(_) => {},
                    }
                }
            }
            // pending completeness
            match mv {
                ast::ModlView::ModExp(ds) => {
                    let o = build_model(ctx0.names@, ds);
                    assert(record_outcome(ctx0, *ctx, d, ds, more0));
                    lemma_build_model_bounds(ctx0.names@, ds);
                    assert(ctx.ir.modl@[d.modl_ref@ as int].unwrap() matches ir::Modl::Record(r)
                        ==> forall|id: nat|
                        #[trigger] crate::ir::child_lookup(r.children@, id) is Some
                            ==> ctx0.refs.modl@ <= crate::ir::child_lookup(r.children@, id).unwrap()
                            < ctx0.refs.modl@ + more0.len()) by {
                        if ctx.ir.modl@[d.modl_ref@ as int].unwrap() is Record {
                            let r = ctx.ir.modl@[d.modl_ref@ as int].unwrap()->Record_0;
                            assert forall|id: nat| #[trigger] crate::ir::child_lookup(
                                r.children@,
                                id,
                            ) is Some implies ctx0.refs.modl@ <= crate::ir::child_lookup(
                                r.children@,
                                id,
                            ).unwrap() < ctx0.refs.modl@ + more0.len() by {
                                lemma_child_model_bound(
                                    build_model(ctx0.names@, ds).names,
                                    build_model(ctx0.names@, ds).modnames,
                                    ctx0.refs.modl@,
                                    id,
                                );
                            }
                        }
                    }
                },
                ast::ModlView::Named(_) => {},
            }
            assert(qmid =~= q0.drop_first());
            assert(queue@ == q0.drop_first() + more0);
            lemma_pending_after_step(
                ctx0.ir.modl@,
                ctx.ir.modl@,
                q0,
                queue@,
                d,
                more0,
                ctx0.refs.modl@,
            );
            // file module handle: resolved or still queued
            if !(modl_ref@ < ctx.ir.modl@.len() && ctx.ir.modl@[modl_ref@ as int] is Some) {
                let j = choose|j: int|
                    0 <= j < q0.len() && (#[trigger] q0[j]).modl_ref@ == modl_ref@;
                if j == 0 {
                    assert(ctx.ir.modl@[d.modl_ref@ as int] is Some);
                    assert(false);
                } else {
                    assert(queue@[j - 1] == q0[j]);
                }
            }
            // global module child registration survives
            assert(ctx.ir.modl@[pre.global_modl@ as int] == ctx0.ir.modl@[
                pre.global_modl@ as int]) by {
                assert(ctx0.global_modl@ < d.modl_ref@);
            }
            assert forall|i: int|
                0 <= i < pre.ir.modl@.len() && i != pre.global_modl@ implies ctx.ir.modl@[i]
                == pre.ir.modl@[i] by {
                assert(d.modl_ref@ >= pre.ir.modl@.len());
            }
        }
        proof {
            lemma_step_lowering(ctx0, *ctx, d, more0, pre.refs.modl@);
            // every handle issued so far is processed or still queued
            assert forall|h: int| pre.refs.modl@ <= h < ctx.refs.modl@ implies (h
                < ctx.ir.modl@.len() && ctx.ir.modl@[h] is Some) || exists|j: int|
                0 <= j < queue@.len() && (#[trigger] queue@[j]).modl_ref@ == h by {
                if h == d.modl_ref@ as int {
                    assert(ctx.ir.modl@[h] is Some);
                } else if h < ctx0.refs.modl@ {
                    if !(h < ctx0.ir.modl@.len() && ctx0.ir.modl@[h] is Some) {
                        let j = choose|j: int|
                            0 <= j < q0.len() && (#[trigger] q0[j]).modl_ref@ == h;
                        assert(j != 0);
                        assert(queue@[j - 1] == q0[j]);
                    } else {
                        assert(ctx.ir.modl@[h] == ctx0.ir.modl@[h]);
                    }
                } else {
                    match mv {
                        ast::ModlView::ModExp(ds) => {
                            assert(record_outcome(ctx0, *ctx, d, ds, more0));
                            let k = h - ctx0.refs.modl@;
                            assert(queue@[qmid.len() + k].modl_ref@ == h);
                        },
                        ast::ModlView::Named(_) => {},
                    }
                }
            }
            // the file module: lowered on its first pop, undisturbed after
            if d.modl_ref@ == modl_ref@ {
                match mv {
                    ast::ModlView::ModExp(ds) => {
                        assert(ds == dsv);
                        assert(record_outcome(ctx0, *ctx, d, ds, more0));
                        assert(q0[0] == d);
                        assert(ctx0.refs.modl@ == pre.refs.modl@ + 1);
                        assert(record_entry_lowering(
                            *ctx,
                            modl_ref@ as int,
                            intern_text(pre.names@, file_stem(file_name@)),
                            pre.refs.decl@,
                            pre.refs.cons@,
                            pre.refs.modl@ + 1,
                            dsv,
                        ));
                    },
                    ast::ModlView::Named(_) => {
                        assert(false);
                    },
                }
            } else {
                assert(modl_ref@ < ctx.ir.modl@.len() && ctx.ir.modl@[modl_ref@ as int] is Some
                    || exists|j: int|
                    0 <= j < queue@.len() && (#[trigger] queue@[j]).modl_ref@ == modl_ref@);
                assert(record_entry_lowering(
                    ctx0,
                    modl_ref@ as int,
                    intern_text(pre.names@, file_stem(file_name@)),
                    pre.refs.decl@,
                    pre.refs.cons@,
                    pre.refs.modl@ + 1,
                    dsv,
                )) by {
                    assert(!(q0.len() == 1 && q0[0].modl_ref@ == modl_ref@));
                }
                lemma_record_lowering_stable(
                    ctx0,
                    *ctx,
                    modl_ref@ as int,
                    intern_text(pre.names@, file_stem(file_name@)),
                    pre.refs.decl@,
                    pre.refs.cons@,
                    pre.refs.modl@ + 1,
                    dsv,
                );
                assert(ctx.ir.modl@[modl_ref@ as int] == ctx0.ir.modl@[modl_ref@ as int]);
            }
        }
    }
    proof {
        assert forall|i: int|
            0 <= i < ctx.ir.modl@.len() implies #[trigger] crate::ctx::modl_entry_complete(
            ctx.ir.modl@,
            i,
        ) by {
            assert(modl_entry_pending(ctx.ir.modl@, i, queue@));
            match ctx.ir.modl@[i] {
                Some(m) => match m {
                    ir::Modl::Record(r) => {
                        assert forall|id: nat| #[trigger] crate::ir::child_lookup(
                            r.children@,
                            id,
                        ) is Some implies {
                            let c = crate::ir::child_lookup(r.children@, id).unwrap();
                            c < ctx.ir.modl@.len() && ctx.ir.modl@[c as int] is Some
                        } by {
                            let c = crate::ir::child_lookup(r.children@, id).unwrap();
                            assert(!(exists|j: int|
                                0 <= j < queue@.len() && (#[trigger] queue@[j]).modl_ref@ == c));
                        }
                    },
                    ir::Modl::Alias(_) => {},
                },
                None => {},
            }
        }
    }
    Ok(modl_ref)
}

/// How many slots of a visited set are still unmarked.
pub open spec fn count_false(s: Seq<bool>) -> nat
    decreases s.len(),
{
    if s.len() == 0 {
        0
    } else {
        count_false(s.drop_last()) + if s.last() {
            0nat
        } else {
            1nat
        }
    }
}

/// Marking an unmarked slot strictly shrinks the unmarked count; marking any
/// slot never grows it.
pub proof fn lemma_count_false_update(s: Seq<bool>, i: int)
    requires
        0 <= i < s.len(),
    ensures
        !s[i] ==> count_false(s.update(i, true)) < count_false(s),
        count_false(s.update(i, true)) <= count_false(s),
    decreases s.len(),
{
    if i == s.len() - 1 {
        assert(s.update(i, true).drop_last() =~= s.drop_last());
        assert(s.update(i, true).last());
    } else {
        lemma_count_false_update(s.drop_last(), i);
        assert(s.update(i, true).drop_last() =~= s.drop_last().update(i, true));
        assert(s.update(i, true).last() == s.last());
    }
}

/// One hop of the alias chase: the target of a resolved alias, nothing for
/// a record, an unset alias, or an unpopulated handle.
pub open spec fn alias_step(ir: Seq<Option<ir::Modl>>, x: nat) -> Option<nat> {
    if x < ir.len() && ir[x as int] is Some {
        match ir[x as int].unwrap() {
            ir::Modl::Alias(a) => match a.aliased {
                Some(t) => Some(t@),
                None => None,
            },
            ir::Modl::Record(_) => None,
        }
    } else {
        None
    }
}

/// The chase from `x` arrives at `y` after exactly `n` hops.
pub open spec fn reaches_n(ir: Seq<Option<ir::Modl>>, x: nat, y: nat, n: nat) -> bool
    decreases n,
{
    if n == 0 {
        x == y
    } else {
        alias_step(ir, x) matches Some(z) && reaches_n(ir, z, y, (n - 1) as nat)
    }
}

/// A reached node with one more hop is reached one hop later.
pub proof fn lemma_reaches_snoc(ir: Seq<Option<ir::Modl>>, x: nat, y: nat, n: nat, z: nat)
    requires
        reaches_n(ir, x, y, n),
        alias_step(ir, y) == Some(z),
    ensures
        reaches_n(ir, x, z, n + 1),
    decreases n,
{
    if n == 0 {
        assert(reaches_n(ir, z, z, 0));
    } else {
        let w = alias_step(ir, x).unwrap();
        lemma_reaches_snoc(ir, w, y, (n - 1) as nat, z);
    }
}

/// Chases concatenate.
pub proof fn lemma_reaches_concat(ir: Seq<Option<ir::Modl>>, x: nat, y: nat, z: nat, a: nat, b: nat)
    requires
        reaches_n(ir, x, y, a),
        reaches_n(ir, y, z, b),
    ensures
        reaches_n(ir, x, z, a + b),
    decreases a,
{
    if a > 0 {
        let w = alias_step(ir, x).unwrap();
        lemma_reaches_concat(ir, w, y, z, (a - 1) as nat, b);
    }
}

/// The chase is deterministic: after `n` hops from `x` there is one place to
/// be.
pub proof fn lemma_reaches_deterministic(
    ir: Seq<Option<ir::Modl>>,
    x: nat,
    y: nat,
    z: nat,
    n: nat,
)
    requires
        reaches_n(ir, x, y, n),
        reaches_n(ir, x, z, n),
    ensures
        y == z,
    decreases n,
{
    if n > 0 {
        let w = alias_step(ir, x).unwrap();
        lemma_reaches_deterministic(ir, w, y, z, (n - 1) as nat);
    }
}

/// A longer chase from the same start passes through the shorter one's end.
pub proof fn lemma_reaches_decompose(
    ir: Seq<Option<ir::Modl>>,
    x: nat,
    y: nat,
    z: nat,
    a: nat,
    b: nat,
)
    requires
        reaches_n(ir, x, y, a),
        reaches_n(ir, x, z, b),
        a <= b,
    ensures
        reaches_n(ir, y, z, (b - a) as nat),
    decreases a,
{
    if a > 0 {
        let w = alias_step(ir, x).unwrap();
        lemma_reaches_decompose(ir, w, y, z, (a - 1) as nat, (b - 1) as nat);
    }
}

/// Cycle detection, the heart of it: an alias chain that comes back to
/// itself reaches no module record, however far it is chased — so a chase
/// that must end at a record can only fail on it, never succeed.
pub proof fn lemma_cycle_reaches_no_record(
    ir: Seq<Option<ir::Modl>>,
    s: nat,
    p: nat,
    y: nat,
    n: nat,
)
    requires
        reaches_n(ir, s, s, p),
        p >= 1,
        reaches_n(ir, s, y, n),
    ensures
        !crate::ctx::is_record(ir, y as int),
        alias_step(ir, y) is Some,
    decreases n,
{
    if n < p {
        lemma_reaches_decompose(ir, s, y, s, n, p);
        if (p - n) as nat > 0 {
            assert(alias_step(ir, y) is Some);
        }
    } else {
        lemma_reaches_decompose(ir, s, s, y, p, n);
        lemma_cycle_reaches_no_record(ir, s, p, y, (n - p) as nat);
    }
}

/// A resolution failure witnessed along a chase: some reachable alias never
/// resolved, or the chain comes back on itself.
pub open spec fn chase_stuck(ir: Seq<Option<ir::Modl>>, x: nat) -> bool {
    (exists|y: nat, n: nat|
        reaches_n(ir, x, y, n) && crate::ctx::is_alias(ir, y as int) && alias_step(ir, y) is None)
        || (exists|y: nat, n: nat, p: nat|
        reaches_n(ir, x, y, n) && p >= 1 && reaches_n(ir, y, y, p))
}

/// Chase an alias chain to its final module record. A record is its own
/// target; an alias is followed through its resolved target, failing on one
/// that never resolved, and failing — never looping — when the chain comes
/// back to a module already visited.
pub fn resolve_alias_target(ctx: &Context, modl_ref: ModlRef) -> (r: Result<ModlRef, FridayError>)
    requires
        ctx.wf(),
        ctx.complete(),
        modl_ref@ < ctx.ir.modl@.len(),
        ctx.ir.modl@[modl_ref@ as int] is Some,
    ensures
        match r {
            Ok(t) => t@ < ctx.ir.modl@.len() && crate::ctx::is_record(ctx.ir.modl@, t@ as int)
                && exists|n: nat| reaches_n(ctx.ir.modl@, modl_ref@, t@, n),
            Err(e) => e is UnresolvableModulePath && chase_stuck(ctx.ir.modl@, modl_ref@),
        },
{
    let len = ctx.ir.modl.len();
    let mut seen: Vec<bool> = Vec::new();
    while seen.len() < len
        invariant
            seen@.len() <= len,
            forall|i: int| 0 <= i < seen@.len() ==> !seen@[i],
        decreases len - seen@.len(),
    {
        seen.push(false);
    }
    let mut cur = modl_ref;
    let ghost mut n: nat = 0;
    proof {
        assert(reaches_n(ctx.ir.modl@, modl_ref@, cur@, 0));
    }
    loop
        invariant
            ctx.wf(),
            ctx.complete(),
            len == ctx.ir.modl@.len(),
            seen@.len() == ctx.ir.modl@.len(),
            cur@ < ctx.ir.modl@.len(),
            ctx.ir.modl@[cur@ as int] is Some,
            reaches_n(ctx.ir.modl@, modl_ref@, cur@, n),
            forall|i: int|
                0 <= i < seen@.len() && seen@[i] ==> exists|m: nat|
                    m <= n && #[trigger] reaches_n(ctx.ir.modl@, modl_ref@, i as nat, m),
        decreases count_false(seen@),
    {
        let found: Option<ModlRef> = match ctx.ir.modl.get(cur) {
            Some(m) => match m {
                ir::Modl::Record(_) => Some(cur),
                ir::Modl::Alias(a) => match a.aliased {
                    None => {
                        proof {
                            assert(crate::ctx::is_alias(ctx.ir.modl@, cur@ as int));
                            assert(alias_step(ctx.ir.modl@, cur@) is None);
                            assert(chase_stuck(ctx.ir.modl@, modl_ref@));
                        }
                        let mut msg = a.name.clone();
                        msg.append(" does not resolve");
                        return Err(FridayError::UnresolvableModulePath(msg));
                    },
                    Some(t) => {
                        proof {
                            assert(crate::ctx::modl_entry_complete(ctx.ir.modl@, cur@ as int));
                            assert(alias_step(ctx.ir.modl@, cur@) == Some(t@));
                            lemma_reaches_snoc(ctx.ir.modl@, modl_ref@, cur@, n, t@);
                        }
                        if seen[t.index()] {
                            proof {
                                let m = choose|m: nat|
                                    m <= n && reaches_n(ctx.ir.modl@, modl_ref@, t@, m);
                                lemma_reaches_decompose(
                                    ctx.ir.modl@,
                                    modl_ref@,
                                    t@,
                                    t@,
                                    m,
                                    n + 1,
                                );
                                assert(reaches_n(ctx.ir.modl@, t@, t@, (n + 1 - m) as nat));
                                assert(chase_stuck(ctx.ir.modl@, modl_ref@));
                            }
                            let mut msg = a.name.clone();
                            msg.append(" is self referential");
                            return Err(FridayError::UnresolvableModulePath(msg));
                        }
                        proof {
                            lemma_count_false_update(seen@, t@ as int);
                        }
                        seen.set(t.index(), true);
                        proof {
                            let ghost n0 = n;
                            n = n + 1;
                            assert forall|i: int| 0 <= i < seen@.len() && seen@[i] implies exists|
                                m: nat,
                            |
                                m <= n && #[trigger] reaches_n(
                                    ctx.ir.modl@,
                                    modl_ref@,
                                    i as nat,
                                    m,
                                ) by {
                                if i == t@ as int {
                                    assert(reaches_n(ctx.ir.modl@, modl_ref@, i as nat, n));
                                } else {
                                    let m = choose|m: nat|
                                        m <= n0 && #[trigger] reaches_n(
                                            ctx.ir.modl@,
                                            modl_ref@,
                                            i as nat,
                                            m,
                                        );
                                    assert(reaches_n(ctx.ir.modl@, modl_ref@, i as nat, m));
                                }
                            }
                        }
                        None
                    },
                },
            },
            None => vstd::pervasive::unreached(),
        };
        match found {
            Some(t) => {
                return Ok(t);
            },
            None => {
                let t = match ctx.ir.modl.get(cur) {
                    Some(m) => match m {
                        ir::Modl::Alias(a) => match a.aliased {
                            Some(t) => t,
                            None => vstd::pervasive::unreached(),
                        },
                        ir::Modl::Record(_) => vstd::pervasive::unreached(),
                    },
                    None => vstd::pervasive::unreached(),
                };
                cur = t;
            },
        }
    }
}

/// The candidate scope of a module: the module itself, then every module
/// transitively reachable through its scope list, depth first in scope-list
/// order. Scope entries always carry smaller handles, so the walk is
/// well founded.
pub open spec fn scope_chain(ir: Seq<Option<ir::Modl>>, m: nat) -> Seq<nat>
    decreases m, 1nat, 0nat,
{
    if crate::ctx::is_record(ir, m as int) {
        seq![m] + scope_chain_list(
            ir,
            crate::refs::refs_view(ir[m as int].unwrap()->Record_0.scope@),
            m,
        )
    } else {
        seq![m]
    }
}

/// The concatenated candidate scopes of a list of scope entries, each
/// strictly below `bound`.
pub open spec fn scope_chain_list(ir: Seq<Option<ir::Modl>>, entries: Seq<nat>, bound: nat) -> Seq<
    nat,
>
    decreases bound, 0nat, entries.len(),
{
    if entries.len() == 0 {
        Seq::empty()
    } else {
        (if entries[0] < bound {
            scope_chain(ir, entries[0])
        } else {
            Seq::empty()
        }) + scope_chain_list(ir, entries.drop_first(), bound)
    }
}

/// Walking one more scope entry appends its candidate scope.
proof fn lemma_scope_chain_list_push(
    ir: Seq<Option<ir::Modl>>,
    entries: Seq<nat>,
    x: nat,
    bound: nat,
)
    ensures
        scope_chain_list(ir, entries.push(x), bound) == scope_chain_list(ir, entries, bound) + (if x
            < bound {
            scope_chain(ir, x)
        } else {
            Seq::<nat>::empty()
        }),
    decreases entries.len(),
{
    if entries.len() == 0 {
        assert(entries.push(x).drop_first() =~= entries);
        assert(entries.push(x)[0] == x);
        assert(scope_chain_list(ir, entries.push(x), bound) =~= scope_chain_list(
            ir,
            entries,
            bound,
        ) + (if x < bound {
            scope_chain(ir, x)
        } else {
            Seq::<nat>::empty()
        }));
    } else {
        assert(entries.push(x)[0] == entries[0]);
        assert(entries.push(x).drop_first() =~= entries.drop_first().push(x));
        lemma_scope_chain_list_push(ir, entries.drop_first(), x, bound);
        assert(scope_chain_list(ir, entries.push(x), bound) =~= scope_chain_list(
            ir,
            entries,
            bound,
        ) + (if x < bound {
            scope_chain(ir, x)
        } else {
            Seq::<nat>::empty()
        }));
    }
}

/// Every module on a candidate scope chain is a populated record.
proof fn lemma_scope_chain_records(ir: Seq<Option<ir::Modl>>, m: nat, n_m: nat, n_d: nat, n_c: nat)
    requires
        forall|i: int| 0 <= i < ir.len() ==> crate::ctx::modl_entry_wf(ir, i, n_m, n_d, n_c),
        crate::ctx::is_record(ir, m as int),
    ensures
        forall|j: int|
            0 <= j < scope_chain(ir, m).len() ==> crate::ctx::is_record(
                ir,
                #[trigger] scope_chain(ir, m)[j] as int,
            ),
        scope_chain(ir, m).len() >= 1,
        scope_chain(ir, m)[0] == m,
    decreases m, 1nat, 0nat,
{
    assert(crate::ctx::modl_entry_wf(ir, m as int, n_m, n_d, n_c));
    let r = ir[m as int].unwrap()->Record_0;
    let es = crate::refs::refs_view(r.scope@);
    assert forall|k: int| 0 <= k < es.len() implies es[k] < m && crate::ctx::is_record(
        ir,
        es[k] as int,
    ) by {
        assert(es[k] == r.scope@[k]@);
    }
    lemma_scope_chain_list_records(ir, es, m, n_m, n_d, n_c);
    let ch = scope_chain(ir, m);
    let lst = scope_chain_list(ir, es, m);
    assert(ch == seq![m] + lst);
    assert forall|j: int| 0 <= j < ch.len() implies crate::ctx::is_record(
        ir,
        #[trigger] ch[j] as int,
    ) by {
        if j == 0 {
            assert(ch[0] == m);
        } else {
            assert(ch[j] == lst[j - 1]);
        }
    }
}

/// Every module on the chains of a scope list is a populated record.
proof fn lemma_scope_chain_list_records(
    ir: Seq<Option<ir::Modl>>,
    entries: Seq<nat>,
    bound: nat,
    n_m: nat,
    n_d: nat,
    n_c: nat,
)
    requires
        forall|i: int| 0 <= i < ir.len() ==> crate::ctx::modl_entry_wf(ir, i, n_m, n_d, n_c),
        forall|k: int|
            0 <= k < entries.len() ==> #[trigger] entries[k] < bound && crate::ctx::is_record(
                ir,
                entries[k] as int,
            ),
    ensures
        forall|j: int|
            0 <= j < scope_chain_list(ir, entries, bound).len() ==> crate::ctx::is_record(
                ir,
                #[trigger] scope_chain_list(ir, entries, bound)[j] as int,
            ),
    decreases bound, 0nat, entries.len(),
{
    if entries.len() > 0 {
        lemma_scope_chain_records(ir, entries[0], n_m, n_d, n_c);
        assert forall|k: int| 0 <= k < entries.drop_first().len() implies #[trigger] entries.drop_first()[k]
            < bound && crate::ctx::is_record(ir, entries.drop_first()[k] as int) by {
            assert(entries.drop_first()[k] == entries[k + 1]);
        }
        lemma_scope_chain_list_records(ir, entries.drop_first(), bound, n_m, n_d, n_c);
        let whole = scope_chain_list(ir, entries, bound);
        let head = scope_chain(ir, entries[0]);
        let tail = scope_chain_list(ir, entries.drop_first(), bound);
        assert(whole == head + tail);
        assert forall|j: int| 0 <= j < whole.len() implies crate::ctx::is_record(
            ir,
            #[trigger] whole[j] as int,
        ) by {
            if j < head.len() {
                assert(whole[j] == head[j]);
            } else {
                assert(whole[j] == tail[j - head.len()]);
            }
        }
    }
}

/// Collect a module's candidate scope: itself, then, depth first and in
/// order, everything its scope list reaches.
pub fn collect_scope(ctx: &Context, m: ModlRef) -> (r: Vec<ModlRef>)
    requires
        ctx.wf(),
        crate::ctx::is_record(ctx.ir.modl@, m@ as int),
    ensures
        crate::refs::refs_view(r@) == scope_chain(ctx.ir.modl@, m@),
        forall|j: int|
            0 <= j < r@.len() ==> crate::ctx::is_record(ctx.ir.modl@, (#[trigger] r@[j])@ as int),
    decreases m@,
{
    let mut out: Vec<ModlRef> = Vec::new();
    out.push(m);
    let rec = match ctx.ir.modl.get(m) {
        Some(mm) => match mm {
            ir::Modl::Record(r) => r,
            ir::Modl::Alias(_) => vstd::pervasive::unreached(),
        },
        None => vstd::pervasive::unreached(),
    };
    proof {
        assert(crate::ctx::modl_entry_wf(
            ctx.ir.modl@,
            m@ as int,
            ctx.refs.modl@,
            ctx.refs.decl@,
            ctx.refs.cons@,
        ));
        assert(crate::refs::refs_view(rec.scope@).subrange(0, 0) =~= Seq::<nat>::empty());
        assert(crate::refs::refs_view(out@) =~= seq![m@] + scope_chain_list(
            ctx.ir.modl@,
            crate::refs::refs_view(rec.scope@).subrange(0, 0),
            m@,
        ));
    }
    let ghost es = crate::refs::refs_view(rec.scope@);
    let n = rec.scope.len();
    let mut k: usize = 0;
    while k < n
        invariant
            k <= n,
            n == rec.scope@.len(),
            ctx.wf(),
            crate::ctx::is_record(ctx.ir.modl@, m@ as int),
            es == crate::refs::refs_view(rec.scope@),
            rec == ctx.ir.modl@[m@ as int].unwrap()->Record_0,
            forall|j: int|
                0 <= j < n ==> (#[trigger] rec.scope@[j])@ < m@ && crate::ctx::is_record(
                    ctx.ir.modl@,
                    rec.scope@[j]@ as int,
                ),
            crate::refs::refs_view(out@) == seq![m@] + scope_chain_list(
                ctx.ir.modl@,
                es.subrange(0, k as int),
                m@,
            ),
            forall|j: int|
                0 <= j < out@.len() ==> crate::ctx::is_record(
                    ctx.ir.modl@,
                    (#[trigger] out@[j])@ as int,
                ),
        decreases n - k,
    {
        proof {
            assert(es[k as int] == rec.scope@[k as int]@);
        }
        let mut sub = collect_scope(ctx, rec.scope[k]);
        let ghost out1 = out@;
        let ghost sub1 = sub@;
        out.append(&mut sub);
        proof {
            lemma_scope_chain_list_push(ctx.ir.modl@, es.subrange(0, k as int), es[k as int], m@);
            assert(es.subrange(0, k as int).push(es[k as int]) =~= es.subrange(0, k as int + 1));
            assert(crate::refs::refs_view(out@) =~= crate::refs::refs_view(out1)
                + crate::refs::refs_view(sub1));
            assert(crate::refs::refs_view(out@) =~= seq![m@] + scope_chain_list(
                ctx.ir.modl@,
                es.subrange(0, k as int + 1),
                m@,
            ));
            assert forall|j: int| 0 <= j < out@.len() implies crate::ctx::is_record(
                ctx.ir.modl@,
                (#[trigger] out@[j])@ as int,
            ) by {
                if j < out1.len() {
                    assert(out@[j] == out1[j]);
                } else {
                    assert(out@[j] == sub1[j - out1.len()]);
                }
            }
        }
        k = k + 1;
    }
    proof {
        assert(es.subrange(0, n as int) =~= es);
        assert(scope_chain(ctx.ir.modl@, m@) == seq![m@] + scope_chain_list(ctx.ir.modl@, es, m@));
    }
    out
}

/// Scope entry `s` offers the first path segment: it is a record whose
/// children map the segment to some module other than the alias itself.
pub open spec fn scope_entry_matches(
    ir: Seq<Option<ir::Modl>>,
    s: nat,
    seg: nat,
    self_ref: nat,
) -> bool {
    crate::ctx::is_record(ir, s as int) && match crate::ir::child_lookup(
        ir[s as int].unwrap()->Record_0.children@,
        seg,
    ) {
        Some(c) => c != self_ref,
        None => false,
    }
}

/// The first candidate scope entry that offers the segment, in scope order.
pub open spec fn first_scope_match(
    ir: Seq<Option<ir::Modl>>,
    list: Seq<nat>,
    seg: nat,
    self_ref: nat,
) -> Option<nat>
    decreases list.len(),
{
    if list.len() == 0 {
        None
    } else if scope_entry_matches(ir, list[0], seg, self_ref) {
        Some(list[0])
    } else {
        first_scope_match(ir, list.drop_first(), seg, self_ref)
    }
}

/// Search the candidate scope list, in order, for the first module whose
/// children contain the segment mapped to something other than the alias
/// itself: scope precedence is exactly first match in scope order.
pub fn find_first_segment(
    ctx: &Context,
    scope_list: &Vec<ModlRef>,
    seg: Ident,
    self_ref: ModlRef,
) -> (r: Option<ModlRef>)
    requires
        ctx.wf(),
        forall|j: int|
            0 <= j < scope_list@.len() ==> crate::ctx::is_record(
                ctx.ir.modl@,
                (#[trigger] scope_list@[j])@ as int,
            ),
    ensures
        match r {
            Some(s) => first_scope_match(
                ctx.ir.modl@,
                crate::refs::refs_view(scope_list@),
                seg@,
                self_ref@,
            ) == Some(s@),
            None => first_scope_match(
                ctx.ir.modl@,
                crate::refs::refs_view(scope_list@),
                seg@,
                self_ref@,
            ) is None,
        },
{
    let ghost list = crate::refs::refs_view(scope_list@);
    let n = scope_list.len();
    let mut j: usize = 0;
    proof {
        assert(list.skip(0) =~= list);
    }
    while j < n
        invariant
            j <= n,
            n == scope_list@.len(),
            ctx.wf(),
            list == crate::refs::refs_view(scope_list@),
            forall|j2: int|
                0 <= j2 < scope_list@.len() ==> crate::ctx::is_record(
                    ctx.ir.modl@,
                    (#[trigger] scope_list@[j2])@ as int,
                ),
            first_scope_match(ctx.ir.modl@, list, seg@, self_ref@) == first_scope_match(
                ctx.ir.modl@,
                list.skip(j as int),
                seg@,
                self_ref@,
            ),
        decreases n - j,
    {
        proof {
            assert(list.skip(j as int)[0] == list[j as int]);
            assert(list[j as int] == scope_list@[j as int]@);
            assert(list.skip(j as int).drop_first() =~= list.skip(j as int + 1));
        }
        let s = scope_list[j];
        let rec = match ctx.ir.modl.get(s) {
            Some(mm) => match mm {
                ir::Modl::Record(r) => r,
                ir::Modl::Alias(_) => vstd::pervasive::unreached(),
            },
            None => vstd::pervasive::unreached(),
        };
        match rec.child(seg) {
            Some(c) => {
                if c.index() != self_ref.index() {
                    proof {
                        assert(scope_entry_matches(ctx.ir.modl@, list[j as int], seg@, self_ref@));
                    }
                    return Some(s);
                }
            },
            None => {},
        }
        proof {
            assert(!scope_entry_matches(ctx.ir.modl@, list[j as int], seg@, self_ref@));
        }
        j = j + 1;
    }
    proof {
        assert(list.skip(n as int) =~= Seq::<nat>::empty());
    }
    None
}

/// Marks only ever accumulate, so the unmarked count never grows.
proof fn lemma_count_false_monotone(s1: Seq<bool>, s2: Seq<bool>)
    requires
        s2.len() == s1.len(),
        forall|i: int| 0 <= i < s1.len() && s1[i] ==> s2[i],
    ensures
        count_false(s2) <= count_false(s1),
    decreases s1.len(),
{
    if s1.len() > 0 {
        assert forall|i: int| 0 <= i < s1.drop_last().len() && s1.drop_last()[i] implies
            s2.drop_last()[i] by {
            assert(s1.drop_last()[i] == s1[i]);
        }
        lemma_count_false_monotone(s1.drop_last(), s2.drop_last());
        assert(s1.last() == s1[s1.len() - 1]);
        assert(s2.last() == s2[s2.len() - 1]);
    }
}

/// What alias resolution never changes in one module entry: a record stays
/// exactly itself; an alias keeps its name, defining scope and path, and a
/// target, once set, is never unset (though compression may redirect it).
pub open spec fn entry_resolution_shape(e1: Option<ir::Modl>, e2: Option<ir::Modl>) -> bool {
    match e1 {
        None => e2 is None,
        Some(m1) => match m1 {
            ir::Modl::Record(_) => e2 == e1,
            ir::Modl::Alias(a1) => e2 matches Some(m2) && m2 matches ir::Modl::Alias(a2)
                && a2.name == a1.name && a2.scope == a1.scope && a2.path == a1.path && (a1.aliased
                is Some ==> a2.aliased is Some),
        },
    }
}

/// Path resolution assigns targets monotonically: records are untouched and
/// every alias keeps its identity, gaining a target at most.
pub open spec fn aliased_monotone(ir1: Seq<Option<ir::Modl>>, ir2: Seq<Option<ir::Modl>>) -> bool {
    ir2.len() == ir1.len() && forall|i: int|
        0 <= i < ir1.len() ==> #[trigger] entry_resolution_shape(ir1[i], ir2[i])
}

/// During path resolution an assigned target is also kept verbatim.
pub open spec fn aliased_preserved(ir1: Seq<Option<ir::Modl>>, ir2: Seq<Option<ir::Modl>>) -> bool {
    forall|i: int|
        0 <= i < ir1.len() && ir1[i] is Some && (#[trigger] ir1[i].unwrap() matches ir::Modl::Alias(
            a1,
        ) && a1.aliased is Some) ==> ir2[i] == ir1[i]
}

/// Alias resolution reads and writes only the module graph: the interner,
/// counters, raw syntax and global handle stay put.
pub open spec fn resolution_untouched(pre: Context, post: Context) -> bool {
    &&& post.global_modl == pre.global_modl
    &&& post.names@ == pre.names@
    &&& post.refs.expr@ == pre.refs.expr@
    &&& post.refs.patn@ == pre.refs.patn@
    &&& post.refs.decl@ == pre.refs.decl@
    &&& post.refs.cons@ == pre.refs.cons@
    &&& post.refs.modl@ == pre.refs.modl@
    &&& post.ast.expr@ == pre.ast.expr@
    &&& post.ast.patn@ == pre.ast.patn@
    &&& post.ast.decl@ == pre.ast.decl@
    &&& post.ast.cons@ == pre.ast.cons@
    &&& post.ast.modl@ == pre.ast.modl@
    &&& post.ir.expr@ == pre.ir.expr@
    &&& post.ir.patn@ == pre.ir.patn@
    &&& post.ir.decl@ == pre.ir.decl@
    &&& post.ir.cons@ == pre.ir.cons@
}

/// Resolution shapes compose across successive passes.
proof fn lemma_resolution_shape_trans(
    ir1: Seq<Option<ir::Modl>>,
    ir2: Seq<Option<ir::Modl>>,
    ir3: Seq<Option<ir::Modl>>,
)
    requires
        aliased_monotone(ir1, ir2),
        aliased_monotone(ir2, ir3),
        aliased_preserved(ir1, ir2),
        aliased_preserved(ir2, ir3),
    ensures
        aliased_monotone(ir1, ir3),
        aliased_preserved(ir1, ir3),
{
    assert forall|i: int| 0 <= i < ir1.len() implies #[trigger] entry_resolution_shape(
        ir1[i],
        ir3[i],
    ) by {
        assert(entry_resolution_shape(ir1[i], ir2[i]));
        assert(entry_resolution_shape(ir2[i], ir3[i]));
    }
    assert forall|i: int|
        0 <= i < ir1.len() && ir1[i] is Some && (#[trigger] ir1[i].unwrap()
            matches ir::Modl::Alias(a1) && a1.aliased is Some) implies ir3[i] == ir1[i] by {
        assert(ir2[i] == ir1[i]);
    }
}

/// The first match of a scope search is a matching entry.
proof fn lemma_first_match_matches(
    ir: Seq<Option<ir::Modl>>,
    list: Seq<nat>,
    seg: nat,
    self_ref: nat,
)
    ensures
        first_scope_match(ir, list, seg, self_ref) matches Some(s) ==> scope_entry_matches(
            ir,
            s,
            seg,
            self_ref,
        ),
    decreases list.len(),
{
    if list.len() > 0 && !scope_entry_matches(ir, list[0], seg, self_ref) {
        lemma_first_match_matches(ir, list.drop_first(), seg, self_ref);
    }
}

/// Assigning one alias's target, to a populated module with an issued
/// handle, keeps every module entry well formed and complete.
proof fn lemma_set_aliased(
    ir1: Seq<Option<ir::Modl>>,
    ir2: Seq<Option<ir::Modl>>,
    at: int,
    t: nat,
    n_m: nat,
    n_d: nat,
    n_c: nat,
)
    requires
        0 <= at < ir1.len(),
        ir2.len() == ir1.len(),
        forall|i: int| 0 <= i < ir2.len() && i != at ==> ir2[i] == ir1[i],
        ir1[at] is Some && ir1[at].unwrap() is Alias,
        ir2[at] is Some && ir2[at].unwrap() is Alias,
        ir2[at].unwrap()->Alias_0.scope == ir1[at].unwrap()->Alias_0.scope,
        ir2[at].unwrap()->Alias_0.path == ir1[at].unwrap()->Alias_0.path,
        ir2[at].unwrap()->Alias_0.aliased matches Some(tr) && tr@ == t,
        t < n_m,
        t < ir2.len(),
        ir2[t as int] is Some,
        forall|i: int| 0 <= i < ir1.len() ==> crate::ctx::modl_entry_wf(ir1, i, n_m, n_d, n_c),
        forall|i: int| 0 <= i < ir1.len() ==> #[trigger] crate::ctx::modl_entry_complete(ir1, i),
    ensures
        forall|i: int| 0 <= i < ir2.len() ==> crate::ctx::modl_entry_wf(ir2, i, n_m, n_d, n_c),
        forall|i: int| 0 <= i < ir2.len() ==> #[trigger] crate::ctx::modl_entry_complete(ir2, i),
{
    assert forall|i: int|
        #![trigger crate::ctx::modl_entry_wf(ir2, i, n_m, n_d, n_c)]
        #![trigger crate::ctx::modl_entry_complete(ir2, i)]
        0 <= i < ir2.len() implies crate::ctx::modl_entry_wf(ir2, i, n_m, n_d, n_c)
        && crate::ctx::modl_entry_complete(ir2, i) by {
        assert(crate::ctx::modl_entry_wf(ir1, i, n_m, n_d, n_c));
        assert(crate::ctx::modl_entry_complete(ir1, i));
        if i == at {
            let a1 = ir1[at].unwrap()->Alias_0;
            assert(crate::ctx::is_record(ir1, a1.scope@ as int));
            assert(a1.scope@ != at);
            assert(ir2[a1.scope@ as int] == ir1[a1.scope@ as int]);
        } else {
            match ir2[i] {
                Some(m) => match m {
                    ir::Modl::Record(r) => {
                        assert forall|k: int| 0 <= k < r.scope@.len() implies (
                        #[trigger] r.scope@[k])@ < i && crate::ctx::is_record(
                            ir2,
                            r.scope@[k]@ as int,
                        ) by {
                            assert(crate::ctx::is_record(ir1, r.scope@[k]@ as int));
                            assert(r.scope@[k]@ != at);
                        }
                        assert forall|id: nat| #[trigger] crate::ir::child_lookup(
                            r.children@,
                            id,
                        ) is Some implies {
                            let c = crate::ir::child_lookup(r.children@, id).unwrap();
                            c < ir2.len() && ir2[c as int] is Some
                        } by {
                            let c = crate::ir::child_lookup(r.children@, id).unwrap();
                            if c as int != at {
                                assert(ir2[c as int] == ir1[c as int]);
                            }
                        }
                    },
                    ir::Modl::Alias(a) => {
                        assert(crate::ctx::is_record(ir1, a.scope@ as int));
                        assert(a.scope@ != at);
                        match a.aliased {
                            Some(tt) => {
                                if tt@ as int != at {
                                    assert(ir2[tt@ as int] == ir1[tt@ as int]);
                                }
                            },
                            None => {},
                        }
                    },
                },
                None => {},
            }
        }
    }
}

/// Resolve one alias's dotted path, marking every alias stepped through in
/// `visited` so that a chain coming back on itself fails instead of looping.
/// The first segment is searched for through the candidate scope, first
/// match winning; each segment then steps through a record's children,
/// resolving any alias met on the way first — the only recursion, bounded by
/// the unvisited count.
#[verifier::rlimit(100)]
fn resolve_path_rec(ctx: &mut Context, modl_ref: ModlRef, visited: &mut Vec<bool>) -> (r: Result<
    ModlRef,
    FridayError,
>)
    requires
        old(ctx).wf(),
        old(ctx).complete(),
        crate::ctx::is_alias(old(ctx).ir.modl@, modl_ref@ as int),
        old(ctx).ir.modl@[modl_ref@ as int].unwrap()->Alias_0.aliased is None,
        old(visited)@.len() == old(ctx).ir.modl@.len(),
        old(visited)@[modl_ref@ as int],
    ensures
        final(ctx).wf(),
        final(ctx).complete(),
        resolution_untouched(*old(ctx), *final(ctx)),
        aliased_monotone(old(ctx).ir.modl@, final(ctx).ir.modl@),
        aliased_preserved(old(ctx).ir.modl@, final(ctx).ir.modl@),
        final(visited)@.len() == old(visited)@.len(),
        forall|i: int| 0 <= i < old(visited)@.len() && old(visited)@[i] ==> final(visited)@[i],
        forall|i: int|
            0 <= i < old(visited)@.len() && old(visited)@[i] && i != modl_ref@
                ==> final(ctx).ir.modl@[i] == old(ctx).ir.modl@[i],
        match r {
            Ok(t) => t@ < final(ctx).ir.modl@.len() && final(ctx).ir.modl@[t@ as int] is Some && (
            final(ctx).ir.modl@[modl_ref@ as int] matches Some(mm) && mm matches ir::Modl::Alias(a)
                && a.aliased matches Some(tr) && tr@ == t@) && ({
                let a0 = old(ctx).ir.modl@[modl_ref@ as int].unwrap()->Alias_0;
                let ids = ident_ids(a0.path@);
                let anchor = first_scope_match(
                    old(ctx).ir.modl@,
                    scope_chain(old(ctx).ir.modl@, a0.scope@),
                    ids[0],
                    modl_ref@,
                );
                anchor is Some && walk_ok(final(ctx).ir.modl@, anchor.unwrap(), ids, modl_ref@, t@)
            }),
            Err(e) => e is UnresolvableModulePath && final(ctx).ir.modl@[modl_ref@ as int] == old(
                ctx,
            ).ir.modl@[modl_ref@ as int],
        },
        ({
            let a0 = old(ctx).ir.modl@[modl_ref@ as int].unwrap()->Alias_0;
            let ids = ident_ids(a0.path@);
            first_scope_match(
                old(ctx).ir.modl@,
                scope_chain(old(ctx).ir.modl@, a0.scope@),
                ids[0],
                modl_ref@,
            ) is None
        }) ==> r is Err,
    decreases count_false(visited@),
{
    let ghost pre = *ctx;
    let ghost vis0 = visited@;
    let (a_scope, a_path): (ModlRef, Vec<Ident>) = match ctx.ir.modl.get(modl_ref) {
        Some(m) => match m {
            ir::Modl::Alias(a) => {
                let n = a.path.len();
                let mut p: Vec<Ident> = Vec::new();
                let mut k: usize = 0;
                while k < n
                    invariant
                        k <= n,
                        n == a.path@.len(),
                        p@ == a.path@.subrange(0, k as int),
                    decreases n - k,
                {
                    p.push(a.path[k]);
                    proof {
                        assert(p@ =~= a.path@.subrange(0, k as int + 1));
                    }
                    k = k + 1;
                }
                proof {
                    assert(a.path@.subrange(0, n as int) =~= a.path@);
                }
                (a.scope, p)
            },
            ir::Modl::Record(_) => vstd::pervasive::unreached(),
        },
        None => vstd::pervasive::unreached(),
    };
    proof {
        assert(crate::ctx::modl_entry_wf(
            ctx.ir.modl@,
            modl_ref@ as int,
            ctx.refs.modl@,
            ctx.refs.decl@,
            ctx.refs.cons@,
        ));
    }
    let ghost a0 = pre.ir.modl@[modl_ref@ as int].unwrap()->Alias_0;
    let ghost ids = ident_ids(a0.path@);
    proof {
        assert(a_path@ == a0.path@);
        assert(a_scope == a0.scope);
    }
    let full_scope = collect_scope(ctx, a_scope);
    let first = a_path[0];
    proof {
        assert(first@ == ids[0]);
    }
    let mut root = match find_first_segment(ctx, &full_scope, first, modl_ref) {
        Some(s) => {
            proof {
                lemma_first_match_matches(
                    ctx.ir.modl@,
                    crate::refs::refs_view(full_scope@),
                    first@,
                    modl_ref@,
                );
            }
            s
        },
        None => {
            return Err(
                FridayError::UnresolvableModulePath(
                    "no such module in enclosing scope".to_owned(),
                ),
            );
        },
    };
    let ghost s0: nat = root@;
    let ghost mut rseq: Seq<nat> = seq![s0];
    let np = a_path.len();
    let mut k: usize = 0;
    while k < np
        invariant
            k <= np,
            np == a_path@.len(),
            pre == *old(ctx),
            vis0 == old(visited)@,
            a0 == pre.ir.modl@[modl_ref@ as int].unwrap()->Alias_0,
            a_path@ == a0.path@,
            ids == ident_ids(a0.path@),
            ids.len() == np,
            first_scope_match(
                pre.ir.modl@,
                scope_chain(pre.ir.modl@, a0.scope@),
                ids[0],
                modl_ref@,
            ) == Some(s0),
            rseq.len() == k + 1,
            rseq[0] == s0,
            rseq[k as int] == root@,
            forall|j: int|
                0 <= j < k ==> #[trigger] step_rel(
                    ctx.ir.modl@,
                    rseq[j],
                    ids[j],
                    modl_ref@,
                    rseq[j + 1],
                ),
            ctx.wf(),
            ctx.complete(),
            resolution_untouched(pre, *ctx),
            aliased_monotone(pre.ir.modl@, ctx.ir.modl@),
            aliased_preserved(pre.ir.modl@, ctx.ir.modl@),
            visited@.len() == ctx.ir.modl@.len(),
            vis0.len() == visited@.len(),
            forall|i: int| 0 <= i < vis0.len() && vis0[i] ==> visited@[i],
            forall|i: int|
                0 <= i < vis0.len() && vis0[i] && i != modl_ref@ ==> ctx.ir.modl@[i]
                    == pre.ir.modl@[i],
            ctx.ir.modl@[modl_ref@ as int] == pre.ir.modl@[modl_ref@ as int],
            modl_ref@ < ctx.ir.modl@.len(),
            vis0[modl_ref@ as int],
            root@ < ctx.ir.modl@.len(),
            ctx.ir.modl@[root@ as int] is Some,
        decreases np - k,
    {
        let seg = a_path[k];
        let ghost seg_start: nat = root@;
        let ghost mut gn: nat = 0;
        proof {
            assert(reaches_n(ctx.ir.modl@, seg_start, root@, 0));
        }
        loop
            invariant_except_break
                seg_start == rseq[k as int],
                rseq.len() == k + 1,
                reaches_n(ctx.ir.modl@, seg_start, root@, gn),
            invariant
                pre == *old(ctx),
                vis0 == old(visited)@,
                k < np,
                np == a_path@.len(),
                a_path@ == a0.path@,
                ids.len() == np,
                seg == a_path@[k as int],
                seg@ == ids[k as int],
                rseq[0] == s0,
                forall|j: int|
                    0 <= j < k ==> #[trigger] step_rel(
                        ctx.ir.modl@,
                        rseq[j],
                        ids[j],
                        modl_ref@,
                        rseq[j + 1],
                    ),
                ctx.wf(),
                ctx.complete(),
                resolution_untouched(pre, *ctx),
                aliased_monotone(pre.ir.modl@, ctx.ir.modl@),
                aliased_preserved(pre.ir.modl@, ctx.ir.modl@),
                visited@.len() == ctx.ir.modl@.len(),
                vis0.len() == visited@.len(),
                forall|i: int| 0 <= i < vis0.len() && vis0[i] ==> visited@[i],
                forall|i: int|
                    0 <= i < vis0.len() && vis0[i] && i != modl_ref@ ==> ctx.ir.modl@[i]
                        == pre.ir.modl@[i],
                ctx.ir.modl@[modl_ref@ as int] == pre.ir.modl@[modl_ref@ as int],
                modl_ref@ < ctx.ir.modl@.len(),
                vis0[modl_ref@ as int],
                root@ < ctx.ir.modl@.len(),
                ctx.ir.modl@[root@ as int] is Some,
            ensures
                rseq.len() == k + 2,
                rseq[k as int + 1] == root@,
                step_rel(ctx.ir.modl@, rseq[k as int], ids[k as int], modl_ref@, rseq[k as int
                    + 1]),
            decreases count_false(visited@),
        {
            let root_is_alias = match ctx.ir.modl.get(root) {
                Some(mm) => match mm {
                    ir::Modl::Alias(_) => true,
                    ir::Modl::Record(_) => false,
                },
                None => vstd::pervasive::unreached(),
            };
            if root_is_alias {
                if visited[root.index()] {
                    return Err(
                        FridayError::UnresolvableModulePath(
                            "alias is self referential".to_owned(),
                        ),
                    );
                }
                let t_opt: Option<ModlRef> = match ctx.ir.modl.get(root) {
                    Some(mm) => match mm {
                        ir::Modl::Alias(a2) => a2.aliased,
                        ir::Modl::Record(_) => vstd::pervasive::unreached(),
                    },
                    None => vstd::pervasive::unreached(),
                };
                let ghost vpre = visited@;
                proof {
                    lemma_count_false_update(visited@, root@ as int);
                    lemma_count_false_monotone(vis0, vpre);
                }
                visited.set(root.index(), true);
                match t_opt {
                    Some(t) => {
                        proof {
                            assert(crate::ctx::modl_entry_complete(ctx.ir.modl@, root@ as int));
                            assert(alias_step(ctx.ir.modl@, root@) == Some(t@));
                            lemma_reaches_snoc(ctx.ir.modl@, seg_start, root@, gn, t@);
                            gn = gn + 1;
                        }
                        root = t;
                    },
                    None => {
                        let ghost ctx_mid = *ctx;
                        let ghost vis_mid = visited@;
                        let r2 = resolve_path_rec(ctx, root, visited);
                        proof {
                            lemma_resolution_shape_trans(
                                pre.ir.modl@,
                                ctx_mid.ir.modl@,
                                ctx.ir.modl@,
                            );
                            lemma_count_false_monotone(vis_mid, visited@);
                            assert(vpre[modl_ref@ as int]);
                            assert(!vpre[root@ as int]);
                            assert(root@ != modl_ref@);
                            assert(vis_mid[modl_ref@ as int]);
                            assert(ctx.ir.modl@[modl_ref@ as int] == ctx_mid.ir.modl@[
                                modl_ref@ as int]);
                            assert(!vis0[root@ as int]);
                            assert forall|i: int|
                                0 <= i < vis0.len() && vis0[i] && i != modl_ref@ implies
                                ctx.ir.modl@[i] == pre.ir.modl@[i] by {
                                assert(vis_mid[i]);
                                assert(i != root@);
                                assert(ctx.ir.modl@[i] == ctx_mid.ir.modl@[i]);
                                assert(ctx_mid.ir.modl@[i] == pre.ir.modl@[i]);
                            }
                            lemma_reaches_monotone(
                                ctx_mid.ir.modl@,
                                ctx.ir.modl@,
                                seg_start,
                                root@,
                                gn,
                            );
                            assert forall|j: int| 0 <= j < k implies #[trigger] step_rel(
                                ctx.ir.modl@,
                                rseq[j],
                                ids[j],
                                modl_ref@,
                                rseq[j + 1],
                            ) by {
                                lemma_step_rel_monotone(
                                    ctx_mid.ir.modl@,
                                    ctx.ir.modl@,
                                    rseq[j],
                                    ids[j],
                                    modl_ref@,
                                    rseq[j + 1],
                                );
                            }
                        }
                        let t = match r2 {
                            Ok(t) => t,
                            Err(e) => {
                                return Err(e);
                            },
                        };
                        proof {
                            assert(alias_step(ctx.ir.modl@, root@) == Some(t@));
                            lemma_reaches_snoc(ctx.ir.modl@, seg_start, root@, gn, t@);
                            gn = gn + 1;
                        }
                        root = t;
                    },
                }
            } else {
                let child_opt: Option<ModlRef> = match ctx.ir.modl.get(root) {
                    Some(mm) => match mm {
                        ir::Modl::Record(rec2) => rec2.child(seg),
                        ir::Modl::Alias(_) => vstd::pervasive::unreached(),
                    },
                    None => vstd::pervasive::unreached(),
                };
                match child_opt {
                    Some(c) => {
                        if c.index() != modl_ref.index() {
                            proof {
                                assert(crate::ctx::modl_entry_complete(
                                    ctx.ir.modl@,
                                    root@ as int,
                                ));
                                assert(reaches_n(ctx.ir.modl@, seg_start, root@, gn));
                                assert(resolves_to(ctx.ir.modl@, seg_start, root@));
                                assert(record_child(ctx.ir.modl@, root@, ids[k as int]) == Some(
                                    c@,
                                ));
                                assert(step_rel(
                                    ctx.ir.modl@,
                                    seg_start,
                                    ids[k as int],
                                    modl_ref@,
                                    c@,
                                ));
                                let ghost rprev = rseq;
                                rseq = rseq.push(c@);
                                assert(rseq[k as int + 1] == c@);
                                assert forall|j: int| 0 <= j < k + 1 implies #[trigger] step_rel(
                                    ctx.ir.modl@,
                                    rseq[j],
                                    ids[j],
                                    modl_ref@,
                                    rseq[j + 1],
                                ) by {
                                    if j < k {
                                        assert(rseq[j] == rprev[j]);
                                        assert(rseq[j + 1] == rprev[j + 1]);
                                        assert(step_rel(
                                            ctx.ir.modl@,
                                            rprev[j],
                                            ids[j],
                                            modl_ref@,
                                            rprev[j + 1],
                                        ));
                                    } else {
                                        assert(rseq[j] == rprev[k as int]);
                                        assert(rprev[k as int] == seg_start);
                                    }
                                }
                            }
                            root = c;
                            break ;
                        } else {
                            return Err(
                                FridayError::UnresolvableModulePath(
                                    "alias is self referential".to_owned(),
                                ),
                            );
                        }
                    },
                    None => {
                        return Err(
                            FridayError::UnresolvableModulePath("no such module".to_owned()),
                        );
                    },
                }
            }
        }
        k = k + 1;
    }
    let ghost ir1 = ctx.ir.modl@;
    proof {
        assert(walk_ok(ir1, s0, ids, modl_ref@, root@)) by {
            assert(rseq.len() == ids.len() + 1);
            assert(rseq[ids.len() as int] == root@);
        }
    }
    match ctx.ir.modl.get_mut(modl_ref) {
        Some(m) => match m.as_alias_mut() {
            Ok(a) => {
                a.aliased = Some(root);
            },
            Err(_) => {
                return vstd::pervasive::unreached();
            },
        },
        None => {
            return vstd::pervasive::unreached();
        },
    }
    proof {
        assert(ctx.ir.modl@ =~= ir1.update(modl_ref@ as int, ctx.ir.modl@[modl_ref@ as int]));
        lemma_set_aliased(
            ir1,
            ctx.ir.modl@,
            modl_ref@ as int,
            root@,
            ctx.refs.modl@,
            ctx.refs.decl@,
            ctx.refs.cons@,
        );
        assert(aliased_monotone(ir1, ctx.ir.modl@)) by {
            assert forall|i: int| 0 <= i < ir1.len() implies #[trigger] entry_resolution_shape(
                ir1[i],
                ctx.ir.modl@[i],
            ) by {
                if i != modl_ref@ as int {
                    assert(ctx.ir.modl@[i] == ir1[i]);
                }
            }
        }
        assert(aliased_preserved(ir1, ctx.ir.modl@)) by {
            assert(ir1[modl_ref@ as int].unwrap()->Alias_0.aliased is None);
        }
        assert forall|j: int| 0 <= j < ids.len() implies #[trigger] step_rel(
            ctx.ir.modl@,
            rseq[j],
            ids[j],
            modl_ref@,
            rseq[j + 1],
        ) by {
            lemma_step_rel_monotone(
                ir1,
                ctx.ir.modl@,
                rseq[j],
                ids[j],
                modl_ref@,
                rseq[j + 1],
            );
        }
        assert(walk_ok(ctx.ir.modl@, s0, ids, modl_ref@, root@)) by {
            assert(rseq.len() == ids.len() + 1);
            assert(rseq[ids.len() as int] == root@);
        }
    }
    Ok(root)
}

/// Resolve one alias's dotted path to the module it denotes, recording the
/// target. Idempotent entry point: on an already-resolved alias it returns
/// the recorded target and changes nothing. On a fresh alias, success means
/// the target was found by anchoring at the first candidate-scope entry
/// whose children offer the first segment and then stepping every segment,
/// in order, through record children, resolving intermediate aliases on the
/// way; no anchor forces a failure. Failures (a missing segment, a
/// self-referential chain) are per alias and leave the alias unresolved,
/// never wrongly resolved.
pub fn resolve_alias_path(ctx: &mut Context, modl_ref: ModlRef) -> (r: Result<
    ModlRef,
    FridayError,
>)
    requires
        old(ctx).wf(),
        old(ctx).complete(),
        crate::ctx::is_alias(old(ctx).ir.modl@, modl_ref@ as int),
    ensures
        final(ctx).wf(),
        final(ctx).complete(),
        resolution_untouched(*old(ctx), *final(ctx)),
        aliased_monotone(old(ctx).ir.modl@, final(ctx).ir.modl@),
        aliased_preserved(old(ctx).ir.modl@, final(ctx).ir.modl@),
        (old(ctx).ir.modl@[modl_ref@ as int].unwrap()->Alias_0.aliased matches Some(t0)
            ==> *final(ctx) == *old(ctx) && (r matches Ok(t) && t@ == t0@)),
        match r {
            Ok(t) => t@ < final(ctx).ir.modl@.len() && final(ctx).ir.modl@[t@ as int] is Some && (
            final(ctx).ir.modl@[modl_ref@ as int] matches Some(mm) && mm matches ir::Modl::Alias(a)
                && a.aliased matches Some(tr) && tr@ == t@) && (old(ctx).ir.modl@[
            modl_ref@ as int].unwrap()->Alias_0.aliased is None ==> ({
                let a0 = old(ctx).ir.modl@[modl_ref@ as int].unwrap()->Alias_0;
                let ids = ident_ids(a0.path@);
                let anchor = first_scope_match(
                    old(ctx).ir.modl@,
                    scope_chain(old(ctx).ir.modl@, a0.scope@),
                    ids[0],
                    modl_ref@,
                );
                anchor is Some && walk_ok(final(ctx).ir.modl@, anchor.unwrap(), ids, modl_ref@, t@)
            })),
            Err(e) => e is UnresolvableModulePath && final(ctx).ir.modl@[modl_ref@ as int] == old(
                ctx,
            ).ir.modl@[modl_ref@ as int],
        },
        (old(ctx).ir.modl@[modl_ref@ as int].unwrap()->Alias_0.aliased is None && ({
            let a0 = old(ctx).ir.modl@[modl_ref@ as int].unwrap()->Alias_0;
            let ids = ident_ids(a0.path@);
            first_scope_match(
                old(ctx).ir.modl@,
                scope_chain(old(ctx).ir.modl@, a0.scope@),
                ids[0],
                modl_ref@,
            ) is None
        })) ==> r is Err,
{
    let already: Option<ModlRef> = match ctx.ir.modl.get(modl_ref) {
        Some(m) => match m {
            ir::Modl::Alias(a) => a.aliased,
            ir::Modl::Record(_) => vstd::pervasive::unreached(),
        },
        None => vstd::pervasive::unreached(),
    };
    match already {
        Some(t) => {
            proof {
                assert(crate::ctx::modl_entry_complete(ctx.ir.modl@, modl_ref@ as int));
                assert forall|i: int| 0 <= i < ctx.ir.modl@.len() implies
                    #[trigger] entry_resolution_shape(ctx.ir.modl@[i], ctx.ir.modl@[i]) by {}
            }
            Ok(t)
        },
        None => {
            let len = ctx.ir.modl.len();
            let mut visited: Vec<bool> = Vec::new();
            while visited.len() < len
                invariant
                    visited@.len() <= len,
                    forall|i: int| 0 <= i < visited@.len() ==> !visited@[i],
                decreases len - visited@.len(),
            {
                visited.push(false);
            }
            visited.set(modl_ref.index(), true);
            resolve_path_rec(ctx, modl_ref, &mut visited)
        },
    }
}

/// Resolve every module alias of the whole program: first find each alias's
/// target by path lookup, then compress every chain so that each alias
/// points directly at a module record. Failures are collected per alias —
/// one failing alias stops neither pass — and each failed alias is reported
/// exactly once and left unresolved rather than silently mis-resolved. On
/// return, every alias not reported points directly at a module record;
/// records are untouched, aliases keep their identity and never lose a
/// target, and a run over already-compressed aliases reports nothing and
/// changes nothing.
#[verifier::rlimit(100)]
pub fn process_aliases(ctx: &mut Context) -> (errors: Vec<(ModlRef, FridayError)>)
    requires
        old(ctx).wf(),
        old(ctx).complete(),
    ensures
        final(ctx).wf(),
        final(ctx).complete(),
        resolution_untouched(*old(ctx), *final(ctx)),
        final(ctx).ir.modl@.len() == old(ctx).ir.modl@.len(),
        aliased_monotone(old(ctx).ir.modl@, final(ctx).ir.modl@),
        forall|i: int|
            0 <= i < final(ctx).ir.modl@.len() && crate::ctx::is_alias(final(ctx).ir.modl@, i)
                ==> (exists|j: int| 0 <= j < errors@.len() && (#[trigger] errors@[j]).0@ == i) || (
            final(ctx).ir.modl@[i].unwrap()->Alias_0.aliased matches Some(t)
                && crate::ctx::is_record(final(ctx).ir.modl@, t@ as int)),
        forall|j1: int, j2: int|
            0 <= j1 < j2 < errors@.len() ==> errors@[j1].0@ != errors@[j2].0@,
        forall|j: int|
            0 <= j < errors@.len() ==> crate::ctx::is_alias(
                final(ctx).ir.modl@,
                (#[trigger] errors@[j]).0@ as int,
            ) && errors@[j].1 is UnresolvableModulePath,
        all_compressed(*old(ctx)) ==> errors@.len() == 0 && forall|i: int|
            0 <= i < final(ctx).ir.modl@.len() ==> #[trigger] entry_target_same(
                old(ctx).ir.modl@[i],
                final(ctx).ir.modl@[i],
            ),
        forall|i: int|
            0 <= i < old(ctx).ir.modl@.len() && #[trigger] compressed_at(*old(ctx), i) ==> (forall|
                j: int,
            | 0 <= j < errors@.len() ==> (#[trigger] errors@[j]).0@ != i) && (
            final(ctx).ir.modl@[i].unwrap()->Alias_0.aliased matches Some(t2) && t2@
                == old(ctx).ir.modl@[i].unwrap()->Alias_0.aliased.unwrap()@),
{
    let ghost pre = *ctx;
    let len = ctx.ir.modl.len();
    let mut errors: Vec<(ModlRef, FridayError)> = Vec::new();
    let mut failed: Vec<bool> = Vec::new();
    while failed.len() < len
        invariant
            failed@.len() <= len,
            forall|k: int| 0 <= k < failed@.len() ==> !failed@[k],
        decreases len - failed@.len(),
    {
        failed.push(false);
    }

    // first pass: find each alias's target by scope-chain path lookup;
    // an alias that fails here is reported once, and only once
    let mut i: usize = 0;
    while i < len
        invariant
            i <= len,
            pre == *old(ctx),
            len == ctx.ir.modl@.len(),
            failed@.len() == len,
            ctx.wf(),
            ctx.complete(),
            resolution_untouched(pre, *ctx),
            aliased_monotone(pre.ir.modl@, ctx.ir.modl@),
            aliased_preserved(pre.ir.modl@, ctx.ir.modl@),
            forall|k: int|
                0 <= k < failed@.len() && failed@[k] ==> exists|j: int|
                    0 <= j < errors@.len() && (#[trigger] errors@[j]).0@ == k,
            forall|j: int| 0 <= j < errors@.len() ==> (#[trigger] errors@[j]).0@ < i,
            forall|j1: int, j2: int|
                0 <= j1 < j2 < errors@.len() ==> errors@[j1].0@ != errors@[j2].0@,
            forall|j: int|
                0 <= j < errors@.len() ==> crate::ctx::is_alias(
                    ctx.ir.modl@,
                    (#[trigger] errors@[j]).0@ as int,
                ) && errors@[j].1 is UnresolvableModulePath && failed@[errors@[j].0@ as int],
            forall|j: int|
                0 <= j < errors@.len() ==> !compressed_at(pre, (#[trigger] errors@[j]).0@ as int),
            all_compressed(pre) ==> errors@.len() == 0 && ctx.ir.modl@ == pre.ir.modl@ && forall|
                k: int,
            | 0 <= k < failed@.len() ==> !failed@[k],
        decreases len - i,
    {
        let mref = crate::refs::Ref::from_index(i);
        let ghost ctx_a = *ctx;
        let is_al = match ctx.ir.modl.get(mref) {
            Some(m) => match m {
                ir::Modl::Alias(_) => true,
                ir::Modl::Record(_) => false,
            },
            None => false,
        };
        if is_al {
            match resolve_alias_path(ctx, mref) {
                Ok(_) => {
                    proof {
                        lemma_resolution_shape_trans(pre.ir.modl@, ctx_a.ir.modl@, ctx.ir.modl@);
                        assert forall|j: int| 0 <= j < errors@.len() implies crate::ctx::is_alias(
                            ctx.ir.modl@,
                            (#[trigger] errors@[j]).0@ as int,
                        ) && errors@[j].1 is UnresolvableModulePath && failed@[errors@[j].0@
                            as int] by {
                            assert(entry_resolution_shape(
                                ctx_a.ir.modl@[errors@[j].0@ as int],
                                ctx.ir.modl@[errors@[j].0@ as int],
                            ));
                        }
                        if all_compressed(pre) {
                            assert(ctx_a.ir.modl@[i as int].unwrap()->Alias_0.aliased is Some);
                            assert(*ctx == ctx_a);
                        }
                    }
                },
                Err(e) => {
                    let ghost errs_a = errors@;
                    let ghost failed_a = failed@;
                    errors.push((mref, e));
                    failed.set(i, true);
                    proof {
                        lemma_resolution_shape_trans(pre.ir.modl@, ctx_a.ir.modl@, ctx.ir.modl@);
                        assert(errors@[errors@.len() - 1].0@ == i as nat);
                        assert forall|k: int|
                            0 <= k < failed@.len() && failed@[k] implies exists|j: int|
                            0 <= j < errors@.len() && (#[trigger] errors@[j]).0@ == k by {
                            if k != i {
                                assert(failed_a[k]);
                                let j = choose|j: int|
                                    0 <= j < errs_a.len() && (#[trigger] errs_a[j]).0@ == k;
                                assert(errors@[j].0@ == k);
                            } else {
                                assert(errors@[errors@.len() - 1].0@ == k);
                            }
                        }
                        assert forall|j: int| 0 <= j < errors@.len() implies crate::ctx::is_alias(
                            ctx.ir.modl@,
                            (#[trigger] errors@[j]).0@ as int,
                        ) && errors@[j].1 is UnresolvableModulePath && failed@[errors@[j].0@
                            as int] by {
                            if j < errs_a.len() {
                                assert(errors@[j] == errs_a[j]);
                                assert(entry_resolution_shape(
                                    ctx_a.ir.modl@[errors@[j].0@ as int],
                                    ctx.ir.modl@[errors@[j].0@ as int],
                                ));
                            }
                        }
                        assert forall|j1: int, j2: int|
                            0 <= j1 < j2 < errors@.len() implies errors@[j1].0@
                            != errors@[j2].0@ by {
                            assert(errors@[j1] == errs_a[j1]);
                            if j2 == errors@.len() - 1 {
                                assert(errs_a[j1].0@ < i as nat);
                            } else {
                                assert(errors@[j2] == errs_a[j2]);
                            }
                        }
                        assert(!compressed_at(pre, i as int)) by {
                            if compressed_at(pre, i as int) {
                                assert(ctx_a.ir.modl@[i as int] == pre.ir.modl@[i as int]);
                                assert(false);
                            }
                        }
                        if all_compressed(pre) {
                            assert(ctx_a.ir.modl@[i as int].unwrap()->Alias_0.aliased is Some);
                            assert(false);
                        }
                    }
                },
            }
        }
        i = i + 1;
    }

    // second pass: compress each resolved chain to its final module record;
    // an alias that failed the first pass never reaches it
    let ghost errs_mid = errors@;
    let ghost irb0 = ctx.ir.modl@;
    let mut i2: usize = 0;
    while i2 < len
        invariant
            i2 <= len,
            pre == *old(ctx),
            len == ctx.ir.modl@.len(),
            failed@.len() == len,
            ctx.wf(),
            ctx.complete(),
            resolution_untouched(pre, *ctx),
            aliased_monotone(pre.ir.modl@, ctx.ir.modl@),
            forall|k: int|
                0 <= k < failed@.len() && failed@[k] ==> exists|j: int|
                    0 <= j < errors@.len() && (#[trigger] errors@[j]).0@ == k,
            forall|k: int|
                0 <= k < i2 && crate::ctx::is_alias(ctx.ir.modl@, k) ==> (exists|j: int|
                    0 <= j < errors@.len() && (#[trigger] errors@[j]).0@ == k) || (
                ctx.ir.modl@[k].unwrap()->Alias_0.aliased matches Some(t) && crate::ctx::is_record(
                    ctx.ir.modl@,
                    t@ as int,
                )),
            errs_mid.len() <= errors@.len(),
            forall|j: int| 0 <= j < errs_mid.len() ==> errors@[j] == errs_mid[j],
            forall|j: int|
                errs_mid.len() <= j < errors@.len() ==> (#[trigger] errors@[j]).0@ < i2
                    && !failed@[errors@[j].0@ as int],
            forall|j1: int, j2: int|
                0 <= j1 < j2 < errors@.len() ==> errors@[j1].0@ != errors@[j2].0@,
            forall|j: int|
                0 <= j < errors@.len() ==> crate::ctx::is_alias(
                    ctx.ir.modl@,
                    (#[trigger] errors@[j]).0@ as int,
                ) && errors@[j].1 is UnresolvableModulePath,
            forall|j: int|
                0 <= j < errs_mid.len() ==> failed@[(#[trigger] errs_mid[j]).0@ as int],
            irb0.len() == len,
            aliased_preserved(pre.ir.modl@, irb0),
            forall|i3: int| i2 <= i3 < len ==> ctx.ir.modl@[i3] == irb0[i3],
            forall|i3: int|
                0 <= i3 < i2 && #[trigger] compressed_at(pre, i3) ==> (
                ctx.ir.modl@[i3].unwrap()->Alias_0.aliased matches Some(t2) && t2@
                    == pre.ir.modl@[i3].unwrap()->Alias_0.aliased.unwrap()@),
            forall|j: int|
                0 <= j < errors@.len() ==> !compressed_at(pre, (#[trigger] errors@[j]).0@ as int),
            all_compressed(pre) ==> errors@.len() == 0 && (forall|i3: int|
                0 <= i3 < len ==> #[trigger] entry_target_same(
                    pre.ir.modl@[i3],
                    ctx.ir.modl@[i3],
                )) && forall|k: int| 0 <= k < failed@.len() ==> !failed@[k],
        decreases len - i2,
    {
        let mref = crate::refs::Ref::from_index(i2);
        let ghost ctx_b = *ctx;
        let ghost errs_b = errors@;
        let is_al = match ctx.ir.modl.get(mref) {
            Some(m) => match m {
                ir::Modl::Alias(_) => true,
                ir::Modl::Record(_) => false,
            },
            None => false,
        };
        if is_al && failed[i2] {
            proof {
                assert(!compressed_at(pre, i2 as int)) by {
                    if compressed_at(pre, i2 as int) {
                        let j = choose|j: int|
                            0 <= j < errors@.len() && (#[trigger] errors@[j]).0@ == i2 as nat;
                        assert(!compressed_at(pre, errors@[j].0@ as int));
                    }
                }
                assert forall|k: int|
                    0 <= k < i2 + 1 && crate::ctx::is_alias(ctx.ir.modl@, k) implies (exists|
                    j: int,
                |
                    0 <= j < errors@.len() && (#[trigger] errors@[j]).0@ == k) || (
                ctx.ir.modl@[k].unwrap()->Alias_0.aliased matches Some(tk) && crate::ctx::is_record(
                    ctx.ir.modl@,
                    tk@ as int,
                )) by {
                    if k == i2 {
                        assert(failed@[k]);
                    }
                }
            }
        } else if is_al {
            match resolve_alias_target(ctx, mref) {
                Ok(t) => {
                    let ghost ir_b = ctx.ir.modl@;
                    match ctx.ir.modl.get_mut(mref) {
                        Some(m) => match m.as_alias_mut() {
                            Ok(a) => {
                                a.aliased = Some(t);
                            },
                            Err(_) => {
                                return vstd::pervasive::unreached();
                            },
                        },
                        None => {
                            return vstd::pervasive::unreached();
                        },
                    }
                    proof {
                        assert(ctx.ir.modl@ =~= ir_b.update(i2 as int, ctx.ir.modl@[i2 as int]));
                        lemma_set_aliased(
                            ir_b,
                            ctx.ir.modl@,
                            i2 as int,
                            t@,
                            ctx.refs.modl@,
                            ctx.refs.decl@,
                            ctx.refs.cons@,
                        );
                        assert(aliased_monotone(ir_b, ctx.ir.modl@)) by {
                            assert forall|i3: int| 0 <= i3 < ir_b.len() implies
                                #[trigger] entry_resolution_shape(ir_b[i3], ctx.ir.modl@[i3]) by {
                                if i3 != i2 as int {
                                    assert(ctx.ir.modl@[i3] == ir_b[i3]);
                                }
                            }
                        }
                        lemma_monotone_trans(pre.ir.modl@, ir_b, ctx.ir.modl@);
                        assert forall|k: int|
                            0 <= k < i2 + 1 && crate::ctx::is_alias(ctx.ir.modl@, k) implies (
                        exists|j: int|
                            0 <= j < errors@.len() && (#[trigger] errors@[j]).0@ == k) || (
                        ctx.ir.modl@[k].unwrap()->Alias_0.aliased matches Some(tk)
                            && crate::ctx::is_record(ctx.ir.modl@, tk@ as int)) by {
                            if k < i2 {
                                assert(ctx.ir.modl@[k] == ir_b[k]);
                                assert(crate::ctx::is_alias(ctx_b.ir.modl@, k));
                            } else {
                                assert(crate::ctx::is_record(ctx.ir.modl@, t@ as int));
                            }
                        }
                        assert forall|j: int| 0 <= j < errors@.len() implies crate::ctx::is_alias(
                            ctx.ir.modl@,
                            (#[trigger] errors@[j]).0@ as int,
                        ) && errors@[j].1 is UnresolvableModulePath by {
                            assert(entry_resolution_shape(
                                ir_b[errors@[j].0@ as int],
                                ctx.ir.modl@[errors@[j].0@ as int],
                            ));
                        }
                        if compressed_at(pre, i2 as int) {
                            assert(ir_b[i2 as int] == irb0[i2 as int]);
                            assert(irb0[i2 as int] == pre.ir.modl@[i2 as int]);
                            let t0 = pre.ir.modl@[i2 as int].unwrap()->Alias_0.aliased.unwrap();
                            assert(entry_resolution_shape(pre.ir.modl@[t0@ as int], ir_b[t0@
                                as int]));
                            assert(crate::ctx::is_record(ir_b, t0@ as int));
                            let n = choose|n: nat| reaches_n(ir_b, i2 as nat, t@, n);
                            lemma_chase_fixpoint(ir_b, i2 as nat, t0@, t@, n);
                            assert(ctx.ir.modl@[i2 as int].unwrap()->Alias_0.aliased
                                matches Some(t2) && t2@ == t0@);
                        }
                        assert forall|i3: int|
                            0 <= i3 < i2 + 1 && #[trigger] compressed_at(pre, i3) implies (
                        ctx.ir.modl@[i3].unwrap()->Alias_0.aliased matches Some(t2) && t2@
                            == pre.ir.modl@[i3].unwrap()->Alias_0.aliased.unwrap()@) by {
                            if i3 < i2 {
                                assert(ctx.ir.modl@[i3] == ir_b[i3]);
                            }
                        }
                        if all_compressed(pre) {
                            assert(entry_target_same(pre.ir.modl@[i2 as int], ir_b[i2 as int]));
                            assert(crate::ctx::is_alias(pre.ir.modl@, i2 as int));
                            let t0 = pre.ir.modl@[i2 as int].unwrap()->Alias_0.aliased.unwrap();
                            assert(entry_target_same(pre.ir.modl@[t0@ as int], ir_b[t0@ as int]));
                            assert(crate::ctx::is_record(ir_b, t0@ as int));
                            assert(ir_b[i2 as int].unwrap()->Alias_0.aliased matches Some(tb)
                                && tb@ == t0@);
                            let n = choose|n: nat| reaches_n(ir_b, i2 as nat, t@, n);
                            lemma_chase_fixpoint(ir_b, i2 as nat, t0@, t@, n);
                            assert forall|i3: int| 0 <= i3 < len implies
                                #[trigger] entry_target_same(
                                pre.ir.modl@[i3],
                                ctx.ir.modl@[i3],
                            ) by {
                                if i3 != i2 as int {
                                    assert(ctx.ir.modl@[i3] == ir_b[i3]);
                                } else {
                                    assert(entry_target_same(
                                        pre.ir.modl@[i3],
                                        ir_b[i3],
                                    ));
                                }
                            }
                        }
                    }
                },
                Err(e) => {
                    proof {
                        assert(!compressed_at(pre, i2 as int)) by {
                            if compressed_at(pre, i2 as int) {
                                assert(ctx_b.ir.modl@[i2 as int] == irb0[i2 as int]);
                                assert(irb0[i2 as int] == pre.ir.modl@[i2 as int]);
                                let t0 = pre.ir.modl@[i2
                                    as int].unwrap()->Alias_0.aliased.unwrap();
                                assert(entry_resolution_shape(
                                    pre.ir.modl@[t0@ as int],
                                    ctx_b.ir.modl@[t0@ as int],
                                ));
                                lemma_no_stuck_when_compressed(ctx_b.ir.modl@, i2 as nat, t0@);
                                assert(false);
                            }
                        }
                        if all_compressed(pre) {
                            assert(entry_resolution_shape(
                                pre.ir.modl@[i2 as int],
                                ctx_b.ir.modl@[i2 as int],
                            ));
                            assert(crate::ctx::is_alias(pre.ir.modl@, i2 as int));
                            assert(false);
                        }
                    }
                    errors.push((mref, e));
                    proof {
                        assert(errors@[errors@.len() - 1].0@ == i2 as nat);
                        assert forall|k: int|
                            0 <= k < failed@.len() && failed@[k] implies exists|j: int|
                            0 <= j < errors@.len() && (#[trigger] errors@[j]).0@ == k by {
                            let j = choose|j: int|
                                0 <= j < errs_b.len() && (#[trigger] errs_b[j]).0@ == k;
                            assert(errors@[j].0@ == k);
                        }
                        assert forall|j1: int, j2: int|
                            0 <= j1 < j2 < errors@.len() implies errors@[j1].0@
                            != errors@[j2].0@ by {
                            assert(errors@[j1] == errs_b[j1]);
                            if j2 == errors@.len() - 1 {
                                if j1 < errs_mid.len() {
                                    assert(errs_b[j1] == errs_mid[j1]);
                                    assert(failed@[(errs_mid[j1]).0@ as int]);
                                } else {
                                    assert(errs_b[j1].0@ < i2 as nat);
                                }
                            } else {
                                assert(errors@[j2] == errs_b[j2]);
                            }
                        }
                        assert forall|k: int|
                            0 <= k < i2 + 1 && crate::ctx::is_alias(ctx.ir.modl@, k) implies (
                        exists|j: int|
                            0 <= j < errors@.len() && (#[trigger] errors@[j]).0@ == k) || (
                        ctx.ir.modl@[k].unwrap()->Alias_0.aliased matches Some(tk)
                            && crate::ctx::is_record(ctx.ir.modl@, tk@ as int)) by {
                            if k < i2 {
                                let j = choose|j: int|
                                    0 <= j < errs_b.len() && (#[trigger] errs_b[j]).0@ == k || (
                                    ctx.ir.modl@[k].unwrap()->Alias_0.aliased matches Some(tk)
                                        && crate::ctx::is_record(ctx.ir.modl@, tk@ as int));
                                if exists|j2: int|
                                    0 <= j2 < errs_b.len() && (#[trigger] errs_b[j2]).0@ == k {
                                    let j2 = choose|j2: int|
                                        0 <= j2 < errs_b.len() && (#[trigger] errs_b[j2]).0@ == k;
                                    assert(errors@[j2].0@ == k);
                                }
                            } else {
                                assert(errors@[errors@.len() - 1].0@ == k);
                            }
                        }
                    }
                },
            }
        }
        i2 = i2 + 1;
    }
    errors
}

/// The integer ids of a path's interned segments.
pub open spec fn ident_ids(s: Seq<Ident>) -> Seq<nat> {
    Seq::new(s.len(), |k: int| s[k]@)
}

/// Chasing resolved-alias links from `x` arrives at the module record `rr`.
pub open spec fn resolves_to(ir: Seq<Option<ir::Modl>>, x: nat, rr: nat) -> bool {
    (exists|n: nat| reaches_n(ir, x, rr, n)) && crate::ctx::is_record(ir, rr as int)
}

/// The child of module `rr` under segment `seg`, when `rr` is a populated
/// record.
pub open spec fn record_child(ir: Seq<Option<ir::Modl>>, rr: nat, seg: nat) -> Option<nat> {
    if crate::ctx::is_record(ir, rr as int) {
        crate::ir::child_lookup(ir[rr as int].unwrap()->Record_0.children@, seg)
    } else {
        None
    }
}

/// One segment step of the path walk: from `x`, resolve any alias chain to
/// a record, then take that record's child under `seg`, which must not be
/// the alias being resolved itself.
pub open spec fn step_rel(ir: Seq<Option<ir::Modl>>, x: nat, seg: nat, self_ref: nat, y: nat) -> bool {
    exists|rr: nat|
        #[trigger] resolves_to(ir, x, rr) && record_child(ir, rr, seg) == Some(y) && y != self_ref
}

/// The whole path walk: starting from the anchoring scope entry `s0`, each
/// segment in order steps through a record's children, and the walk ends at
/// `t` (possibly an alias; compression is a later pass).
pub open spec fn walk_ok(
    ir: Seq<Option<ir::Modl>>,
    s0: nat,
    segs: Seq<nat>,
    self_ref: nat,
    t: nat,
) -> bool {
    exists|roots: Seq<nat>|
        #![trigger roots.len()]
        roots.len() == segs.len() + 1 && roots[0] == s0 && roots[segs.len() as int] == t && forall|
            k: int,
        | 0 <= k < segs.len() ==> #[trigger] step_rel(ir, roots[k], segs[k], self_ref, roots[k + 1])
}

/// A chase survives target assignments that only add targets and never
/// change one.
proof fn lemma_reaches_monotone(
    ir1: Seq<Option<ir::Modl>>,
    ir2: Seq<Option<ir::Modl>>,
    x: nat,
    y: nat,
    n: nat,
)
    requires
        aliased_monotone(ir1, ir2),
        aliased_preserved(ir1, ir2),
        reaches_n(ir1, x, y, n),
    ensures
        reaches_n(ir2, x, y, n),
    decreases n,
{
    if n > 0 {
        let z = alias_step(ir1, x).unwrap();
        assert(entry_resolution_shape(ir1[x as int], ir2[x as int]));
        assert(ir2[x as int] == ir1[x as int]);
        lemma_reaches_monotone(ir1, ir2, z, y, (n - 1) as nat);
    }
}

/// A segment step survives target assignments likewise.
proof fn lemma_step_rel_monotone(
    ir1: Seq<Option<ir::Modl>>,
    ir2: Seq<Option<ir::Modl>>,
    x: nat,
    seg: nat,
    self_ref: nat,
    y: nat,
)
    requires
        aliased_monotone(ir1, ir2),
        aliased_preserved(ir1, ir2),
        step_rel(ir1, x, seg, self_ref, y),
    ensures
        step_rel(ir2, x, seg, self_ref, y),
{
    let rr = choose|rr: nat|
        #[trigger] resolves_to(ir1, x, rr) && record_child(ir1, rr, seg) == Some(y) && y
            != self_ref;
    let n = choose|n: nat| reaches_n(ir1, x, rr, n);
    lemma_reaches_monotone(ir1, ir2, x, rr, n);
    assert(entry_resolution_shape(ir1[rr as int], ir2[rr as int]));
    assert(ir2[rr as int] == ir1[rr as int]);
    assert(resolves_to(ir2, x, rr));
    assert(record_child(ir2, rr, seg) == record_child(ir1, rr, seg));
}

/// Every alias of the context already points at a module record.
pub open spec fn all_compressed(c: Context) -> bool {
    forall|i: int|
        0 <= i < c.ir.modl@.len() && crate::ctx::is_alias(c.ir.modl@, i) ==> (
        #[trigger] c.ir.modl@[i].unwrap()->Alias_0.aliased matches Some(t) && crate::ctx::is_record(
            c.ir.modl@,
            t@ as int,
        ))
}

/// The module entry at `i` is an alias already compressed: its recorded
/// target is a module record.
pub open spec fn compressed_at(c: Context, i: int) -> bool {
    crate::ctx::is_alias(c.ir.modl@, i) && (c.ir.modl@[i].unwrap()->Alias_0.aliased matches Some(t)
        && crate::ctx::is_record(c.ir.modl@, t@ as int))
}

/// Two module entries agree up to the integer identity of alias targets:
/// records verbatim, aliases with the same name, scope, path, and a target
/// of the same index on both sides or on neither.
pub open spec fn entry_target_same(e1: Option<ir::Modl>, e2: Option<ir::Modl>) -> bool {
    match e1 {
        None => e2 is None,
        Some(m1) => match m1 {
            ir::Modl::Record(_) => e2 == e1,
            ir::Modl::Alias(a1) => e2 matches Some(m2) && m2 matches ir::Modl::Alias(a2)
                && a2.name == a1.name && a2.scope == a1.scope && a2.path == a1.path && match (
                a1.aliased,
                a2.aliased,
            ) {
                (Some(x), Some(y)) => x@ == y@,
                (None, None) => true,
                _ => false,
            },
        },
    }
}

/// Resolution shapes compose without the target-preservation side.
proof fn lemma_monotone_trans(
    ir1: Seq<Option<ir::Modl>>,
    ir2: Seq<Option<ir::Modl>>,
    ir3: Seq<Option<ir::Modl>>,
)
    requires
        aliased_monotone(ir1, ir2),
        aliased_monotone(ir2, ir3),
    ensures
        aliased_monotone(ir1, ir3),
{
    assert forall|i: int| 0 <= i < ir1.len() implies #[trigger] entry_resolution_shape(
        ir1[i],
        ir3[i],
    ) by {
        assert(entry_resolution_shape(ir1[i], ir2[i]));
        assert(entry_resolution_shape(ir2[i], ir3[i]));
    }
}

/// Chasing an alias that already points at a record lands exactly there.
proof fn lemma_chase_fixpoint(ir: Seq<Option<ir::Modl>>, k: nat, t0: nat, t: nat, n: nat)
    requires
        crate::ctx::is_alias(ir, k as int),
        ir[k as int].unwrap()->Alias_0.aliased matches Some(tr) && tr@ == t0,
        crate::ctx::is_record(ir, t0 as int),
        reaches_n(ir, k, t, n),
        crate::ctx::is_record(ir, t as int),
    ensures
        t == t0,
{
    if n == 0 {
        assert(t == k);
        assert(false);
    } else {
        assert(alias_step(ir, k) == Some(t0));
        assert(reaches_n(ir, t0, t, (n - 1) as nat));
        if n - 1 == 0 {
        } else {
            assert(alias_step(ir, t0) is Some);
            assert(false);
        }
    }
}

/// From an alias that already points at a record, the chase can reach only
/// the alias itself or that record.
proof fn lemma_reach_two(ir: Seq<Option<ir::Modl>>, k: nat, t0: nat, y: nat, n: nat)
    requires
        crate::ctx::is_alias(ir, k as int),
        ir[k as int].unwrap()->Alias_0.aliased matches Some(tr) && tr@ == t0,
        crate::ctx::is_record(ir, t0 as int),
        reaches_n(ir, k, y, n),
    ensures
        y == k || y == t0,
{
    if n > 0 {
        assert(alias_step(ir, k) == Some(t0));
        assert(reaches_n(ir, t0, y, (n - 1) as nat));
        if n - 1 > 0 {
            assert(alias_step(ir, t0) is Some);
            assert(false);
        }
    }
}

/// An alias that already points at a record is never stuck.
proof fn lemma_no_stuck_when_compressed(ir: Seq<Option<ir::Modl>>, k: nat, t0: nat)
    requires
        crate::ctx::is_alias(ir, k as int),
        ir[k as int].unwrap()->Alias_0.aliased matches Some(tr) && tr@ == t0,
        crate::ctx::is_record(ir, t0 as int),
    ensures
        !chase_stuck(ir, k),
{
    assert(k != t0);
    if exists|y: nat, n: nat|
        reaches_n(ir, k, y, n) && crate::ctx::is_alias(ir, y as int) && alias_step(ir, y) is None {
        let (y, n) = choose|y: nat, n: nat|
            reaches_n(ir, k, y, n) && crate::ctx::is_alias(ir, y as int) && alias_step(ir, y)
                is None;
        lemma_reach_two(ir, k, t0, y, n);
        assert(alias_step(ir, k) == Some(t0));
        assert(false);
    }
    if exists|y: nat, n: nat, p: nat| reaches_n(ir, k, y, n) && p >= 1 && reaches_n(ir, y, y, p) {
        let (y, n, p) = choose|y: nat, n: nat, p: nat|
            reaches_n(ir, k, y, n) && p >= 1 && reaches_n(ir, y, y, p);
        lemma_reach_two(ir, k, t0, y, n);
        if y == k {
            assert(alias_step(ir, k) == Some(t0));
            assert(reaches_n(ir, t0, k, (p - 1) as nat));
            lemma_reach_two(ir, k, t0, k, p);
            if p - 1 > 0 {
                assert(alias_step(ir, t0) is Some);
            } else {
                assert(t0 == k);
            }
            assert(false);
        } else {
            assert(alias_step(ir, t0) is Some);
            assert(false);
        }
    }
}

/// A record's lowering is a statement about values already in place: it
/// survives any later step that only adds storage entries, extends the
/// interner, and leaves the entry itself alone.
proof fn lemma_record_lowering_stable(
    c1: Context,
    c2: Context,
    i: int,
    names0: Seq<Seq<char>>,
    d0: nat,
    c0: nat,
    m0: nat,
    ds: Seq<ast::DeclView>,
)
    requires
        record_entry_lowering(c1, i, names0, d0, c0, m0, ds),
        c1.ast.decl@.len() <= c2.ast.decl@.len(),
        forall|j: int| 0 <= j < c1.ast.decl@.len() ==> c2.ast.decl@[j] == c1.ast.decl@[j],
        c1.ast.cons@.len() <= c2.ast.cons@.len(),
        forall|j: int| 0 <= j < c1.ast.cons@.len() ==> c2.ast.cons@[j] == c1.ast.cons@[j],
        c1.ast.modl@.len() <= c2.ast.modl@.len(),
        forall|j: int| 0 <= j < c1.ast.modl@.len() ==> c2.ast.modl@[j] == c1.ast.modl@[j],
        c1.names@.is_prefix_of(c2.names@),
        i < c2.ir.modl@.len(),
        c2.ir.modl@[i] == c1.ir.modl@[i],
    ensures
        record_entry_lowering(c2, i, names0, d0, c0, m0, ds),
{
    let o = build_model(names0, ds);
    assert forall|j: int| 0 <= j < c1.names@.len() implies c2.names@[j] == c1.names@[j] by {
        assert(c1.names@[j] == c2.names@.subrange(0, c1.names@.len() as int)[j]);
    }
    assert(names0.is_prefix_of(c2.names@)) by {
        assert(names0 =~= c2.names@.subrange(0, names0.len() as int));
    }
    assert(o.names.is_prefix_of(c2.names@)) by {
        assert(o.names =~= c2.names@.subrange(0, o.names.len() as int));
    }
    assert forall|k: int| 0 <= k < o.defs.len() implies d0 + k < c2.ast.decl@.len()
        && c2.ast.decl@[d0 + k] is Some && crate::ast::decl_view(
        #[trigger] c2.ast.decl@[d0 + k].unwrap(),
    ) == o.defs[k] by {
        assert(crate::ast::decl_view(c1.ast.decl@[d0 + k].unwrap()) == o.defs[k]);
        assert(c2.ast.decl@[d0 + k] == c1.ast.decl@[d0 + k]);
    }
    assert forall|k: int| 0 <= k < o.cons.len() implies c0 + k < c2.ast.cons@.len()
        && c2.ast.cons@[c0 + k] is Some && crate::ast::decl_view(
        #[trigger] c2.ast.cons@[c0 + k].unwrap(),
    ) == o.cons[k] by {
        assert(crate::ast::decl_view(c1.ast.cons@[c0 + k].unwrap()) == o.cons[k]);
        assert(c2.ast.cons@[c0 + k] == c1.ast.cons@[c0 + k]);
    }
    assert forall|k: int| 0 <= k < o.mods.len() implies m0 + k < c2.ast.modl@.len()
        && c2.ast.modl@[m0 + k] is Some && crate::ast::modl_view(
        #[trigger] c2.ast.modl@[m0 + k].unwrap(),
    ) == o.mods[k] by {
        assert(crate::ast::modl_view(c1.ast.modl@[m0 + k].unwrap()) == o.mods[k]);
        assert(c2.ast.modl@[m0 + k] == c1.ast.modl@[m0 + k]);
    }
}

/// An entry's lowering is a statement about values already in place: it
/// survives any later step that only adds storage entries, extends the
/// interner, and leaves the entry itself alone.
proof fn lemma_entry_lowered_stable(c1: Context, c2: Context, i: int)
    requires
        entry_lowered(c1, i),
        c1.ast.decl@.len() <= c2.ast.decl@.len(),
        forall|j: int| 0 <= j < c1.ast.decl@.len() ==> c2.ast.decl@[j] == c1.ast.decl@[j],
        c1.ast.cons@.len() <= c2.ast.cons@.len(),
        forall|j: int| 0 <= j < c1.ast.cons@.len() ==> c2.ast.cons@[j] == c1.ast.cons@[j],
        c1.ast.modl@.len() <= c2.ast.modl@.len(),
        forall|j: int| 0 <= j < c1.ast.modl@.len() ==> c2.ast.modl@[j] == c1.ast.modl@[j],
        c1.names@.is_prefix_of(c2.names@),
        i < c2.ir.modl@.len(),
        c2.ir.modl@[i] == c1.ir.modl@[i],
        c2.global_modl == c1.global_modl,
    ensures
        entry_lowered(c2, i),
{
    assert(c2.ast.modl@[i] == c1.ast.modl@[i]);
    assert forall|j: int| 0 <= j < c1.names@.len() implies c2.names@[j] == c1.names@[j] by {
        assert(c1.names@[j] == c2.names@.subrange(0, c1.names@.len() as int)[j]);
    }
    match crate::ast::modl_view(c1.ast.modl@[i].unwrap()) {
        ast::ModlView::ModExp(ds) => {
            let (names0, d0, c0, m0) = choose|names0: Seq<Seq<char>>, d0: nat, c0: nat, m0: nat|
                #[trigger] record_entry_lowering(c1, i, names0, d0, c0, m0, ds);
            lemma_record_lowering_stable(c1, c2, i, names0, d0, c0, m0, ds);
        },
        ast::ModlView::Named(p) => {
            let a = c2.ir.modl@[i].unwrap()->Alias_0;
            assert forall|k: int| 0 <= k < a.path@.len() implies (#[trigger] a.path@[k])@
                < c2.names@.len() && c2.names@[a.path@[k]@ as int] == p.path[k] by {
                assert(c1.names@[a.path@[k]@ as int] == p.path[k]);
            }
        },
    }
}

} // verus!
