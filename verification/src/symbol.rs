//! Per-module signature tables: a multimap from a declaration's call shape
//! (its sequence of fixed keywords and pattern slots) to the declarations or
//! constructors sharing that shape, supporting mixfix-style overload groups.
//! The table only builds and exposes this index; call resolution is a later
//! phase's job.

use vstd::prelude::*;

use crate::ir::Sign;
use crate::refs::{refs_view, ConsRef, DeclRef};

verus! {

/// The abstract content of a signature table: for declarations and for
/// constructors, the buckets in creation order, each a signature paired with
/// the handles registered under it, in registration order; and, for
/// enumeration, every registered handle in overall registration order.
#[verifier::ext_equal]
pub struct SymbolTableView {
    pub decls: Seq<(Seq<Sign<()>>, Seq<nat>)>,
    pub cons: Seq<(Seq<Sign<()>>, Seq<nat>)>,
    pub decl_order: Seq<nat>,
    pub cons_order: Seq<nat>,
}

/// The handles registered under signature `sig`: the matching bucket's
/// contents, or the empty sequence if no bucket matches.
pub open spec fn bucket_lookup(buckets: Seq<(Seq<Sign<()>>, Seq<nat>)>, sig: Seq<Sign<()>>) -> Seq<
    nat,
>
    decreases buckets,
{
    if buckets.len() == 0 {
        Seq::empty()
    } else if buckets[0].0 == sig {
        buckets[0].1
    } else {
        bucket_lookup(buckets.drop_first(), sig)
    }
}

/// No two buckets share a signature.
pub open spec fn buckets_distinct(buckets: Seq<(Seq<Sign<()>>, Seq<nat>)>) -> bool {
    forall|i: int, j: int| 0 <= i < j < buckets.len() ==> buckets[i].0 != buckets[j].0
}

/// Registering a handle under `sig`: append it to the bucket holding
/// exactly that signature, or open a new bucket at the end.
pub open spec fn bucket_insert(
    buckets: Seq<(Seq<Sign<()>>, Seq<nat>)>,
    sig: Seq<Sign<()>>,
    h: nat,
) -> Seq<(Seq<Sign<()>>, Seq<nat>)>
    decreases buckets,
{
    if buckets.len() == 0 {
        seq![(sig, seq![h])]
    } else if buckets[0].0 == sig {
        seq![(sig, buckets[0].1.push(h))] + buckets.drop_first()
    } else {
        seq![buckets[0]] + bucket_insert(buckets.drop_first(), sig, h)
    }
}

/// When the signature keys bucket `i` and no earlier bucket, inserting
/// appends to that bucket in place.
proof fn lemma_bucket_insert_found(
    buckets: Seq<(Seq<Sign<()>>, Seq<nat>)>,
    i: int,
    sig: Seq<Sign<()>>,
    h: nat,
)
    requires
        0 <= i < buckets.len(),
        buckets[i].0 == sig,
        forall|j: int| 0 <= j < i ==> buckets[j].0 != sig,
    ensures
        bucket_insert(buckets, sig, h) == buckets.update(i, (sig, buckets[i].1.push(h))),
    decreases buckets,
{
    if i == 0 {
        assert(bucket_insert(buckets, sig, h) =~= buckets.update(0, (sig, buckets[0].1.push(h))));
    } else {
        lemma_bucket_insert_found(buckets.drop_first(), i - 1, sig, h);
        assert(buckets.update(i, (sig, buckets[i].1.push(h))).drop_first()
            =~= buckets.drop_first().update(i - 1, (sig, buckets[i].1.push(h))));
        assert(buckets.drop_first()[i - 1] == buckets[i]);
        assert(bucket_insert(buckets, sig, h) =~= buckets.update(i, (sig, buckets[i].1.push(h))));
    }
}

/// When no bucket carries the signature, inserting opens a new bucket at
/// the end.
proof fn lemma_bucket_insert_missing(
    buckets: Seq<(Seq<Sign<()>>, Seq<nat>)>,
    sig: Seq<Sign<()>>,
    h: nat,
)
    requires
        forall|j: int| 0 <= j < buckets.len() ==> buckets[j].0 != sig,
    ensures
        bucket_insert(buckets, sig, h) == buckets.push((sig, seq![h])),
    decreases buckets,
{
    if buckets.len() == 0 {
        assert(bucket_insert(buckets, sig, h) =~= buckets.push((sig, seq![h])));
    } else {
        lemma_bucket_insert_missing(buckets.drop_first(), sig, h);
        assert(buckets.push((sig, seq![h])).drop_first() =~= buckets.drop_first().push(
            (sig, seq![h]),
        ));
        assert(bucket_insert(buckets, sig, h) =~= buckets.push((sig, seq![h])));
    }
}

/// The signature table. Buckets are kept in creation order, handles within
/// a bucket in registration order; a side list per index remembers the
/// overall registration order for enumeration.
#[derive(Debug)]
pub struct SymbolTable {
    decl_signs: Vec<(Vec<Sign<()>>, Vec<DeclRef>)>,
    cons_signs: Vec<(Vec<Sign<()>>, Vec<ConsRef>)>,
    decl_order: Vec<DeclRef>,
    cons_order: Vec<ConsRef>,
}

impl View for SymbolTable {
    type V = SymbolTableView;

    closed spec fn view(&self) -> SymbolTableView {
        SymbolTableView {
            decls: Seq::new(
                self.decl_signs@.len(),
                |i: int| (self.decl_signs@[i].0@, refs_view(self.decl_signs@[i].1@)),
            ),
            cons: Seq::new(
                self.cons_signs@.len(),
                |i: int| (self.cons_signs@[i].0@, refs_view(self.cons_signs@[i].1@)),
            ),
            decl_order: refs_view(self.decl_order@),
            cons_order: refs_view(self.cons_order@),
        }
    }
}

/// Whether two signature elements describe the same shape element.
fn sign_elem_eq(a: &Sign<()>, b: &Sign<()>) -> (r: bool)
    ensures
        r <==> (*a == *b),
{
    match (a, b) {
        (Sign::Patn(x), Sign::Patn(y)) => {
            proof {
                assert(*x == *y);
                assert(*a == *b);
            }
            true
        },
        (Sign::Word(x), Sign::Word(y)) => *x == *y,
        _ => false,
    }
}

/// Whether two signatures are structurally equal.
fn signs_eq(a: &Vec<Sign<()>>, b: &Vec<Sign<()>>) -> (r: bool)
    ensures
        r <==> a@ == b@,
{
    let n = a.len();
    if b.len() != n {
        return false;
    }
    let mut i: usize = 0;
    while i < n
        invariant
            i <= n,
            n == a@.len(),
            n == b@.len(),
            forall|j: int| 0 <= j < i ==> a@[j] == b@[j],
        decreases n - i,
    {
        if !sign_elem_eq(&a[i], &b[i]) {
            return false;
        }
        i = i + 1;
    }
    proof {
        assert(a@ =~= b@);
    }
    true
}

impl SymbolTable {
    /// The table's invariant: within each of the two indexes, no signature
    /// keys more than one bucket.
    pub open spec fn wf(&self) -> bool {
        buckets_distinct(self@.decls) && buckets_distinct(self@.cons)
    }

    /// An empty table.
    pub fn new() -> (t: SymbolTable)
        ensures
            t@.decls.len() == 0,
            t@.cons.len() == 0,
            t@.decl_order.len() == 0,
            t@.cons_order.len() == 0,
            t.wf(),
    {
        let t = SymbolTable {
            decl_signs: Vec::new(),
            cons_signs: Vec::new(),
            decl_order: Vec::new(),
            cons_order: Vec::new(),
        };
        proof {
            assert(t@.decl_order =~= Seq::<nat>::empty());
            assert(t@.cons_order =~= Seq::<nat>::empty());
        }
        t
    }

    /// Register declaration `decl_ref` under signature `sign`, appending it
    /// to the bucket for exactly that shape and creating the bucket on first
    /// use. No other bucket changes, and the constructor index is untouched.
    pub fn new_decl(&mut self, decl_ref: DeclRef, sign: Vec<Sign<()>>)
        requires
            old(self).wf(),
        ensures
            final(self).wf(),
            final(self)@.decls == bucket_insert(old(self)@.decls, sign@, decl_ref@),
            bucket_lookup(final(self)@.decls, sign@) == bucket_lookup(
                old(self)@.decls,
                sign@,
            ).push(decl_ref@),
            forall|other: Seq<Sign<()>>|
                other != sign@ ==> bucket_lookup(final(self)@.decls, other) == bucket_lookup(
                    old(self)@.decls,
                    other,
                ),
            final(self)@.decl_order == old(self)@.decl_order.push(decl_ref@),
            final(self)@.cons == old(self)@.cons,
            final(self)@.cons_order == old(self)@.cons_order,
    {
        let ghost order0 = self.decl_order@;
        self.decl_order.push(decl_ref);
        proof {
            crate::refs::lemma_refs_view_push(order0, decl_ref);
            assert(self@.decls =~= old(self)@.decls);
            assert(self@.cons =~= old(self)@.cons);
        }
        let n = self.decl_signs.len();
        let mut i: usize = 0;
        while i < n
            invariant
                i <= n,
                n == self.decl_signs@.len(),
                self.decl_signs == old(self).decl_signs,
                self.cons_signs == old(self).cons_signs,
                self@.decls == old(self)@.decls,
                self@.cons == old(self)@.cons,
                self@.decl_order == old(self)@.decl_order.push(decl_ref@),
                self@.cons_order == old(self)@.cons_order,
                old(self).wf(),
                forall|j: int| 0 <= j < i ==> self@.decls[j].0 != sign@,
            decreases n - i,
        {
            if signs_eq(&self.decl_signs[i].0, &sign) {
                let mut pair = self.decl_signs.remove(i);
                pair.1.push(decl_ref);
                self.decl_signs.insert(i, pair);
                proof {
                    assert(final(self)@.decls =~= old(self)@.decls.update(
                        i as int,
                        (sign@, bucket_lookup(old(self)@.decls, sign@).push(decl_ref@)),
                    )) by {
                        assert(refs_view(pair.1@) =~= refs_view(old(self).decl_signs@[i as int].1@
                        ).push(decl_ref@));
                        lemma_bucket_lookup_at(old(self)@.decls, i as int, sign@);
                    }
                    lemma_bucket_update(
                        old(self)@.decls,
                        i as int,
                        sign@,
                        bucket_lookup(old(self)@.decls, sign@).push(decl_ref@),
                    );
                    lemma_bucket_insert_found(old(self)@.decls, i as int, sign@, decl_ref@);
                    lemma_bucket_lookup_at(old(self)@.decls, i as int, sign@);
                }
                return ;
            }
            i = i + 1;
        }
        let mut handles: Vec<DeclRef> = Vec::new();
        handles.push(decl_ref);
        self.decl_signs.push((sign, handles));
        proof {
            assert(refs_view(handles@) =~= seq![decl_ref@]);
            assert(final(self)@.decls =~= old(self)@.decls.push((sign@, seq![decl_ref@])));
            lemma_bucket_append(old(self)@.decls, sign@, seq![decl_ref@]);
            lemma_bucket_insert_missing(old(self)@.decls, sign@, decl_ref@);
            assert(bucket_lookup(old(self)@.decls, sign@) =~= Seq::<nat>::empty()) by {
                lemma_bucket_lookup_missing(old(self)@.decls, sign@);
            }
            assert(bucket_lookup(final(self)@.decls, sign@) =~= bucket_lookup(
                old(self)@.decls,
                sign@,
            ).push(decl_ref@));
            assert(final(self)@.cons =~= old(self)@.cons);
        }
    }

    /// Register constructor `cons_ref` under signature `sign`; the exact
    /// counterpart of `new_decl` on the constructor index.
    pub fn new_cons(&mut self, cons_ref: ConsRef, sign: Vec<Sign<()>>)
        requires
            old(self).wf(),
        ensures
            final(self).wf(),
            final(self)@.cons == bucket_insert(old(self)@.cons, sign@, cons_ref@),
            bucket_lookup(final(self)@.cons, sign@) == bucket_lookup(
                old(self)@.cons,
                sign@,
            ).push(cons_ref@),
            forall|other: Seq<Sign<()>>|
                other != sign@ ==> bucket_lookup(final(self)@.cons, other) == bucket_lookup(
                    old(self)@.cons,
                    other,
                ),
            final(self)@.cons_order == old(self)@.cons_order.push(cons_ref@),
            final(self)@.decls == old(self)@.decls,
            final(self)@.decl_order == old(self)@.decl_order,
    {
        let ghost order0 = self.cons_order@;
        self.cons_order.push(cons_ref);
        proof {
            crate::refs::lemma_refs_view_push(order0, cons_ref);
            assert(self@.decls =~= old(self)@.decls);
            assert(self@.cons =~= old(self)@.cons);
        }
        let n = self.cons_signs.len();
        let mut i: usize = 0;
        while i < n
            invariant
                i <= n,
                n == self.cons_signs@.len(),
                self.decl_signs == old(self).decl_signs,
                self.cons_signs == old(self).cons_signs,
                self@.decls == old(self)@.decls,
                self@.cons == old(self)@.cons,
                self@.cons_order == old(self)@.cons_order.push(cons_ref@),
                self@.decl_order == old(self)@.decl_order,
                old(self).wf(),
                forall|j: int| 0 <= j < i ==> self@.cons[j].0 != sign@,
            decreases n - i,
        {
            if signs_eq(&self.cons_signs[i].0, &sign) {
                let mut pair = self.cons_signs.remove(i);
                pair.1.push(cons_ref);
                self.cons_signs.insert(i, pair);
                proof {
                    assert(final(self)@.cons =~= old(self)@.cons.update(
                        i as int,
                        (sign@, bucket_lookup(old(self)@.cons, sign@).push(cons_ref@)),
                    )) by {
                        assert(refs_view(pair.1@) =~= refs_view(old(self).cons_signs@[i as int].1@
                        ).push(cons_ref@));
                        lemma_bucket_lookup_at(old(self)@.cons, i as int, sign@);
                    }
                    lemma_bucket_update(
                        old(self)@.cons,
                        i as int,
                        sign@,
                        bucket_lookup(old(self)@.cons, sign@).push(cons_ref@),
                    );
                    lemma_bucket_insert_found(old(self)@.cons, i as int, sign@, cons_ref@);
                    lemma_bucket_lookup_at(old(self)@.cons, i as int, sign@);
                }
                return ;
            }
            i = i + 1;
        }
        let mut handles: Vec<ConsRef> = Vec::new();
        handles.push(cons_ref);
        self.cons_signs.push((sign, handles));
        proof {
            assert(refs_view(handles@) =~= seq![cons_ref@]);
            assert(final(self)@.cons =~= old(self)@.cons.push((sign@, seq![cons_ref@])));
            lemma_bucket_append(old(self)@.cons, sign@, seq![cons_ref@]);
            lemma_bucket_insert_missing(old(self)@.cons, sign@, cons_ref@);
            assert(bucket_lookup(old(self)@.cons, sign@) =~= Seq::<nat>::empty()) by {
                lemma_bucket_lookup_missing(old(self)@.cons, sign@);
            }
            assert(bucket_lookup(final(self)@.cons, sign@) =~= bucket_lookup(
                old(self)@.cons,
                sign@,
            ).push(cons_ref@));
            assert(final(self)@.decls =~= old(self)@.decls);
        }
    }

    /// The declarations registered under exactly this signature, in
    /// registration order; empty if the shape was never used.
    pub fn lookup_decl(&self, sign: &Vec<Sign<()>>) -> (r: Vec<DeclRef>)
        ensures
            refs_view(r@) == bucket_lookup(self@.decls, sign@),
    {
        let n = self.decl_signs.len();
        let mut i: usize = 0;
        proof {
            assert(self@.decls.skip(0) =~= self@.decls);
        }
        while i < n
            invariant
                i <= n,
                n == self.decl_signs@.len(),
                bucket_lookup(self@.decls, sign@) == bucket_lookup(
                    self@.decls.skip(i as int),
                    sign@,
                ),
            decreases n - i,
        {
            proof {
                assert(self@.decls.skip(i as int).drop_first() =~= self@.decls.skip(i as int + 1));
                assert(self@.decls.skip(i as int)[0] == self@.decls[i as int]);
            }
            if signs_eq(&self.decl_signs[i].0, sign) {
                let bucket = &self.decl_signs[i].1;
                let mut out: Vec<DeclRef> = Vec::new();
                let m = bucket.len();
                let mut j: usize = 0;
                proof {
                    assert(refs_view(out@) =~= refs_view(bucket@).subrange(0, 0));
                }
                while j < m
                    invariant
                        j <= m,
                        m == bucket@.len(),
                        refs_view(out@) == refs_view(bucket@).subrange(0, j as int),
                    decreases m - j,
                {
                    let ghost pre = out@;
                    out.push(bucket[j]);
                    proof {
                        crate::refs::lemma_refs_view_push(pre, bucket@[j as int]);
                        assert(refs_view(bucket@).subrange(0, j as int).push(
                            refs_view(bucket@)[j as int],
                        ) =~= refs_view(bucket@).subrange(0, j as int + 1));
                        assert(refs_view(out@) =~= refs_view(bucket@).subrange(0, j as int + 1));
                    }
                    j = j + 1;
                }
                proof {
                    assert(refs_view(bucket@).subrange(0, m as int) =~= refs_view(bucket@));
                }
                return out;
            }
            i = i + 1;
        }
        proof {
            assert(self@.decls.skip(n as int) =~= Seq::<(Seq<Sign<()>>, Seq<nat>)>::empty());
        }
        Vec::new()
    }

    /// The constructors registered under exactly this signature, in
    /// registration order; empty if the shape was never used.
    pub fn lookup_cons(&self, sign: &Vec<Sign<()>>) -> (r: Vec<ConsRef>)
        ensures
            refs_view(r@) == bucket_lookup(self@.cons, sign@),
    {
        let n = self.cons_signs.len();
        let mut i: usize = 0;
        proof {
            assert(self@.cons.skip(0) =~= self@.cons);
        }
        while i < n
            invariant
                i <= n,
                n == self.cons_signs@.len(),
                bucket_lookup(self@.cons, sign@) == bucket_lookup(
                    self@.cons.skip(i as int),
                    sign@,
                ),
            decreases n - i,
        {
            proof {
                assert(self@.cons.skip(i as int).drop_first() =~= self@.cons.skip(i as int + 1));
                assert(self@.cons.skip(i as int)[0] == self@.cons[i as int]);
            }
            if signs_eq(&self.cons_signs[i].0, sign) {
                let bucket = &self.cons_signs[i].1;
                let mut out: Vec<ConsRef> = Vec::new();
                let m = bucket.len();
                let mut j: usize = 0;
                proof {
                    assert(refs_view(out@) =~= refs_view(bucket@).subrange(0, 0));
                }
                while j < m
                    invariant
                        j <= m,
                        m == bucket@.len(),
                        refs_view(out@) == refs_view(bucket@).subrange(0, j as int),
                    decreases m - j,
                {
                    let ghost pre = out@;
                    out.push(bucket[j]);
                    proof {
                        crate::refs::lemma_refs_view_push(pre, bucket@[j as int]);
                        assert(refs_view(bucket@).subrange(0, j as int).push(
                            refs_view(bucket@)[j as int],
                        ) =~= refs_view(bucket@).subrange(0, j as int + 1));
                        assert(refs_view(out@) =~= refs_view(bucket@).subrange(0, j as int + 1));
                    }
                    j = j + 1;
                }
                proof {
                    assert(refs_view(bucket@).subrange(0, m as int) =~= refs_view(bucket@));
                }
                return out;
            }
            i = i + 1;
        }
        proof {
            assert(self@.cons.skip(n as int) =~= Seq::<(Seq<Sign<()>>, Seq<nat>)>::empty());
        }
        Vec::new()
    }

    /// Every registered declaration handle, in overall registration order.
    pub fn iter_decl(&self) -> (r: Vec<DeclRef>)
        ensures
            refs_view(r@) == self@.decl_order,
    {
        let n = self.decl_order.len();
        let mut out: Vec<DeclRef> = Vec::new();
        let mut i: usize = 0;
        proof {
            assert(refs_view(out@) =~= refs_view(self.decl_order@).subrange(0, 0));
        }
        while i < n
            invariant
                i <= n,
                n == self.decl_order@.len(),
                refs_view(out@) == refs_view(self.decl_order@).subrange(0, i as int),
            decreases n - i,
        {
            let ghost pre = out@;
            out.push(self.decl_order[i]);
            proof {
                crate::refs::lemma_refs_view_push(pre, self.decl_order@[i as int]);
                assert(refs_view(out@) =~= refs_view(self.decl_order@).subrange(0, i as int + 1));
            }
            i = i + 1;
        }
        proof {
            assert(refs_view(self.decl_order@).subrange(0, n as int) =~= refs_view(
                self.decl_order@,
            ));
        }
        out
    }

    /// Every registered constructor handle, in overall registration order.
    pub fn iter_cons(&self) -> (r: Vec<ConsRef>)
        ensures
            refs_view(r@) == self@.cons_order,
    {
        let n = self.cons_order.len();
        let mut out: Vec<ConsRef> = Vec::new();
        let mut i: usize = 0;
        proof {
            assert(refs_view(out@) =~= refs_view(self.cons_order@).subrange(0, 0));
        }
        while i < n
            invariant
                i <= n,
                n == self.cons_order@.len(),
                refs_view(out@) == refs_view(self.cons_order@).subrange(0, i as int),
            decreases n - i,
        {
            let ghost pre = out@;
            out.push(self.cons_order[i]);
            proof {
                crate::refs::lemma_refs_view_push(pre, self.cons_order@[i as int]);
                assert(refs_view(out@) =~= refs_view(self.cons_order@).subrange(0, i as int + 1));
            }
            i = i + 1;
        }
        proof {
            assert(refs_view(self.cons_order@).subrange(0, n as int) =~= refs_view(
                self.cons_order@,
            ));
        }
        out
    }
}

/// Looking up the signature of bucket `i`, with no earlier bucket sharing
/// it, yields exactly that bucket's contents.
proof fn lemma_bucket_lookup_at(buckets: Seq<(Seq<Sign<()>>, Seq<nat>)>, i: int, sig: Seq<Sign<()>>)
    requires
        0 <= i < buckets.len(),
        buckets[i].0 == sig,
        forall|j: int| 0 <= j < i ==> buckets[j].0 != sig,
    ensures
        bucket_lookup(buckets, sig) == buckets[i].1,
    decreases buckets,
{
    if i > 0 {
        lemma_bucket_lookup_at(buckets.drop_first(), i - 1, sig);
    }
}

/// A signature matching no bucket looks up to the empty sequence.
proof fn lemma_bucket_lookup_missing(buckets: Seq<(Seq<Sign<()>>, Seq<nat>)>, sig: Seq<Sign<()>>)
    requires
        forall|j: int| 0 <= j < buckets.len() ==> buckets[j].0 != sig,
    ensures
        bucket_lookup(buckets, sig) == Seq::<nat>::empty(),
    decreases buckets,
{
    if buckets.len() > 0 {
        lemma_bucket_lookup_missing(buckets.drop_first(), sig);
    }
}

/// Replacing the contents of the bucket keyed `sig` changes that lookup and
/// no other, and keeps the keys distinct.
proof fn lemma_bucket_update(
    buckets: Seq<(Seq<Sign<()>>, Seq<nat>)>,
    i: int,
    sig: Seq<Sign<()>>,
    contents: Seq<nat>,
)
    requires
        0 <= i < buckets.len(),
        buckets[i].0 == sig,
        forall|j: int| 0 <= j < i ==> buckets[j].0 != sig,
        buckets_distinct(buckets),
    ensures
        buckets_distinct(buckets.update(i, (sig, contents))),
        bucket_lookup(buckets.update(i, (sig, contents)), sig) == contents,
        forall|other: Seq<Sign<()>>|
            other != sig ==> bucket_lookup(buckets.update(i, (sig, contents)), other)
                == bucket_lookup(buckets, other),
    decreases buckets,
{
    let u = buckets.update(i, (sig, contents));
    assert forall|p: int, q: int| 0 <= p < q < u.len() implies u[p].0 != u[q].0 by {
        assert(buckets[p].0 != buckets[q].0);
        assert(u[p].0 == buckets[p].0);
        assert(u[q].0 == buckets[q].0);
    }
    if i == 0 {
        assert(u[0] == (sig, contents));
        assert forall|other: Seq<Sign<()>>| other != sig implies bucket_lookup(u, other)
            == bucket_lookup(buckets, other) by {
            assert(u.drop_first() =~= buckets.drop_first());
            assert(bucket_lookup(u, other) == bucket_lookup(u.drop_first(), other));
            assert(bucket_lookup(buckets, other) == bucket_lookup(buckets.drop_first(), other));
        }
    } else {
        lemma_bucket_update(buckets.drop_first(), i - 1, sig, contents);
        assert(u.drop_first() =~= buckets.drop_first().update(i - 1, (sig, contents)));
        assert(u[0] == buckets[0]);
        assert(buckets[0].0 != sig);
        assert(bucket_lookup(u, sig) == bucket_lookup(u.drop_first(), sig));
        assert forall|other: Seq<Sign<()>>| other != sig implies bucket_lookup(u, other)
            == bucket_lookup(buckets, other) by {
            if buckets[0].0 != other {
                assert(bucket_lookup(u, other) == bucket_lookup(u.drop_first(), other));
                assert(bucket_lookup(buckets, other) == bucket_lookup(
                    buckets.drop_first(),
                    other,
                ));
            }
        }
    }
}

/// Appending a bucket under a fresh signature defines that lookup and no
/// other, and keeps the keys distinct.
proof fn lemma_bucket_append(
    buckets: Seq<(Seq<Sign<()>>, Seq<nat>)>,
    sig: Seq<Sign<()>>,
    contents: Seq<nat>,
)
    requires
        forall|j: int| 0 <= j < buckets.len() ==> buckets[j].0 != sig,
        buckets_distinct(buckets),
    ensures
        buckets_distinct(buckets.push((sig, contents))),
        bucket_lookup(buckets.push((sig, contents)), sig) == contents,
        forall|other: Seq<Sign<()>>|
            other != sig ==> bucket_lookup(buckets.push((sig, contents)), other) == bucket_lookup(
                buckets,
                other,
            ),
    decreases buckets,
{
    let u = buckets.push((sig, contents));
    assert forall|p: int, q: int| 0 <= p < q < u.len() implies u[p].0 != u[q].0 by {
        if q < buckets.len() {
            assert(buckets[p].0 != buckets[q].0);
        } else {
            assert(u[q].0 == sig);
            assert(u[p].0 == buckets[p].0);
        }
    }
    if buckets.len() == 0 {
        assert(u[0] == (sig, contents));
        assert(u.drop_first() =~= buckets);
    } else {
        lemma_bucket_append(buckets.drop_first(), sig, contents);
        assert(u.drop_first() =~= buckets.drop_first().push((sig, contents)));
        assert(u[0] == buckets[0]);
        assert(buckets[0].0 != sig);
        assert(bucket_lookup(u, sig) == bucket_lookup(u.drop_first(), sig));
        assert forall|other: Seq<Sign<()>>| other != sig implies bucket_lookup(u, other)
            == bucket_lookup(buckets, other) by {
            if buckets[0].0 != other {
                assert(bucket_lookup(u, other) == bucket_lookup(u.drop_first(), other));
                assert(bucket_lookup(buckets, other) == bucket_lookup(
                    buckets.drop_first(),
                    other,
                ));
            }
        }
    }
}

} // verus!
