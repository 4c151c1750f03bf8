//! Append-only slot storage keyed by typed monotonic handles, and the
//! counters that issue those handles. One storage instance exists per entity
//! kind; a handle is valid for lookups only once its slot has been populated.

use vstd::prelude::*;

use crate::refs::Ref;

verus! {

/// Issues the handles of kind `K`, as consecutive integers starting at zero.
#[derive(Debug)]
pub struct RefCounter<K> {
    kind: core::marker::PhantomData<K>,
    count: usize,
}

impl<K> View for RefCounter<K> {
    type V = nat;

    closed spec fn view(&self) -> nat {
        self.count as nat
    }
}

impl<K> Copy for RefCounter<K> {

}

impl<K> Clone for RefCounter<K> {
    fn clone(&self) -> (c: RefCounter<K>)
        ensures
            c == *self,
    {
        *self
    }
}

impl<K> RefCounter<K> {
    /// A counter that has issued no handles yet.
    pub fn new() -> (c: RefCounter<K>)
        ensures
            c@ == 0,
    {
        RefCounter { kind: core::marker::PhantomData, count: 0 }
    }

    /// Issue the next handle. Handles come out strictly increasing,
    /// starting at zero, with no repeats.
    pub fn make_ref(&mut self) -> (r: Ref<K>)
        requires
            old(self)@ < usize::MAX,
        ensures
            r@ == old(self)@,
            final(self)@ == old(self)@ + 1,
    {
        let r = Ref::from_index(self.count);
        self.count = self.count + 1;
        r
    }
}

/// The handles a counter in state `count` has issued so far: exactly the
/// integers below `count`, in order of issue.
pub open spec fn issued_handles(count: nat) -> Seq<nat> {
    Seq::new(count, |i: int| i as nat)
}

/// Handle monotonicity: over any sequence of `make_ref` calls on one kind,
/// the returned handles are strictly increasing integers starting at zero,
/// with no repeats.
pub proof fn lemma_handle_monotonicity(count: nat)
    ensures
        forall|i: int, j: int|
            0 <= i < j < count ==> issued_handles(count)[i] < issued_handles(count)[j],
        count > 0 ==> issued_handles(count)[0] == 0,
        forall|i: int, j: int|
            0 <= i < count && 0 <= j < count && i != j ==> issued_handles(count)[i]
                != issued_handles(count)[j],
{
}

/// A bare, untyped slot index, for callers that need no kind tag.
#[derive(Debug, Copy, Clone, PartialEq, Eq, Structural)]
pub struct VecRef(pub usize);

/// Walks the handles a counter has issued so far, in order of issue.
#[derive(Debug)]
pub struct RefCounterIter<K> {
    kind: core::marker::PhantomData<K>,
    curr: usize,
    stop: usize,
}

impl<K> RefCounterIter<K> {
    /// Every handle the counter has issued, starting from the first.
    pub fn new(counter: &RefCounter<K>) -> (it: RefCounterIter<K>)
        ensures
            it.remaining() =~= issued_handles(counter@),
    {
        RefCounterIter { kind: core::marker::PhantomData, curr: 0, stop: counter.count }
    }

    /// The handles not yet walked, in order.
    pub closed spec fn remaining(&self) -> Seq<nat> {
        if self.curr <= self.stop {
            Seq::new((self.stop - self.curr) as nat, |i: int| (self.curr + i) as nat)
        } else {
            Seq::empty()
        }
    }

    /// The next issued handle, if any handle is left.
    pub fn next(&mut self) -> (r: Option<Ref<K>>)
        ensures
            match r {
                Some(h) => old(self).remaining().len() > 0 && h@ == old(self).remaining()[0]
                    && final(self).remaining() == old(self).remaining().drop_first(),
                None => old(self).remaining().len() == 0 && final(self).remaining() == old(
                    self,
                ).remaining(),
            },
    {
        if self.curr >= self.stop {
            None
        } else {
            let next = Ref::from_index(self.curr);
            self.curr = self.curr + 1;
            proof {
                assert(final(self).remaining() =~= old(self).remaining().drop_first());
            }
            Some(next)
        }
    }
}

/// A growable slot array mapping handles of kind `K` to optional stored
/// values: the arena that owns every entity of one kind. Slots are written
/// by `set`, which grows the array as needed, filling gaps with empty slots;
/// nothing is ever deleted.
#[derive(Debug)]
pub struct VecStorage<K, T> {
    kind: core::marker::PhantomData<K>,
    vec: Vec<Option<T>>,
}

impl<K, T> View for VecStorage<K, T> {
    type V = Seq<Option<T>>;

    closed spec fn view(&self) -> Seq<Option<T>> {
        self.vec@
    }
}

impl<K, T> VecStorage<K, T> {
    /// An empty storage: no slot is populated.
    pub fn new() -> (s: VecStorage<K, T>)
        ensures
            s@ == Seq::<Option<T>>::empty(),
    {
        VecStorage { kind: core::marker::PhantomData, vec: Vec::new() }
    }

    /// How many slots the backing array currently has (populated or not).
    pub fn len(&self) -> (n: usize)
        ensures
            n as nat == self@.len(),
    {
        self.vec.len()
    }

    /// The value stored for handle `r`, or nothing if the slot was never
    /// populated (or lies beyond the backing array).
    pub fn get(&self, r: Ref<K>) -> (result: Option<&T>)
        ensures
            result is Some <==> r@ < self@.len() && self@[r@ as int] is Some,
            result is Some ==> *result.unwrap() == self@[r@ as int].unwrap(),
    {
        let ix = r.index();
        if ix < self.vec.len() {
            match &self.vec[ix] {
                Some(v) => Some(v),
                None => None,
            }
        } else {
            None
        }
    }

    /// Exclusive access to the value stored for handle `r`, or nothing if
    /// the slot was never populated. Only that slot can change through the
    /// returned reference.
    pub fn get_mut(&mut self, r: Ref<K>) -> (result: Option<&mut T>)
        ensures
            result is Some <==> r@ < old(self)@.len() && old(self)@[r@ as int] is Some,
            match result {
                Some(v) => *v == old(self)@[r@ as int].unwrap() && final(self)@ == old(
                    self,
                )@.update(r@ as int, Some(*final(v))),
                None => final(self)@ == old(self)@,
            },
    {
        let ix = r.index();
        if ix < self.vec.len() {
            match &mut self.vec[ix] {
                Some(v) => Some(v),
                None => None,
            }
        } else {
            None
        }
    }

    /// The handles of every populated slot, in ascending order: iteration
    /// visits exactly the stored entries, lowest handle first.
    pub fn keys(&self) -> (r: Vec<Ref<K>>)
        ensures
            crate::refs::refs_view(r@) == populated_indices(self@),
    {
        let n = self.vec.len();
        let mut out: Vec<Ref<K>> = Vec::new();
        let mut i: usize = 0;
        proof {
            assert(self@.subrange(0, 0) =~= Seq::<Option<T>>::empty());
            assert(crate::refs::refs_view(out@) =~= populated_indices(self@.subrange(0, 0)));
        }
        while i < n
            invariant
                i <= n,
                n == self@.len(),
                crate::refs::refs_view(out@) == populated_indices(self@.subrange(0, i as int)),
            decreases n - i,
        {
            proof {
                assert(self@.subrange(0, i as int + 1).drop_last() =~= self@.subrange(0, i as int));
                assert(self@.subrange(0, i as int + 1).last() == self@[i as int]);
            }
            match &self.vec[i] {
                Some(_) => {
                    let ghost out0 = out@;
                    out.push(Ref::from_index(i));
                    proof {
                        crate::refs::lemma_refs_view_push(out0, out@[out@.len() - 1]);
                        assert(crate::refs::refs_view(out@) =~= populated_indices(
                            self@.subrange(0, i as int + 1),
                        ));
                    }
                },
                None => {
                    proof {
                        assert(crate::refs::refs_view(out@) =~= populated_indices(
                            self@.subrange(0, i as int + 1),
                        ));
                    }
                },
            }
            i = i + 1;
        }
        proof {
            assert(self@.subrange(0, n as int) =~= self@);
        }
        out
    }

    /// Store `t` for handle `r`, growing the backing array so that the slot
    /// exists, and leaving every other slot exactly as it was.
    pub fn set(&mut self, r: Ref<K>, t: T)
        ensures
            final(self)@.len() == if r@ + 1 > old(self)@.len() {
                r@ + 1
            } else {
                old(self)@.len()
            },
            final(self)@[r@ as int] == Some(t),
            forall|i: int|
                0 <= i < final(self)@.len() && i != r@ ==> final(self)@[i] == (if i < old(
                    self,
                )@.len() {
                    old(self)@[i]
                } else {
                    None::<T>
                }),
    {
        let ix = r.index();
        while self.vec.len() < ix
            invariant
                old(self)@.len() <= self@.len(),
                self@.len() <= ix || self@.len() <= old(self)@.len(),
                forall|i: int|
                    0 <= i < self@.len() ==> self@[i] == (if i < old(self)@.len() {
                        old(self)@[i]
                    } else {
                        None::<T>
                    }),
            decreases ix - self@.len(),
        {
            self.vec.push(None);
        }
        if ix < self.vec.len() {
            self.vec.set(ix, Some(t));
        } else {
            self.vec.push(Some(t));
        }
    }
}

/// The populated slots of a storage, in ascending handle order.
pub open spec fn populated_indices<T>(s: Seq<Option<T>>) -> Seq<nat>
    decreases s.len(),
{
    if s.len() == 0 {
        Seq::empty()
    } else {
        populated_indices(s.drop_last()) + if s.last() is Some {
            seq![(s.len() - 1) as nat]
        } else {
            Seq::<nat>::empty()
        }
    }
}

/// Storage lookup idempotence: storing a value for a handle makes exactly
/// that value visible at that handle, the latest store wins, and no other
/// handle's slot is affected.
pub proof fn lemma_storage_lookup_idempotence<T>(s: Seq<Option<T>>, h: int, v: T, v2: T)
    requires
        0 <= h < s.len(),
    ensures
        s.update(h, Some(v))[h] == Some(v),
        s.update(h, Some(v)).update(h, Some(v2))[h] == Some(v2),
        forall|i: int| 0 <= i < s.len() && i != h ==> s.update(h, Some(v))[i] == s[i],
{
}

/// The value stored under key `k`, searching first match; `None` if no
/// entry carries that key.
pub open spec fn keyed_lookup<T>(entries: Seq<(nat, T)>, k: nat) -> Option<T>
    decreases entries,
{
    if entries.len() == 0 {
        None
    } else if entries[0].0 == k {
        Some(entries[0].1)
    } else {
        keyed_lookup(entries.drop_first(), k)
    }
}

/// No key occurs twice.
pub open spec fn keys_distinct<T>(entries: Seq<(nat, T)>) -> bool {
    forall|i: int, j: int| 0 <= i < j < entries.len() ==> entries[i].0 != entries[j].0
}

/// Keyed storage: handle-to-value entries with unique keys, for sparse maps
/// where a growable slot array would not pay off. Writing an existing key
/// replaces its value; nothing is ever deleted.
#[derive(Debug)]
pub struct HashStorage<K, T> {
    entries: Vec<(Ref<K>, T)>,
}

impl<K, T> View for HashStorage<K, T> {
    type V = Seq<(nat, T)>;

    closed spec fn view(&self) -> Seq<(nat, T)> {
        Seq::new(self.entries@.len(), |i: int| (self.entries@[i].0@, self.entries@[i].1))
    }
}

impl<K, T> HashStorage<K, T> {
    /// The storage's invariant: each key maps to one value.
    pub open spec fn wf(&self) -> bool {
        keys_distinct(self@)
    }

    /// An empty storage.
    pub fn new() -> (s: HashStorage<K, T>)
        ensures
            s@ == Seq::<(nat, T)>::empty(),
            s.wf(),
    {
        HashStorage { entries: Vec::new() }
    }

    /// How many keys are populated.
    pub fn len(&self) -> (n: usize)
        ensures
            n as nat == self@.len(),
    {
        self.entries.len()
    }

    /// The value stored for handle `r`, or nothing if the key was never
    /// populated.
    pub fn get(&self, r: Ref<K>) -> (result: Option<&T>)
        ensures
            match result {
                Some(v) => keyed_lookup(self@, r@) == Some(*v),
                None => keyed_lookup(self@, r@) is None,
            },
    {
        let n = self.entries.len();
        let mut i: usize = 0;
        proof {
            assert(self@.skip(0) =~= self@);
        }
        while i < n
            invariant
                i <= n,
                n == self.entries@.len(),
                self@.len() == n,
                keyed_lookup(self@, r@) == keyed_lookup(self@.skip(i as int), r@),
            decreases n - i,
        {
            proof {
                assert(self@.skip(i as int)[0] == self@[i as int]);
                assert(self@.skip(i as int).drop_first() =~= self@.skip(i as int + 1));
            }
            if self.entries[i].0 == r {
                return Some(&self.entries[i].1);
            }
            i = i + 1;
        }
        proof {
            assert(self@.skip(n as int) =~= Seq::<(nat, T)>::empty());
        }
        None
    }

    /// Store `t` for handle `r`, replacing the key's earlier value if it has
    /// one and leaving every other key's value exactly as it was.
    pub fn set(&mut self, r: Ref<K>, t: T)
        requires
            old(self).wf(),
        ensures
            final(self).wf(),
            keyed_lookup(final(self)@, r@) == Some(t),
            forall|other: nat|
                other != r@ ==> keyed_lookup(final(self)@, other) == keyed_lookup(
                    old(self)@,
                    other,
                ),
    {
        let n = self.entries.len();
        let mut i: usize = 0;
        while i < n
            invariant
                i <= n,
                n == self.entries@.len(),
                old(self) == self,
                old(self).wf(),
                forall|j: int| 0 <= j < i ==> self@[j].0 != r@,
            decreases n - i,
        {
            if self.entries[i].0 == r {
                proof {
                    lemma_keyed_lookup_update(self@, i as int, r@, t);
                    assert(self@.update(i as int, (r@, t)) =~= Seq::new(
                        self.entries@.update(i as int, (r, t)).len(),
                        |j: int|
                            (
                                self.entries@.update(i as int, (r, t))[j].0@,
                                self.entries@.update(i as int, (r, t))[j].1,
                            ),
                    ));
                }
                self.entries.set(i, (r, t));
                return ;
            }
            i = i + 1;
        }
        proof {
            lemma_keyed_lookup_append(self@, r@, t);
            assert(self@.push((r@, t)) =~= Seq::new(
                self.entries@.push((r, t)).len(),
                |j: int| (self.entries@.push((r, t))[j].0@, self.entries@.push((r, t))[j].1),
            ));
        }
        self.entries.push((r, t));
    }
}

/// Replacing the entry whose key is `k`, which occurs nowhere earlier,
/// changes the lookup of `k` to the new value and no other lookup.
proof fn lemma_keyed_lookup_update<T>(entries: Seq<(nat, T)>, i: int, k: nat, t: T)
    requires
        0 <= i < entries.len(),
        entries[i].0 == k,
        forall|j: int| 0 <= j < i ==> entries[j].0 != k,
        keys_distinct(entries),
    ensures
        keys_distinct(entries.update(i, (k, t))),
        keyed_lookup(entries.update(i, (k, t)), k) == Some(t),
        forall|other: nat|
            other != k ==> keyed_lookup(entries.update(i, (k, t)), other) == keyed_lookup(
                entries,
                other,
            ),
    decreases entries,
{
    let u = entries.update(i, (k, t));
    assert forall|p: int, q: int| 0 <= p < q < u.len() implies u[p].0 != u[q].0 by {
        assert(entries[p].0 != entries[q].0);
        assert(u[p].0 == entries[p].0);
        assert(u[q].0 == entries[q].0);
    }
    if i == 0 {
        assert(u[0] == (k, t));
        assert forall|other: nat| other != k implies keyed_lookup(u, other) == keyed_lookup(
            entries,
            other,
        ) by {
            assert(u.drop_first() =~= entries.drop_first());
            assert(keyed_lookup(u, other) == keyed_lookup(u.drop_first(), other));
            assert(keyed_lookup(entries, other) == keyed_lookup(entries.drop_first(), other));
        }
    } else {
        lemma_keyed_lookup_update(entries.drop_first(), i - 1, k, t);
        assert(u.drop_first() =~= entries.drop_first().update(i - 1, (k, t)));
        assert(u[0] == entries[0]);
        assert(entries[0].0 != k);
        assert(keyed_lookup(u, k) == keyed_lookup(u.drop_first(), k));
        assert forall|other: nat| other != k implies keyed_lookup(u, other) == keyed_lookup(
            entries,
            other,
        ) by {
            if entries[0].0 != other {
                assert(keyed_lookup(u, other) == keyed_lookup(u.drop_first(), other));
                assert(keyed_lookup(entries, other) == keyed_lookup(entries.drop_first(), other));
            }
        }
    }
}

/// Appending an entry under a fresh key defines the lookup of that key and
/// no other.
proof fn lemma_keyed_lookup_append<T>(entries: Seq<(nat, T)>, k: nat, t: T)
    requires
        forall|j: int| 0 <= j < entries.len() ==> entries[j].0 != k,
        keys_distinct(entries),
    ensures
        keys_distinct(entries.push((k, t))),
        keyed_lookup(entries.push((k, t)), k) == Some(t),
        forall|other: nat|
            other != k ==> keyed_lookup(entries.push((k, t)), other) == keyed_lookup(
                entries,
                other,
            ),
    decreases entries,
{
    let u = entries.push((k, t));
    assert forall|p: int, q: int| 0 <= p < q < u.len() implies u[p].0 != u[q].0 by {
        if q < entries.len() {
            assert(entries[p].0 != entries[q].0);
        } else {
            assert(u[q].0 == k);
            assert(u[p].0 == entries[p].0);
        }
    }
    if entries.len() == 0 {
        assert(u[0] == (k, t));
        assert(u.drop_first() =~= entries);
    } else {
        lemma_keyed_lookup_append(entries.drop_first(), k, t);
        assert(u.drop_first() =~= entries.drop_first().push((k, t)));
        assert(u[0] == entries[0]);
        assert(entries[0].0 != k);
        assert(keyed_lookup(u, k) == keyed_lookup(u.drop_first(), k));
        assert forall|other: nat| other != k implies keyed_lookup(u, other) == keyed_lookup(
            entries,
            other,
        ) by {
            if entries[0].0 != other {
                assert(keyed_lookup(u, other) == keyed_lookup(u.drop_first(), other));
                assert(keyed_lookup(entries, other) == keyed_lookup(entries.drop_first(), other));
            }
        }
    }
}

} // verus!
