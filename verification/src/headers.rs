//! A case-preserving header mapping: names keep the case they were inserted
//! with, lookups may be exact or ASCII-case-insensitive, and inserts replace.

use vstd::prelude::*;

use crate::ascii::eq_ci;

verus! {

/// The mathematical content of a list of header entries: the sequence of
/// (name, value) byte strings.
pub open spec fn entries_view(v: Seq<(Vec<u8>, Vec<u8>)>) -> Seq<(Seq<u8>, Seq<u8>)> {
    Seq::new(v.len(), |i: int| (v[i].0@, v[i].1@))
}

/// Value of the first entry whose name equals `k` exactly.
pub open spec fn spec_get(hs: Seq<(Seq<u8>, Seq<u8>)>, k: Seq<u8>) -> Option<Seq<u8>>
    decreases hs.len(),
{
    if hs.len() == 0 {
        None
    } else if hs.first().0 == k {
        Some(hs.first().1)
    } else {
        spec_get(hs.drop_first(), k)
    }
}

/// Value of the first entry whose name equals `k` up to ASCII case.
pub open spec fn spec_get_ci(hs: Seq<(Seq<u8>, Seq<u8>)>, k: Seq<u8>) -> Option<Seq<u8>>
    decreases hs.len(),
{
    if hs.len() == 0 {
        None
    } else if eq_ci(hs.first().0, k) {
        Some(hs.first().1)
    } else {
        spec_get_ci(hs.drop_first(), k)
    }
}

/// The entries with the first exactly-named `k` entry replaced by `(k, v)`,
/// or `(k, v)` appended when no entry is named `k`.
pub open spec fn spec_insert(hs: Seq<(Seq<u8>, Seq<u8>)>, k: Seq<u8>, v: Seq<u8>) -> Seq<
    (Seq<u8>, Seq<u8>),
>
    decreases hs.len(),
{
    if hs.len() == 0 {
        seq![(k, v)]
    } else if hs.first().0 == k {
        seq![(k, v)] + hs.drop_first()
    } else {
        seq![hs.first()] + spec_insert(hs.drop_first(), k, v)
    }
}

/// The entries whose names differ from `k` up to ASCII case.
pub open spec fn spec_remove_ci(hs: Seq<(Seq<u8>, Seq<u8>)>, k: Seq<u8>) -> Seq<
    (Seq<u8>, Seq<u8>),
>
    decreases hs.len(),
{
    if hs.len() == 0 {
        Seq::empty()
    } else if eq_ci(hs.first().0, k) {
        spec_remove_ci(hs.drop_first(), k)
    } else {
        seq![hs.first()] + spec_remove_ci(hs.drop_first(), k)
    }
}

proof fn lemma_spec_get_step(hs: Seq<(Seq<u8>, Seq<u8>)>, k: Seq<u8>, i: int)
    requires
        0 <= i <= hs.len(),
        forall|j: int| 0 <= j < i ==> hs[j].0 != k,
    ensures
        spec_get(hs, k) == spec_get(hs.skip(i), k),
    decreases i,
{
    if i > 0 {
        assert(hs.first().0 != k);
        assert(hs.drop_first() =~= hs.skip(1));
        lemma_spec_get_step(hs.skip(1), k, i - 1);
        assert(hs.skip(1).skip(i - 1) =~= hs.skip(i));
    } else {
        assert(hs.skip(0) =~= hs);
    }
}

proof fn lemma_spec_get_ci_step(hs: Seq<(Seq<u8>, Seq<u8>)>, k: Seq<u8>, i: int)
    requires
        0 <= i <= hs.len(),
        forall|j: int| 0 <= j < i ==> !eq_ci(hs[j].0, k),
    ensures
        spec_get_ci(hs, k) == spec_get_ci(hs.skip(i), k),
    decreases i,
{
    if i > 0 {
        assert(!eq_ci(hs.first().0, k));
        assert(hs.drop_first() =~= hs.skip(1));
        lemma_spec_get_ci_step(hs.skip(1), k, i - 1);
        assert(hs.skip(1).skip(i - 1) =~= hs.skip(i));
    } else {
        assert(hs.skip(0) =~= hs);
    }
}

/// No header name in `hs` equals `k` up to case.
pub proof fn lemma_get_ci_none(hs: Seq<(Seq<u8>, Seq<u8>)>, k: Seq<u8>)
    requires
        forall|i: int| 0 <= i < hs.len() ==> !eq_ci(#[trigger] hs[i].0, k),
    ensures
        spec_get_ci(hs, k) is None,
    decreases hs.len(),
{
    if hs.len() > 0 {
        assert(!eq_ci(hs[0].0, k));
        assert forall|i: int| 0 <= i < hs.drop_first().len() implies !eq_ci(
            #[trigger] hs.drop_first()[i].0,
            k,
        ) by {
            assert(hs.drop_first()[i] == hs[i + 1]);
        }
        lemma_get_ci_none(hs.drop_first(), k);
    }
}

/// Lookup in a concatenation: the left part wins when it matches.
pub proof fn lemma_get_ci_append(a: Seq<(Seq<u8>, Seq<u8>)>, b: Seq<(Seq<u8>, Seq<u8>)>, k: Seq<
    u8,
>)
    ensures
        spec_get_ci(a + b, k) == (match spec_get_ci(a, k) {
            Some(v) => Some(v),
            None => spec_get_ci(b, k),
        }),
    decreases a.len(),
{
    if a.len() == 0 {
        assert(a + b =~= b);
    } else {
        assert((a + b).first() == a.first());
        assert((a + b).drop_first() =~= a.drop_first() + b);
        lemma_get_ci_append(a.drop_first(), b, k);
    }
}

/// Removing entries of another case-class leaves a lookup unchanged.
pub proof fn lemma_get_ci_remove_other(hs: Seq<(Seq<u8>, Seq<u8>)>, n: Seq<u8>, k: Seq<u8>)
    requires
        !eq_ci(n, k),
    ensures
        spec_get_ci(spec_remove_ci(hs, n), k) == spec_get_ci(hs, k),
    decreases hs.len(),
{
    if hs.len() > 0 {
        lemma_get_ci_remove_other(hs.drop_first(), n, k);
        if eq_ci(hs.first().0, n) {
            if eq_ci(hs.first().0, k) {
                crate::ascii::lemma_eq_ci_sym(hs.first().0, n);
                crate::ascii::lemma_eq_ci_trans(n, hs.first().0, k);
            }
        } else {
            let rest = spec_remove_ci(hs.drop_first(), n);
            assert(spec_remove_ci(hs, n) == seq![hs.first()] + rest);
            assert((seq![hs.first()] + rest).first() == hs.first());
            assert((seq![hs.first()] + rest).drop_first() =~= rest);
        }
    }
}

/// After removing a case-class, a lookup in that class finds nothing.
pub proof fn lemma_get_ci_remove_same(hs: Seq<(Seq<u8>, Seq<u8>)>, n: Seq<u8>, k: Seq<u8>)
    requires
        eq_ci(n, k),
    ensures
        spec_get_ci(spec_remove_ci(hs, n), k) is None,
    decreases hs.len(),
{
    if hs.len() > 0 {
        lemma_get_ci_remove_same(hs.drop_first(), n, k);
        if !eq_ci(hs.first().0, n) {
            let rest = spec_remove_ci(hs.drop_first(), n);
            assert(spec_remove_ci(hs, n) == seq![hs.first()] + rest);
            if eq_ci(hs.first().0, k) {
                crate::ascii::lemma_eq_ci_sym(n, k);
                crate::ascii::lemma_eq_ci_trans(hs.first().0, k, n);
            }
            assert((seq![hs.first()] + rest).first() == hs.first());
            assert((seq![hs.first()] + rest).drop_first() =~= rest);
        }
    }
}

/// A case-preserving header mapping with case-insensitive lookup.
#[derive(Debug, PartialEq)]
pub struct HeaderMap {
    entries: Vec<(Vec<u8>, Vec<u8>)>,
}

impl View for HeaderMap {
    type V = Seq<(Seq<u8>, Seq<u8>)>;

    closed spec fn view(&self) -> Seq<(Seq<u8>, Seq<u8>)> {
        entries_view(self.entries@)
    }
}

impl HeaderMap {
    pub fn new() -> (r: HeaderMap)
        ensures
            r@ == Seq::<(Seq<u8>, Seq<u8>)>::empty(),
    {
        let r = HeaderMap { entries: Vec::new() };
        proof {
            assert(r@ =~= Seq::<(Seq<u8>, Seq<u8>)>::empty());
        }
        r
    }

    pub fn len(&self) -> (r: usize)
        ensures
            r == self@.len(),
    {
        self.entries.len()
    }

    pub fn is_empty(&self) -> (r: bool)
        ensures
            r == (self@.len() == 0),
    {
        self.entries.len() == 0
    }

    /// The stored entries, name and value of each, in insertion order.
    pub fn entry_at(&self, i: usize) -> (r: (&Vec<u8>, &Vec<u8>))
        requires
            i < self@.len(),
        ensures
            r.0@ == self@[i as int].0,
            r.1@ == self@[i as int].1,
    {
        (&self.entries[i].0, &self.entries[i].1)
    }

    /// Value of the first header named `k` exactly.
    pub fn get(&self, k: &[u8]) -> (r: Option<&Vec<u8>>)
        ensures
            match r {
                Some(v) => spec_get(self@, k@) == Some(v@),
                None => spec_get(self@, k@) is None,
            },
    {
        let n = self.entries.len();
        let mut i: usize = 0;
        while i < n
            invariant
                0 <= i <= n,
                n == self@.len(),
                forall|j: int| 0 <= j < i ==> self@[j].0 != k@,
            decreases n - i,
        {
            if crate::ascii::bytes_eq(self.entries[i].0.as_slice(), k) {
                proof {
                    lemma_spec_get_step(self@, k@, i as int);
                    assert(self@.skip(i as int).first() == self@[i as int]);
                }
                return Some(&self.entries[i].1);
            }
            i += 1;
        }
        proof {
            lemma_spec_get_step(self@, k@, n as int);
        }
        None
    }

    /// Value of the first header named `k` up to ASCII case.
    pub fn get_ci(&self, k: &[u8]) -> (r: Option<&Vec<u8>>)
        ensures
            match r {
                Some(v) => spec_get_ci(self@, k@) == Some(v@),
                None => spec_get_ci(self@, k@) is None,
            },
    {
        let n = self.entries.len();
        let mut i: usize = 0;
        while i < n
            invariant
                0 <= i <= n,
                n == self@.len(),
                forall|j: int| 0 <= j < i ==> !eq_ci(self@[j].0, k@),
            decreases n - i,
        {
            if crate::ascii::bytes_eq_ci(self.entries[i].0.as_slice(), k) {
                proof {
                    lemma_spec_get_ci_step(self@, k@, i as int);
                    assert(self@.skip(i as int).first() == self@[i as int]);
                }
                return Some(&self.entries[i].1);
            }
            i += 1;
        }
        proof {
            lemma_spec_get_ci_step(self@, k@, n as int);
        }
        None
    }

    /// Whether some header is named `k` up to ASCII case.
    pub fn contains_ci(&self, k: &[u8]) -> (r: bool)
        ensures
            r == (spec_get_ci(self@, k@) is Some),
    {
        self.get_ci(k).is_some()
    }

    /// Inserts under the exact name `k`, replacing the first exactly-equal
    /// name in place and appending otherwise.
    pub fn insert(&mut self, k: Vec<u8>, v: Vec<u8>)
        ensures
            final(self)@ == spec_insert(old(self)@, k@, v@),
    {
        let ghost orig = self@;
        let n = self.entries.len();
        let mut i: usize = 0;
        while i < n
            invariant
                0 <= i <= n,
                n == self@.len(),
                self@ == orig,
                orig == old(self)@,
                forall|j: int| 0 <= j < i ==> self@[j].0 != k@,
            decreases n - i,
        {
            if crate::ascii::bytes_eq(self.entries[i].0.as_slice(), k.as_slice()) {
                proof {
                    assert(orig[i as int].0 == k@);
                    lemma_spec_insert_at(orig, k@, v@, i as int);
                }
                let ghost oe = self.entries@;
                let ghost kv = (k@, v@);
                self.entries[i] = (k, v);
                proof {
                    assert(self.entries@ == oe.update(i as int, ((k, v).0, (k, v).1)));
                    assert(self.entries@[i as int].0@ == kv.0 && self.entries@[i as int].1@
                        == kv.1);
                    assert forall|j: int| 0 <= j < orig.len() implies self@[j] == orig.update(
                        i as int,
                        kv,
                    )[j] by {
                        if j != i {
                            assert(self.entries@[j] == oe[j]);
                        }
                    }
                    assert(self@ =~= orig.update(i as int, kv));
                    assert(spec_insert(orig, k@, v@) == orig.update(i as int, kv));
                    assert(orig == old(self)@);
                    assert(self@ == spec_insert(old(self)@, k@, v@));
                }
                return ;
            }
            i += 1;
        }
        proof {
            lemma_spec_insert_append(orig, k@, v@);
        }
        self.entries.push((k, v));
        proof {
            assert(self@ =~= orig + seq![(k@, v@)]);
        }
    }

    /// A copy with the same entries.
    pub fn duplicate(&self) -> (r: HeaderMap)
        ensures
            r@ == self@,
    {
        let n = self.entries.len();
        let mut out: Vec<(Vec<u8>, Vec<u8>)> = Vec::new();
        let mut i: usize = 0;
        while i < n
            invariant
                0 <= i <= n,
                n == self@.len(),
                entries_view(out@) == self@.take(i as int),
            decreases n - i,
        {
            let name = crate::ascii::subrange_to_vec(
                self.entries[i].0.as_slice(),
                0,
                self.entries[i].0.len(),
            );
            let value = crate::ascii::subrange_to_vec(
                self.entries[i].1.as_slice(),
                0,
                self.entries[i].1.len(),
            );
            proof {
                assert(name@ =~= self@[i as int].0);
                assert(value@ =~= self@[i as int].1);
            }
            let ghost before = entries_view(out@);
            out.push((name, value));
            proof {
                assert(entries_view(out@) =~= before + seq![self@[i as int]]);
                assert(before + seq![self@[i as int]] =~= self@.take(i as int + 1));
            }
            i += 1;
        }
        let r = HeaderMap { entries: out };
        proof {
            assert(self@.take(n as int) =~= self@);
        }
        r
    }

    /// Appends an entry at the end, replacing nothing.
    pub fn append_entry(&mut self, k: Vec<u8>, v: Vec<u8>)
        ensures
            final(self)@ == old(self)@ + seq![(k@, v@)],
    {
        let ghost orig = self@;
        self.entries.push((k, v));
        proof {
            assert(self@ =~= orig + seq![(k@, v@)]);
        }
    }

    /// Removes every header whose name equals `k` up to ASCII case.
    pub fn remove_ci(&mut self, k: &[u8])
        ensures
            final(self)@ == spec_remove_ci(old(self)@, k@),
    {
        let ghost orig = self@;
        let n = self.entries.len();
        let mut out: Vec<(Vec<u8>, Vec<u8>)> = Vec::new();
        proof {
            assert(orig.skip(0) =~= orig);
            assert(entries_view(out@) =~= Seq::<(Seq<u8>, Seq<u8>)>::empty());
            assert(entries_view(out@) + spec_remove_ci(orig, k@) =~= spec_remove_ci(orig, k@));
        }
        let mut i: usize = 0;
        while i < n
            invariant
                0 <= i <= n,
                n == self@.len(),
                self@ == orig,
                orig == old(self)@,
                spec_remove_ci(orig, k@) == entries_view(out@) + spec_remove_ci(
                    orig.skip(i as int),
                    k@,
                ),
            decreases n - i,
        {
            proof {
                assert(orig.skip(i as int).first() == orig[i as int]);
                assert(orig.skip(i as int).drop_first() =~= orig.skip(i as int + 1));
            }
            if !crate::ascii::bytes_eq_ci(self.entries[i].0.as_slice(), k) {
                let name = self.entries[i].0.clone();
                let value = self.entries[i].1.clone();
                proof {
                    assert(name@ =~= orig[i as int].0);
                    assert(value@ =~= orig[i as int].1);
                }
                let ghost before = entries_view(out@);
                out.push((name, value));
                proof {
                    assert(entries_view(out@) =~= before + seq![orig[i as int]]);
                    assert(before + seq![orig[i as int]] + spec_remove_ci(
                        orig.skip(i as int + 1),
                        k@,
                    ) =~= before + (seq![orig[i as int]] + spec_remove_ci(
                        orig.skip(i as int + 1),
                        k@,
                    )));
                }
            }
            i += 1;
        }
        proof {
            assert(orig.skip(n as int) =~= Seq::empty());
            assert(entries_view(out@) + spec_remove_ci(orig.skip(n as int), k@) =~= entries_view(
                out@,
            ));
        }
        self.entries = out;
    }
}

proof fn lemma_spec_insert_at(hs: Seq<(Seq<u8>, Seq<u8>)>, k: Seq<u8>, v: Seq<u8>, i: int)
    requires
        0 <= i < hs.len(),
        hs[i].0 == k,
        forall|j: int| 0 <= j < i ==> hs[j].0 != k,
    ensures
        spec_insert(hs, k, v) == hs.update(i, (k, v)),
    decreases i,
{
    if i == 0 {
        assert(hs.first().0 == k);
        assert(spec_insert(hs, k, v) == seq![(k, v)] + hs.drop_first());
        assert(seq![(k, v)] + hs.drop_first() =~= hs.update(0, (k, v)));
    } else {
        assert(hs.first().0 != k);
        assert(hs.drop_first() =~= hs.skip(1));
        lemma_spec_insert_at(hs.skip(1), k, v, i - 1);
        assert(seq![hs.first()] + hs.skip(1).update(i - 1, (k, v)) =~= hs.update(i, (k, v)));
    }
}

pub(crate) proof fn lemma_spec_insert_append(hs: Seq<(Seq<u8>, Seq<u8>)>, k: Seq<u8>, v: Seq<u8>)
    requires
        forall|j: int| 0 <= j < hs.len() ==> hs[j].0 != k,
    ensures
        spec_insert(hs, k, v) == hs + seq![(k, v)],
    decreases hs.len(),
{
    if hs.len() == 0 {
        assert(spec_insert(hs, k, v) =~= hs + seq![(k, v)]);
    } else {
        assert(hs.first().0 != k);
        assert(hs.drop_first() =~= hs.skip(1));
        lemma_spec_insert_append(hs.skip(1), k, v);
        assert(seq![hs.first()] + (hs.skip(1) + seq![(k, v)]) =~= hs + seq![(k, v)]);
    }
}

} // verus!
