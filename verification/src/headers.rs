//! The header fields of a message: a mapping from name to value that keeps
//! the order in which names were first inserted.

use crate::bytes::{eq_ignore_case, equal, equal_ignore_case};
use vstd::prelude::*;

verus! {

/// Header fields as a mathematical value: `(name, value)` pairs in
/// insertion order.
pub type Fields = Seq<(Seq<u8>, Seq<u8>)>;

/// No name occurs twice.
pub open spec fn distinct_names(hs: Fields) -> bool {
    forall|i: int, j: int| 0 <= i < j < hs.len() ==> (#[trigger] hs[i]).0 != (#[trigger] hs[j]).0
}

/// Whether some field is named exactly `name`.
pub open spec fn has_name(hs: Fields, name: Seq<u8>) -> bool {
    exists|i: int| 0 <= i < hs.len() && (#[trigger] hs[i]).0 == name
}

/// The position of a field named exactly `name`.
pub open spec fn index_of(hs: Fields, name: Seq<u8>) -> int {
    choose|i: int| 0 <= i < hs.len() && (#[trigger] hs[i]).0 == name
}

/// The value stored under exactly `name`.
pub open spec fn lookup(hs: Fields, name: Seq<u8>) -> Option<Seq<u8>> {
    if has_name(hs, name) {
        Some(hs[index_of(hs, name)].1)
    } else {
        None
    }
}

/// The fields after storing `value` under `name`: a name already present
/// keeps its position and takes the new value, a new name goes to the end.
pub open spec fn put(hs: Fields, name: Seq<u8>, value: Seq<u8>) -> Fields {
    if has_name(hs, name) {
        hs.update(index_of(hs, name), (name, value))
    } else {
        hs.push((name, value))
    }
}

/// The value of the last field, in insertion order, whose name equals
/// `name` up to the case of ASCII letters.
pub open spec fn lookup_ignore_case(hs: Fields, name: Seq<u8>) -> Option<Seq<u8>>
    decreases hs.len(),
{
    if hs.len() == 0 {
        None
    } else if eq_ignore_case(hs.last().0, name) {
        Some(hs.last().1)
    } else {
        lookup_ignore_case(hs.drop_last(), name)
    }
}

/// Whether some field's name equals `name` up to the case of ASCII letters.
pub open spec fn has_name_ignore_case(hs: Fields, name: Seq<u8>) -> bool {
    exists|i: int| 0 <= i < hs.len() && eq_ignore_case((#[trigger] hs[i]).0, name)
}

/// A lookup that ignores case finds a value exactly when some field's name
/// matches.
pub proof fn lemma_lookup_ignore_case(hs: Fields, name: Seq<u8>)
    ensures
        lookup_ignore_case(hs, name) is Some <==> has_name_ignore_case(hs, name),
    decreases hs.len(),
{
    if hs.len() > 0 {
        let init = hs.drop_last();
        lemma_lookup_ignore_case(init, name);
        if eq_ignore_case(hs.last().0, name) {
            assert(eq_ignore_case(hs[hs.len() - 1].0, name));
        } else {
            if has_name_ignore_case(init, name) {
                let i = choose|i: int|
                    0 <= i < init.len() && eq_ignore_case((#[trigger] init[i]).0, name);
                assert(eq_ignore_case(hs[i].0, name));
            }
            if has_name_ignore_case(hs, name) {
                let i = choose|i: int|
                    0 <= i < hs.len() && eq_ignore_case((#[trigger] hs[i]).0, name);
                assert(eq_ignore_case(init[i].0, name));
            }
        }
    }
}

/// The fields as a plain mapping from name to value.
pub open spec fn as_map(hs: Fields) -> Map<Seq<u8>, Seq<u8>> {
    Map::new(|n: Seq<u8>| has_name(hs, n), |n: Seq<u8>| hs[index_of(hs, n)].1)
}

/// Storing a field keeps the names distinct, and afterwards `name` maps to
/// `value` while every other name maps to what it did before.
pub proof fn lemma_put(hs: Fields, name: Seq<u8>, value: Seq<u8>)
    requires
        distinct_names(hs),
    ensures
        distinct_names(put(hs, name, value)),
        as_map(put(hs, name, value)) == as_map(hs).insert(name, value),
{
    let after = put(hs, name, value);
    if has_name(hs, name) {
        let k = index_of(hs, name);
        assert(after[k].0 == name);
        assert forall|i: int, j: int| 0 <= i < j < after.len() implies (#[trigger] after[i]).0 != (
        #[trigger] after[j]).0 by {
            assert(after[i].0 == hs[i].0 && after[j].0 == hs[j].0);
        }
    } else {
        assert(after[hs.len() as int].0 == name);
        assert forall|i: int, j: int| 0 <= i < j < after.len() implies (#[trigger] after[i]).0 != (
        #[trigger] after[j]).0 by {
            if j < hs.len() {
                assert(after[i] == hs[i] && after[j] == hs[j]);
            } else {
                assert(after[i] == hs[i]);
            }
        }
    }
    assert forall|n: Seq<u8>| has_name(after, n) == (n == name || has_name(hs, n)) by {
        if has_name(after, n) {
            let i = index_of(after, n);
            if n != name {
                assert(hs[i].0 == n);
            }
        }
        if n != name && has_name(hs, n) {
            let i = index_of(hs, n);
            assert(after[i].0 == n);
        }
    }
    assert forall|n: Seq<u8>| has_name(after, n) implies #[trigger] as_map(after)[n] == as_map(
        hs,
    ).insert(name, value)[n] by {
        let i = index_of(after, n);
        if n == name {
            if has_name(hs, name) {
                assert(after[index_of(hs, name)].0 == name);
            } else {
                assert(after[hs.len() as int].0 == name);
            }
        } else {
            let j = index_of(hs, n);
            assert(after[j].0 == n);
            assert(hs[i].0 == n);
        }
    }
    assert(as_map(after) =~= as_map(hs).insert(name, value));
}

/// An ordered set of header fields with distinct names.
#[derive(Debug, PartialEq, Eq)]
pub struct Headers {
    entries: Vec<(Vec<u8>, Vec<u8>)>,
}

impl View for Headers {
    type V = Fields;

    closed spec fn view(&self) -> Fields {
        Seq::new(self.entries@.len(), |i: int| (self.entries@[i].0@, self.entries@[i].1@))
    }
}

impl Headers {
    /// The invariant of the type: no name is stored twice.
    pub open spec fn wf(&self) -> bool {
        distinct_names(self@)
    }

    /// An empty set of fields.
    pub fn new() -> (r: Headers)
        ensures
            r@ == Seq::<(Seq<u8>, Seq<u8>)>::empty(),
            r.wf(),
    {
        let r = Headers { entries: Vec::new() };
        assert(r@ =~= Seq::<(Seq<u8>, Seq<u8>)>::empty());
        r
    }

    /// The number of fields.
    pub fn len(&self) -> (n: usize)
        ensures
            n == self@.len(),
    {
        self.entries.len()
    }

    /// The name of the field at position `i`.
    pub fn name_at(&self, i: usize) -> (r: &Vec<u8>)
        requires
            i < self@.len(),
        ensures
            r@ == self@[i as int].0,
    {
        &self.entries[i].0
    }

    /// The value of the field at position `i`.
    pub fn value_at(&self, i: usize) -> (r: &Vec<u8>)
        requires
            i < self@.len(),
        ensures
            r@ == self@[i as int].1,
    {
        &self.entries[i].1
    }

    /// Stores `value` under `name`. A name already present keeps its place
    /// and takes the new value.
    pub fn insert(&mut self, name: Vec<u8>, value: Vec<u8>)
        requires
            old(self).wf(),
        ensures
            final(self)@ == put(old(self)@, name@, value@),
            final(self).wf(),
    {
        let n = self.entries.len();
        let mut i: usize = 0;
        while i < n
            invariant
                i <= n,
                n == self.entries@.len(),
                *self == *old(self),
                self.wf(),
                forall|j: int| 0 <= j < i ==> (#[trigger] self@[j]).0 != name@,
            decreases n - i,
        {
            if equal(self.entries[i].0.as_slice(), name.as_slice()) {
                proof {
                    assert(self@[i as int].0 == name@);
                    let k = index_of(self@, name@);
                    assert(k == i);
                    lemma_put(self@, name@, value@);
                }
                let ghost before = self@;
                self.entries.set(i, (name, value));
                assert(self@ =~= before.update(i as int, (name@, value@)));
                return ;
            }
            i += 1;
        }
        let ghost before = self@;
        proof {
            lemma_put(self@, name@, value@);
        }
        self.entries.push((name, value));
        assert(self@ =~= before.push((name@, value@)));
    }

    /// The value stored under exactly `name`.
    pub fn get(&self, name: &[u8]) -> (r: Option<&Vec<u8>>)
        requires
            self.wf(),
        ensures
            match r {
                Some(v) => lookup(self@, name@) == Some(v@),
                None => lookup(self@, name@) is None,
            },
    {
        let n = self.entries.len();
        let mut i: usize = 0;
        while i < n
            invariant
                i <= n,
                n == self.entries@.len(),
                self.wf(),
                forall|j: int| 0 <= j < i ==> (#[trigger] self@[j]).0 != name@,
            decreases n - i,
        {
            if equal(self.entries[i].0.as_slice(), name) {
                proof {
                    assert(self@[i as int].0 == name@);
                    let k = index_of(self@, name@);
                    assert(k == i);
                }
                return Some(&self.entries[i].1);
            }
            i += 1;
        }
        None
    }

    /// The value of the last field whose name equals `name` up to the case
    /// of ASCII letters.
    pub fn get_ignore_case(&self, name: &[u8]) -> (r: Option<&Vec<u8>>)
        ensures
            match r {
                Some(v) => lookup_ignore_case(self@, name@) == Some(v@),
                None => lookup_ignore_case(self@, name@) is None,
            },
    {
        let mut i: usize = self.entries.len();
        proof {
            assert(self@.take(i as int) =~= self@);
        }
        while i > 0
            invariant
                i <= self.entries@.len(),
                lookup_ignore_case(self@, name@) == lookup_ignore_case(self@.take(i as int), name@),
            decreases i,
        {
            i -= 1;
            proof {
                let s = self@.take(i + 1);
                assert(s.last() == self@[i as int]);
                assert(s.drop_last() =~= self@.take(i as int));
            }
            if equal_ignore_case(self.entries[i].0.as_slice(), name) {
                return Some(&self.entries[i].1);
            }
        }
        None
    }
}

impl Clone for Headers {
    fn clone(&self) -> (r: Headers)
        ensures
            r@ == self@,
    {
        let mut entries: Vec<(Vec<u8>, Vec<u8>)> = Vec::new();
        let n = self.entries.len();
        let mut i: usize = 0;
        while i < n
            invariant
                i <= n,
                n == self.entries@.len(),
                entries@.len() == i,
                forall|j: int|
                    0 <= j < i ==> (#[trigger] entries@[j]).0@ == self.entries@[j].0@
                        && entries@[j].1@ == self.entries@[j].1@,
            decreases n - i,
        {
            let name = self.entries[i].0.clone();
            let value = self.entries[i].1.clone();
            entries.push((name, value));
            i += 1;
        }
        let r = Headers { entries };
        assert(r@ =~= self@);
        r
    }
}

} // verus!
