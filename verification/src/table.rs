//! The run table: the run ends in a gap buffer and the run values beside them,
//! kept at the same positions.

use crate::storage::{
    gap_as_slices, gap_clear, gap_clone, gap_get, gap_insert, gap_is_empty, gap_items, gap_len,
    gap_new, gap_pop_back, gap_push_back, gap_remove, gap_set, gap_shrink_to_fit,
    gap_splice_one, gap_with_capacity, EndBuffer,
};
use vstd::prelude::*;
use vstd::std_specs::cmp::PartialEqSpec;

verus! {

/// The values of two tables compare equal, run by run.
pub open spec fn values_eq<T: PartialEq>(a: Seq<T>, b: Seq<T>) -> bool {
    &&& a.len() == b.len()
    &&& forall|p: int| 0 <= p < a.len() ==> #[trigger] a[p].eq_spec(&b[p])
}

/// `Vec::shrink_to_fit`, which vstd does not describe: the elements stay as they
/// are. Nothing is proved of it.
#[verifier::external_body]
fn vec_shrink_to_fit<T>(values: &mut Vec<T>)
    ensures
        final(values)@ == old(values)@,
{
    values.shrink_to_fit()
}

/// An ordered record of runs. Run `p` has the inclusive end `ends()[p]` and the
/// value `values()[p]`.
#[derive(Debug, Hash)]
pub struct RunTable<T> {
    ends: EndBuffer,
    values: Vec<T>,
}

impl<T> RunTable<T> {
    /// The run ends, in order.
    pub closed spec fn ends(&self) -> Seq<u32> {
        gap_items(self.ends)
    }

    /// The run values, in order.
    pub closed spec fn values(&self) -> Seq<T> {
        self.values@
    }

    /// Each run has an end and a value.
    pub open spec fn aligned(&self) -> bool {
        self.ends().len() == self.values().len()
    }

    pub(crate) fn new() -> (table: Self)
        ensures
            table.ends() == Seq::<u32>::empty(),
            table.values() == Seq::<T>::empty(),
    {
        RunTable { ends: gap_new(), values: Vec::new() }
    }

    /// A table without runs, with storage reserved for `capacity` of them. How
    /// much storage is held is no part of the model.
    pub(crate) fn with_capacity(capacity: usize) -> (table: Self)
        requires
            capacity * 4 <= isize::MAX,
        ensures
            table.ends() == Seq::<u32>::empty(),
            table.values() == Seq::<T>::empty(),
    {
        RunTable { ends: gap_with_capacity(capacity), values: Vec::with_capacity(capacity) }
    }

    pub(crate) fn len(&self) -> (n: usize)
        ensures
            n == self.ends().len(),
    {
        gap_len(&self.ends)
    }

    pub(crate) fn values_len(&self) -> (n: usize)
        ensures
            n == self.values().len(),
    {
        self.values.len()
    }

    pub(crate) fn is_empty(&self) -> (b: bool)
        ensures
            b == (self.ends().len() == 0),
    {
        gap_is_empty(&self.ends)
    }

    pub(crate) fn end(&self, p: usize) -> (end: u32)
        requires
            p < self.ends().len(),
        ensures
            end == self.ends()[p as int],
    {
        gap_get(&self.ends, p)
    }

    pub(crate) fn value(&self, p: usize) -> (value: &T)
        requires
            p < self.values().len(),
        ensures
            *value == self.values()[p as int],
    {
        &self.values[p]
    }

    /// The two stretches of run ends that the buffer stores apart.
    pub(crate) fn end_slices(&self) -> (parts: (&[u32], &[u32]))
        ensures
            parts.0@ + parts.1@ == self.ends(),
    {
        gap_as_slices(&self.ends)
    }

    pub(crate) fn set_end(&mut self, p: usize, end: u32)
        requires
            p < old(self).ends().len(),
        ensures
            final(self).ends() == old(self).ends().update(p as int, end),
            final(self).values() == old(self).values(),
    {
        gap_set(&mut self.ends, p, end);
    }

    pub(crate) fn set_value(&mut self, p: usize, value: T)
        requires
            p < old(self).values().len(),
        ensures
            final(self).ends() == old(self).ends(),
            final(self).values() == old(self).values().update(p as int, value),
    {
        self.values.set(p, value);
    }

    pub(crate) fn push(&mut self, end: u32, value: T)
        requires
            old(self).ends().len() < usize::MAX,
        ensures
            final(self).ends() == old(self).ends().push(end),
            final(self).values() == old(self).values().push(value),
    {
        gap_push_back(&mut self.ends, end);
        self.values.push(value);
    }

    /// Takes the last run out, if there is one.
    pub(crate) fn pop(&mut self) -> (last: Option<(u32, T)>)
        requires
            old(self).aligned(),
        ensures
            old(self).ends().len() == 0 ==> ({
                &&& last.is_none()
                &&& final(self).ends() == old(self).ends()
                &&& final(self).values() == old(self).values()
            }),
            old(self).ends().len() > 0 ==> ({
                &&& last == Some((old(self).ends().last(), old(self).values().last()))
                &&& final(self).ends() == old(self).ends().drop_last()
                &&& final(self).values() == old(self).values().drop_last()
            }),
    {
        match gap_pop_back(&mut self.ends) {
            Some(end) => {
                let value = self.values.pop();
                Some((end, value.unwrap()))
            },
            None => None,
        }
    }

    pub(crate) fn insert(&mut self, p: usize, end: u32, value: T)
        requires
            old(self).aligned(),
            p <= old(self).ends().len(),
            old(self).ends().len() < usize::MAX,
        ensures
            final(self).ends() == old(self).ends().insert(p as int, end),
            final(self).values() == old(self).values().insert(p as int, value),
    {
        gap_insert(&mut self.ends, p, end);
        self.values.insert(p, value);
    }

    pub(crate) fn remove(&mut self, p: usize) -> (value: T)
        requires
            old(self).aligned(),
            p < old(self).ends().len(),
        ensures
            value == old(self).values()[p as int],
            final(self).ends() == old(self).ends().remove(p as int),
            final(self).values() == old(self).values().remove(p as int),
    {
        let _ = gap_remove(&mut self.ends, p);
        self.values.remove(p)
    }

    /// Puts one run in the place of the runs `from..to`.
    pub(crate) fn replace(&mut self, from: usize, to: usize, end: u32, value: T)
        requires
            old(self).aligned(),
            from <= to <= old(self).ends().len(),
            from == to ==> old(self).ends().len() < usize::MAX,
        ensures
            final(self).ends() == old(self).ends().subrange(0, from as int).push(end)
                + old(self).ends().subrange(to as int, old(self).ends().len() as int),
            final(self).values() == old(self).values().subrange(0, from as int).push(value)
                + old(self).values().subrange(to as int, old(self).values().len() as int),
    {
        gap_splice_one(&mut self.ends, from, to, end);
        let mut tail = self.values.split_off(to);
        self.values.truncate(from);
        self.values.push(value);
        self.values.append(&mut tail);
    }

    pub(crate) fn clear(&mut self)
        ensures
            final(self).ends() == Seq::<u32>::empty(),
            final(self).values() == Seq::<T>::empty(),
    {
        gap_clear(&mut self.ends);
        self.values.clear();
    }

    /// Gives back the storage that holds no run. The runs stay as they are.
    pub(crate) fn shrink_to_fit(&mut self)
        ensures
            final(self).ends() == old(self).ends(),
            final(self).values() == old(self).values(),
    {
        gap_shrink_to_fit(&mut self.ends);
        vec_shrink_to_fit(&mut self.values);
    }
}

impl<T: PartialEq> RunTable<T> {
    /// Whether two tables hold the same runs: the same ends, and values that
    /// compare equal, run by run.
    pub(crate) fn same_runs(&self, other: &Self) -> (same: bool)
        ensures
            T::obeys_eq_spec() ==> same == (self.ends() == other.ends() && values_eq(
                self.values(),
                other.values(),
            )),
    {
        let count = gap_len(&self.ends);
        if count != gap_len(&other.ends) || self.values.len() != other.values.len() {
            return false;
        }
        let mut p: usize = 0;
        while p < count
            invariant
                count == self.ends().len() == other.ends().len(),
                p <= count,
                self.ends().subrange(0, p as int) == other.ends().subrange(0, p as int),
            decreases count - p,
        {
            if gap_get(&self.ends, p) != gap_get(&other.ends, p) {
                assert(self.ends()[p as int] != other.ends()[p as int]);
                return false;
            }
            p += 1;
            assert(self.ends().subrange(0, p as int) =~= self.ends().subrange(0, p - 1).push(
                self.ends()[p - 1],
            ));
            assert(other.ends().subrange(0, p as int) =~= other.ends().subrange(0, p - 1).push(
                other.ends()[p - 1],
            ));
        }
        assert(self.ends() =~= self.ends().subrange(0, count as int));
        assert(other.ends() =~= other.ends().subrange(0, count as int));
        let count = self.values.len();
        let mut p: usize = 0;
        while p < count
            invariant
                self.ends() == other.ends(),
                count == self.values().len() == other.values().len(),
                p <= count,
                T::obeys_eq_spec() ==> forall|q: int|
                    0 <= q < p ==> #[trigger] self.values()[q].eq_spec(&other.values()[q]),
            decreases count - p,
        {
            if self.values[p] != other.values[p] {
                return false;
            }
            p += 1;
        }
        true
    }
}

impl<T: Clone> Clone for RunTable<T> {
    fn clone(&self) -> (copy: Self)
        ensures
            copy.ends() == self.ends(),
            copy.values().len() == self.values().len(),
            forall|p: int|
                0 <= p < self.values().len() ==> cloned::<T>(
                    #[trigger] self.values()[p],
                    copy.values()[p],
                ),
    {
        RunTable { ends: gap_clone(&self.ends), values: self.values.clone() }
    }
}

} // verus!
