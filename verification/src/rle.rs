//! The container: a run table under its invariant, read and changed through
//! flat indices.

use crate::edits::{
    lemma_insert_before, lemma_insert_inside, lemma_insert_joins, lemma_insert_widens,
    lemma_push_adds, lemma_push_joins, lemma_remove_drops, lemma_remove_merges,
    lemma_remove_shrinks, lemma_set_first_joins, lemma_set_first_splits, lemma_set_joins_both,
    lemma_set_joins_next, lemma_set_joins_previous, lemma_set_last_joins, lemma_set_last_splits,
    lemma_set_replaces, lemma_set_same, lemma_set_splits_inside, lemma_span_fills,
    lemma_span_inside, lemma_span_well_formed, lemma_span_widened, shift_ends, span_ends,
    span_ready, span_values, widen_left, widen_right,
};
use crate::model::{
    clone_is_exact, covers, eq_is_exact, expand, fill, increasing, lemma_end_bounds_position,
    lemma_expand_empty, lemma_run_of, lemma_runs_bounded, lemma_runs_bounded_by_run, max_len,
    repeat, run_len, run_of, run_start, runs_added, total_len, well_formed,
};
use crate::table::{values_eq, RunTable};
use vstd::prelude::*;
use vstd::std_specs::cmp::PartialEqSpec;
use vstd::std_specs::iter::IteratorSpec;

verus! {

/// A vector that stores each stretch of equal neighbours once, as a run.
#[derive(Debug, Hash)]
pub struct RleVec<T> {
    runs: RunTable<T>,
}

/// One run of a container: where it starts, how many elements it holds, and
/// their value.
#[derive(Debug, Eq, PartialEq, Ord, PartialOrd, Hash)]
pub struct Run<T> {
    /// The index of the first value in this run.
    pub start: u32,
    /// The length of this run.
    pub len: u32,
    /// The value of this run.
    pub value: T,
}

impl<T: Clone> Clone for Run<T> {
    /// The same start and length, and a clone of the value.
    fn clone(&self) -> (copy: Self)
        ensures
            copy.start == self.start,
            copy.len == self.len,
            cloned(self.value, copy.value),
    {
        Run { start: self.start, len: self.len, value: self.value.clone() }
    }
}

impl<T> View for RleVec<T> {
    type V = Seq<T>;

    /// The flat sequence of elements.
    open spec fn view(&self) -> Seq<T> {
        expand(self.run_ends(), self.run_values())
    }
}

/// The flat sequence that a sequence of runs stands for: each run's value, as
/// often as its length says. The starts are not read.
pub open spec fn runs_flat<T>(runs: Seq<Run<T>>) -> Seq<T>
    decreases runs.len(),
{
    if runs.len() == 0 {
        Seq::empty()
    } else {
        runs_flat(runs.drop_last()) + repeat(runs.last().value, runs.last().len as int)
    }
}

/// Runs laid end to end stand for their flat sequences laid end to end.
pub proof fn lemma_runs_flat_concat<T>(a: Seq<Run<T>>, b: Seq<Run<T>>)
    ensures
        runs_flat(a + b) == runs_flat(a) + runs_flat(b),
    decreases b.len(),
{
    if b.len() == 0 {
        assert(a + b =~= a);
        assert(runs_flat(a) + runs_flat(b) =~= runs_flat(a));
    } else {
        lemma_runs_flat_concat(a, b.drop_last());
        assert((a + b).drop_last() =~= a + b.drop_last());
        assert((a + b).last() == b.last());
        assert(runs_flat(a + b) =~= runs_flat(a) + runs_flat(b));
    }
}

/// The position of the first element of an increasing slice that is at least
/// `index`.
fn first_at_least(ends: &[u32], index: u32) -> (pos: usize)
    requires
        increasing(ends@),
        ends@.len() > 0,
        index <= ends@.last(),
    ensures
        pos < ends@.len(),
        index <= ends@[pos as int],
        pos > 0 ==> ends@[pos - 1] < index,
{
    let mut lo: usize = 0;
    let mut hi: usize = ends.len() - 1;
    while lo < hi
        invariant
            increasing(ends@),
            lo <= hi < ends@.len(),
            index <= ends@[hi as int],
            lo > 0 ==> ends@[lo - 1] < index,
        decreases hi - lo,
    {
        let mid = lo + (hi - lo) / 2;
        if ends[mid] >= index {
            hi = mid;
        } else {
            lo = mid + 1;
        }
    }
    lo
}

impl<T> RleVec<T> {
    /// The inclusive end index of each run, in order.
    pub closed spec fn run_ends(&self) -> Seq<u32> {
        self.runs.ends()
    }

    /// The value of each run, in order.
    pub closed spec fn run_values(&self) -> Seq<T> {
        self.runs.values()
    }

    /// The invariant: every run has an end and a value, the ends grow strictly,
    /// no run has the value of the run before it, and the length fits.
    pub open spec fn wf(&self) -> bool {
        well_formed(self.run_ends(), self.run_values())
    }

    /// Run `p` as it is handed out.
    pub open spec fn spec_run(&self, p: int) -> Run<T> {
        Run {
            start: run_start(self.run_ends(), p) as u32,
            len: run_len(self.run_ends(), p) as u32,
            value: self.run_values()[p],
        }
    }

    /// Constructs a new empty container.
    pub fn new() -> (rle: RleVec<T>)
        ensures
            rle.wf(),
            rle@ == Seq::<T>::empty(),
            rle.run_ends().len() == 0,
    {
        let rle = RleVec { runs: RunTable::new() };
        proof {
            lemma_expand_empty(rle.run_ends(), rle.run_values());
        }
        rle
    }

    /// Constructs a new empty container with room for `capacity` runs.
    pub fn with_capacity(capacity: usize) -> (rle: RleVec<T>)
        requires
            capacity * 4 <= isize::MAX,
        ensures
            rle.wf(),
            rle@ == Seq::<T>::empty(),
            rle.run_ends().len() == 0,
    {
        let rle = RleVec { runs: RunTable::with_capacity(capacity) };
        proof {
            lemma_expand_empty(rle.run_ends(), rle.run_values());
        }
        rle
    }

    /// Returns the number of elements.
    pub fn len(&self) -> (n: usize)
        requires
            self.wf(),
        ensures
            n == self@.len(),
    {
        let count = self.runs.len();
        if count == 0 {
            0
        } else {
            self.runs.end(count - 1) as usize + 1
        }
    }

    /// Returns `true` if the container holds no elements.
    pub fn is_empty(&self) -> (b: bool)
        ensures
            b == (self@.len() == 0),
            b == (self.run_ends().len() == 0),
    {
        self.runs.is_empty()
    }

    /// Removes all elements. The reserved storage is kept.
    pub fn clear(&mut self)
        ensures
            final(self).wf(),
            final(self)@ == Seq::<T>::empty(),
            final(self).run_ends().len() == 0,
    {
        self.runs.clear();
        proof {
            lemma_expand_empty(self.run_ends(), self.run_values());
        }
    }

    /// Returns the last value, or `None` if the container is empty.
    pub fn last(&self) -> (value: Option<&T>)
        requires
            self.wf(),
        ensures
            self@.len() == 0 ==> value.is_none(),
            self@.len() > 0 ==> value == Some(&self@.last()),
    {
        let count = self.runs.len();
        if count == 0 {
            None
        } else {
            proof {
                self.lemma_view_at(count - 1, self@.len() - 1);
            }
            Some(self.runs.value(count - 1))
        }
    }

    /// Returns the last run, or `None` if the container is empty.
    pub fn last_run(&self) -> (run: Option<Run<&T>>)
        requires
            self.wf(),
            self.run_ends().len() > 0 ==> run_len(self.run_ends(), self.run_ends().len() - 1)
                <= u32::MAX,
        ensures
            self@.len() == 0 ==> run.is_none(),
            self@.len() > 0 ==> run.is_some() && ({
                let last = self.spec_run(self.run_ends().len() - 1);
                let run = run.unwrap();
                run.start == last.start && run.len == last.len && *run.value == last.value
            }),
    {
        let count = self.runs.len();
        if count == 0 {
            None
        } else {
            let start: u32 = if count >= 2 {
                self.runs.end(count - 2) + 1
            } else {
                0
            };
            let end = self.runs.end(count - 1);
            Some(Run { start, len: end - start + 1, value: self.runs.value(count - 1) })
        }
    }

    /// Returns the number of runs.
    pub fn runs_len(&self) -> (n: usize)
        ensures
            n == self.run_ends().len(),
    {
        self.runs.len()
    }

    /// Returns the start index of each run, in order.
    pub fn starts(&self) -> (starts: Vec<u32>)
        requires
            self.wf(),
        ensures
            starts@.len() == self.run_ends().len(),
            forall|p: int|
                0 <= p < starts@.len() ==> #[trigger] starts@[p] == run_start(self.run_ends(), p),
    {
        let count = self.runs.len();
        let mut starts: Vec<u32> = Vec::new();
        let mut p: usize = 0;
        while p < count
            invariant
                self.wf(),
                count == self.run_ends().len(),
                p <= count,
                starts@.len() == p,
                forall|q: int|
                    0 <= q < p ==> #[trigger] starts@[q] == run_start(self.run_ends(), q),
            decreases count - p,
        {
            if p == 0 {
                starts.push(0);
            } else {
                starts.push(self.runs.end(p - 1) + 1);
            }
            p += 1;
        }
        starts
    }

    /// Returns the inclusive end index of each run, in order.
    pub fn ends(&self) -> (ends: Vec<u32>)
        ensures
            ends@ == self.run_ends(),
    {
        let count = self.runs.len();
        let mut ends: Vec<u32> = Vec::new();
        let mut p: usize = 0;
        while p < count
            invariant
                count == self.run_ends().len(),
                p <= count,
                ends@ == self.run_ends().subrange(0, p as int),
            decreases count - p,
        {
            ends.push(self.runs.end(p));
            p += 1;
            assert(ends@ =~= self.run_ends().subrange(0, p as int));
        }
        assert(ends@ =~= self.run_ends());
        ends
    }

    /// Releases reserved storage that holds no run. The runs and the elements
    /// stay as they are; how much storage is held is no part of the model.
    pub fn shrink_to_fit(&mut self)
        ensures
            final(self).run_ends() == old(self).run_ends(),
            final(self).run_values() == old(self).run_values(),
            final(self)@ == old(self)@,
    {
        self.runs.shrink_to_fit();
    }

    /// Returns the position of the run that holds the element at `index`.
    ///
    /// The run ends lie in two stretches; only the stretch that holds the target
    /// is searched.
    pub fn run_index(&self, index: u32) -> (p: u32)
        requires
            self.wf(),
            index < self@.len(),
        ensures
            covers(self.run_ends(), p as int, index as int),
            p == run_of(self.run_ends(), index as int),
    {
        let (lesser, greater) = self.runs.end_slices();
        let ghost ends = self.run_ends();
        let in_lesser = lesser.len() > 0 && index <= lesser[lesser.len() - 1];
        let offset: usize = if in_lesser {
            0
        } else {
            lesser.len()
        };
        let target: &[u32] = if in_lesser {
            lesser
        } else {
            greater
        };
        proof {
            assert(ends =~= lesser@ + greater@);
            assert forall|i: int, j: int| 0 <= i < j < target@.len() implies target@[i]
                < target@[j] by {
                assert(target@[i] == ends[offset + i]);
                assert(target@[j] == ends[offset + j]);
            }
            if !in_lesser {
                assert(greater@.len() > 0) by {
                    if greater@.len() == 0 {
                        assert(ends.last() == lesser@.last());
                    }
                }
                assert(ends.last() == greater@.last());
            }
        }
        let pos = first_at_least(target, index);
        proof {
            assert(ends[offset + pos] == target@[pos as int]);
            if pos > 0 {
                assert(ends[offset + pos - 1] == target@[pos - 1]);
            } else if offset > 0 {
                assert(ends[offset - 1] == lesser@.last());
            }
            assert(covers(ends, offset + pos, index as int));
            lemma_run_of(ends, (offset + pos) as int, index as int);
            lemma_end_bounds_position(ends, (offset + pos) as int);
        }
        (pos + offset) as u32
    }

    /// The run that holds `index`, with its first and last index.
    fn index_info(&self, index: u32) -> (info: (usize, u32, u32))
        requires
            self.wf(),
            index < self@.len(),
        ensures
            covers(self.run_ends(), info.0 as int, index as int),
            info.1 == run_start(self.run_ends(), info.0 as int),
            info.2 == self.run_ends()[info.0 as int],
    {
        let p = self.run_index(index) as usize;
        if p == 0 {
            (0, 0, self.runs.end(0))
        } else {
            (p, self.runs.end(p - 1) + 1, self.runs.end(p))
        }
    }

    /// The inclusive end index of run `p`.
    pub(crate) fn run_end(&self, p: usize) -> (end: u32)
        requires
            p < self.run_ends().len(),
        ensures
            end == self.run_ends()[p as int],
    {
        self.runs.end(p)
    }

    /// The number of run values held.
    pub(crate) fn values_len(&self) -> (n: usize)
        ensures
            n == self.run_values().len(),
    {
        self.runs.values_len()
    }

    /// The value of run `p`.
    pub(crate) fn run_value(&self, p: usize) -> (value: &T)
        requires
            p < self.run_values().len(),
        ensures
            *value == self.run_values()[p as int],
    {
        self.runs.value(p)
    }

    /// The value of a run is the element at every index the run holds.
    pub proof fn lemma_view_at(&self, p: int, i: int)
        requires
            self.wf(),
            covers(self.run_ends(), p, i),
        ensures
            0 <= i < self@.len(),
            self@[i] == self.run_values()[p],
    {
        lemma_run_of(self.run_ends(), p, i);
        assert(self.run_ends()[p] <= self.run_ends().last());
    }
}

impl<T: Eq> RleVec<T> {
    /// Appends an element to the back.
    pub fn push(&mut self, value: T)
        requires
            old(self).wf(),
            eq_is_exact::<T>(),
            old(self)@.len() + 1 <= max_len(),
        ensures
            final(self).wf(),
            final(self)@ == old(self)@.push(value),
    {
        self.push_n(1, value);
        assert(self@ =~= old(self)@.push(value));
    }

    /// Appends the same element `n` times to the back. The last run grows when it
    /// has this value; otherwise a new run is added.
    pub fn push_n(&mut self, n: u32, value: T)
        requires
            old(self).wf(),
            eq_is_exact::<T>(),
            old(self)@.len() + n <= max_len(),
        ensures
            final(self).wf(),
            final(self)@ == old(self)@ + repeat(value, n as int),
            final(self).run_ends().len() == old(self).run_ends().len() + runs_added(
                old(self)@,
                n as int,
                value,
            ),
    {
        let ghost e0 = self.run_ends();
        let ghost v0 = self.run_values();
        if n == 0 {
            assert(self@ =~= self@ + repeat(value, 0));
            return ;
        }
        let count = self.runs.len();
        proof {
            lemma_runs_bounded(e0);
        }
        if count > 0 {
            proof {
                self.lemma_view_at(count - 1, self@.len() - 1);
            }
            let last_end = self.runs.end(count - 1);
            if *self.runs.value(count - 1) == value {
                proof {
                    lemma_push_joins(e0, v0, n as int, value);
                }
                self.runs.set_end(count - 1, last_end + n);
            } else {
                proof {
                    lemma_push_adds(e0, v0, n as int, value);
                }
                self.runs.push(last_end + n, value);
            }
        } else {
            proof {
                lemma_push_adds(e0, v0, n as int, value);
            }
            self.runs.push(n - 1, value);
        }
    }

    /// Appends every value that `iter` yields.
    ///
    /// The run that is being built is held apart from the table and put into it
    /// only when a different value arrives: the table is touched once for each
    /// run, not once for each value.
    pub fn extend<I: Iterator<Item = T>>(&mut self, iter: I)
        requires
            old(self).wf(),
            eq_is_exact::<T>(),
            iter.obeys_prophetic_iter_laws(),
            old(self)@.len() + iter.remaining().len() <= max_len(),
        ensures
            final(self).wf(),
            final(self)@ == old(self)@ + iter.remaining(),
    {
        let ghost s0 = self@;
        let ghost all = iter.remaining();
        let mut iter = iter;
        let first = match iter.next() {
            Some(value) => value,
            None => {
                assert(s0 =~= s0 + all);
                return ;
            },
        };
        let ghost e0 = self.run_ends();
        let ghost v0 = self.run_values();
        let count = self.runs.len();
        proof {
            lemma_runs_bounded(e0);
            if count > 0 {
                self.lemma_view_at(count - 1, s0.len() - 1);
            }
        }
        let mut pending_end: u32 = if count > 0 {
            self.runs.end(count - 1) + 1
        } else {
            0
        };
        let joins = count > 0 && *self.runs.value(count - 1) == first;
        let mut pending: T = if joins {
            proof {
                lemma_push_joins(e0, v0, 1, first);
            }
            match self.runs.pop() {
                Some(last) => last.1,
                None => first,
            }
        } else {
            proof {
                lemma_push_adds(e0, v0, 1, first);
            }
            first
        };
        let ghost done: Seq<T> = seq![first];
        proof {
            assert(repeat(first, 1) =~= done);
            assert(self.run_ends().push(pending_end) =~= (if joins {
                e0.update(e0.len() - 1, (e0.last() + 1) as u32)
            } else {
                e0.push((total_len(e0) + 1 - 1) as u32)
            }));
            assert(self.run_values().push(pending) =~= (if joins {
                v0
            } else {
                v0.push(first)
            }));
        }
        loop
            invariant_except_break
                well_formed(self.run_ends().push(pending_end), self.run_values().push(pending)),
                expand(self.run_ends().push(pending_end), self.run_values().push(pending)) == s0
                    + done,
            invariant
                eq_is_exact::<T>(),
                iter.obeys_prophetic_iter_laws(),
                all == done + iter.remaining(),
                s0.len() + all.len() <= max_len(),
            ensures
                final(self).wf(),
                final(self)@ == s0 + all,
            decreases u32::MAX - pending_end,
        {
            let ghost e = self.run_ends().push(pending_end);
            let ghost v = self.run_values().push(pending);
            proof {
                lemma_runs_bounded(e);
            }
            match iter.next() {
                Some(value) => {
                    proof {
                        assert(repeat(value, 1) =~= seq![value]);
                        assert(done.push(value) + iter.remaining() =~= all);
                        assert((s0 + done) + seq![value] =~= s0 + done.push(value));
                        done = done.push(value);
                    }
                    if value != pending {
                        proof {
                            lemma_push_adds(e, v, 1, value);
                        }
                        self.runs.push(pending_end, pending);
                        pending = value;
                    } else {
                        proof {
                            lemma_push_joins(e, v, 1, value);
                            assert(self.run_ends().push((pending_end + 1) as u32) =~= e.update(
                                e.len() - 1,
                                (e.last() + 1) as u32,
                            ));
                        }
                    }
                    pending_end = pending_end + 1;
                },
                None => {
                    self.runs.push(pending_end, pending);
                    proof {
                        assert(done =~= all);
                    }
                    break ;
                },
            }
        }
    }
}

impl<T: Eq + Clone> RleVec<T> {
    /// Returns the value at `index`, along with the position of its run. The
    /// hinted run is used when it holds `index`; otherwise the run is looked up.
    pub fn get_hint(&self, index: u32, run_index_hint: usize) -> (found: (&T, usize))
        requires
            self.wf(),
            index < self@.len(),
        ensures
            *found.0 == self@[index as int],
            covers(self.run_ends(), found.1 as int, index as int),
    {
        if run_index_hint < self.runs.len() {
            let hinted_start: u32 = if run_index_hint > 0 {
                self.runs.end(run_index_hint - 1) + 1
            } else {
                0
            };
            if hinted_start <= index && self.runs.end(run_index_hint) >= index {
                proof {
                    self.lemma_view_at(run_index_hint as int, index as int);
                }
                return (self.runs.value(run_index_hint), run_index_hint);
            }
        }
        let p = self.run_index(index) as usize;
        proof {
            self.lemma_view_at(p as int, index as int);
        }
        (self.runs.value(p), p)
    }

    /// Replaces the value at `index`.
    ///
    /// A run of one element takes the new value, or leaves the table when a
    /// neighbour has that value; a longer run is shortened or split.
    pub fn set(&mut self, index: usize, value: T)
        requires
            old(self).wf(),
            eq_is_exact::<T>(),
            clone_is_exact::<T>(),
            index < old(self)@.len(),
        ensures
            final(self).wf(),
            final(self)@ == old(self)@.update(index as int, value),
            final(self)@[index as int] == value,
            old(self).run_ends().len() - 2 <= final(self).run_ends().len(),
            final(self).run_ends().len() <= old(self).run_ends().len() + 2,
    {
        let index = index as u32;
        let (p, start, end) = self.index_info(index);
        self.set_internal(index, value, p, start, end);
    }

    /// Replaces the value at `index` as [`RleVec::set`] does, and returns the
    /// position of the run that held `index` before the call.
    pub fn set_hint(&mut self, index: usize, value: T, run_index_hint: usize) -> (used: usize)
        requires
            old(self).wf(),
            eq_is_exact::<T>(),
            clone_is_exact::<T>(),
            index < old(self)@.len(),
        ensures
            final(self).wf(),
            final(self)@ == old(self)@.update(index as int, value),
            final(self)@[index as int] == value,
            old(self).run_ends().len() - 2 <= final(self).run_ends().len(),
            final(self).run_ends().len() <= old(self).run_ends().len() + 2,
            covers(old(self).run_ends(), used as int, index as int),
    {
        let index = index as u32;
        if run_index_hint < self.runs.len() {
            let hinted_start: u32 = if run_index_hint > 0 {
                self.runs.end(run_index_hint - 1) + 1
            } else {
                0
            };
            let hinted_end = self.runs.end(run_index_hint);
            if hinted_start <= index && hinted_end >= index {
                self.set_internal(index, value, run_index_hint, hinted_start, hinted_end);
                return run_index_hint;
            }
        }
        let (p, start, end) = self.index_info(index);
        self.set_internal(index, value, p, start, end);
        p
    }

    /// Replaces the `len` values from `start` on by `value`.
    ///
    /// The range is first widened over the neighbours that hold the value
    /// already, then one run takes the place of the runs inside it.
    pub fn set_range(&mut self, start: u32, len: u32, value: T)
        requires
            old(self).wf(),
            eq_is_exact::<T>(),
            clone_is_exact::<T>(),
            len > 0 ==> start + len <= old(self)@.len(),
        ensures
            final(self).wf(),
            final(self)@ == fill(old(self)@, start as int, len as int, value),
    {
        let ghost e0 = self.run_ends();
        let ghost v0 = self.run_values();
        let ghost s0 = self@;
        let ghost target = fill(s0, start as int, len as int, value);
        if len == 0 {
            assert(s0 =~= target);
            return ;
        }
        if len == 1 {
            self.set(start as usize, value);
            assert(self@ =~= target);
            return ;
        }
        let first = start;
        let last = start + (len - 1);
        let (left, left_start, left_end) = self.index_info(first);
        let (right, right_end) = if last <= left_end {
            (left, left_end)
        } else {
            let (right, _, right_end) = self.index_info(last);
            (right, right_end)
        };
        proof {
            lemma_span_widened(e0, v0, left as int, right as int, first as int, last as int, value);
        }
        let (start, a) = self.widen_start(left, left_start, first, &value);
        let (end, b) = self.widen_end(right, right_end, last, &value);
        self.set_range_internal(start, a, end, b, value);
    }

    /// Moves the start of a range write back over what holds the value already:
    /// the part of the run of `first` before it, and then the run before that.
    fn widen_start(&self, left: usize, left_start: u32, first: u32, value: &T) -> (widened: (
        u32,
        usize,
    ))
        requires
            self.wf(),
            eq_is_exact::<T>(),
            covers(self.run_ends(), left as int, first as int),
            left_start == run_start(self.run_ends(), left as int),
        ensures
            (widened.0 as int, widened.1 as int) == widen_left(
                self.run_ends(),
                self.run_values(),
                left as int,
                first as int,
                *value,
            ),
    {
        let start = if *self.runs.value(left) == *value {
            left_start
        } else {
            first
        };
        if start == left_start && left > 0 && *self.runs.value(left - 1) == *value {
            let before = if left == 1 {
                0
            } else {
                proof {
                    assert(self.run_ends()[left - 2] < self.run_ends()[left - 1]);
                }
                self.runs.end(left - 2) + 1
            };
            (before, left - 1)
        } else {
            (start, left)
        }
    }

    /// Moves the end of a range write on over what holds the value already: the
    /// part of the run of `last` behind it, and then the run behind that.
    fn widen_end(&self, right: usize, right_end: u32, last: u32, value: &T) -> (widened: (
        u32,
        usize,
    ))
        requires
            self.wf(),
            eq_is_exact::<T>(),
            covers(self.run_ends(), right as int, last as int),
            right_end == self.run_ends()[right as int],
        ensures
            (widened.0 as int, widened.1 as int) == widen_right(
                self.run_ends(),
                self.run_values(),
                right as int,
                last as int,
                *value,
            ),
    {
        let count = self.runs.len();
        let end = if last < right_end && *self.runs.value(right) == *value {
            right_end
        } else {
            last
        };
        if right_end <= end && right + 1 < count && *self.runs.value(right + 1) == *value {
            (self.runs.end(right + 1), right + 1)
        } else {
            (end, right)
        }
    }

    /// Sets the range `start..=end` to `value`, where `start_run` and `end_run`
    /// are the runs that hold its two ends and no run beside the range has the
    /// value.
    fn set_range_internal(
        &mut self,
        start: u32,
        start_run: usize,
        end: u32,
        end_run: usize,
        value: T,
    )
        requires
            clone_is_exact::<T>(),
            span_ready(
                old(self).run_ends(),
                old(self).run_values(),
                start_run as int,
                end_run as int,
                start as int,
                end as int,
                value,
            ),
        ensures
            final(self).wf(),
            final(self)@ == fill(old(self)@, start as int, end - start + 1, value),
    {
        let ghost e0 = self.run_ends();
        let ghost v0 = self.run_values();
        let ghost a = start_run as int;
        let ghost b = end_run as int;
        proof {
            lemma_runs_bounded_by_run(e0, a);
            if a < b {
                assert(e0[a] <= e0[b - 1]);
            }
        }
        let flush_left = if start_run == 0 {
            start == 0
        } else {
            start == self.runs.end(start_run - 1) + 1
        };
        let flush_right = end == self.runs.end(end_run);
        if start_run == end_run && !flush_left && !flush_right {
            proof {
                lemma_span_inside(e0, v0, a, start as int, end as int, value);
            }
            let tail = self.runs.value(start_run).clone();
            let tail_end = self.runs.end(start_run);
            self.runs.set_end(start_run, start - 1);
            self.runs.insert(start_run + 1, end, value);
            self.runs.insert(start_run + 2, tail_end, tail);
            return ;
        }
        proof {
            lemma_span_well_formed(e0, v0, a, b, start as int, end as int, value);
            lemma_span_fills(e0, v0, a, b, start as int, end as int, value);
        }
        if start_run == end_run {
            if flush_left && flush_right {
                self.runs.set_value(start_run, value);
            } else if flush_left {
                self.runs.insert(start_run, end, value);
            } else {
                self.runs.set_end(start_run, start - 1);
                self.runs.insert(start_run + 1, end, value);
            }
        } else {
            let from = if flush_left {
                start_run
            } else {
                start_run + 1
            };
            let to = if flush_right {
                end_run + 1
            } else {
                end_run
            };
            self.runs.replace(from, to, end, value);
            if !flush_left {
                self.runs.set_end(start_run, start - 1);
            }
        }
        assert(self.run_ends() =~= span_ends(e0, a, b, start as int, end as int));
        assert(self.run_values() =~= span_values(e0, v0, a, b, start as int, end as int, value));
    }

    /// Adds one to each run end from run `from` on, or takes one away.
    fn shift_from(&mut self, from: usize, up: bool)
        requires
            old(self).run_ends().len() == old(self).run_values().len(),
            forall|j: int|
                from <= j < old(self).run_ends().len() ==> if up {
                    #[trigger] old(self).run_ends()[j] < u32::MAX
                } else {
                    old(self).run_ends()[j] > 0
                },
        ensures
            final(self).run_ends() == shift_ends(
                old(self).run_ends(),
                from as int,
                if up {
                    1
                } else {
                    -1
                },
            ),
            final(self).run_values() == old(self).run_values(),
    {
        let ghost e0 = self.run_ends();
        let ghost delta: int = if up {
            1
        } else {
            -1
        };
        let count = self.runs.len();
        let mut q = from;
        while q < count
            invariant
                count == e0.len(),
                from <= q,
                self.run_ends().len() == e0.len(),
                self.run_values() == old(self).run_values(),
                delta == (if up {
                    1int
                } else {
                    -1int
                }),
                forall|j: int|
                    from <= j < e0.len() ==> if up {
                        #[trigger] e0[j] < u32::MAX
                    } else {
                        e0[j] > 0
                    },
                forall|j: int|
                    0 <= j < e0.len() ==> #[trigger] self.run_ends()[j] == (if from <= j < q {
                        e0[j] + delta
                    } else {
                        e0[j] as int
                    }),
            decreases count - q,
        {
            let end = self.runs.end(q);
            if up {
                self.runs.set_end(q, end + 1);
            } else {
                self.runs.set_end(q, end - 1);
            }
            q += 1;
        }
        assert(self.run_ends() =~= shift_ends(e0, from as int, delta));
    }

    /// Removes and returns the element at `index`; the elements behind it move
    /// down by one.
    ///
    /// A longer run is shortened. A run of one element leaves the table, and the
    /// runs on its two sides become one run when they have the same value.
    pub fn remove(&mut self, index: u32) -> (value: T)
        requires
            old(self).wf(),
            eq_is_exact::<T>(),
            clone_is_exact::<T>(),
            index < old(self)@.len(),
        ensures
            final(self).wf(),
            value == old(self)@[index as int],
            final(self)@ == old(self)@.remove(index as int),
    {
        let ghost e0 = self.run_ends();
        let ghost v0 = self.run_values();
        let (p, start, end) = self.index_info(index);
        if end - start == 0 {
            let value = self.runs.remove(p);
            proof {
                assert forall|j: int| p <= j < self.run_ends().len() implies self.run_ends()[j]
                    > 0 by {
                    assert(e0[p as int] < e0[j + 1]);
                }
            }
            self.shift_from(p, false);
            if p > 0 && p < self.runs.len() && *self.runs.value(p - 1) == *self.runs.value(p) {
                proof {
                    lemma_remove_merges(e0, v0, p as int, index as int);
                }
                let after_end = self.runs.end(p);
                self.runs.set_end(p - 1, after_end);
                let _ = self.runs.remove(p);
            } else {
                proof {
                    lemma_remove_drops(e0, v0, p as int, index as int);
                }
            }
            value
        } else {
            proof {
                lemma_remove_shrinks(e0, v0, p as int, index as int);
                assert forall|j: int| p <= j < e0.len() implies e0[j] > 0 by {
                    if p < j {
                        assert(e0[p as int] < e0[j]);
                    }
                }
            }
            self.shift_from(p, false);
            self.runs.value(p).clone()
        }
    }

    /// Inserts `value` at `index`; the elements from there on move up by one.
    ///
    /// The run at `index` grows when it has the value. Otherwise the value joins
    /// the run before, stands as a new run before the run, or cuts the run in
    /// two.
    pub fn insert(&mut self, index: usize, value: T)
        requires
            old(self).wf(),
            eq_is_exact::<T>(),
            clone_is_exact::<T>(),
            index <= old(self)@.len(),
            old(self)@.len() + 1 <= max_len(),
        ensures
            final(self).wf(),
            final(self)@ == old(self)@.insert(index as int, value),
    {
        if index == self.len() {
            self.push(value);
            assert(self@ =~= old(self)@.insert(index as int, value));
            return ;
        }
        let ghost e0 = self.run_ends();
        let ghost v0 = self.run_values();
        let index = index as u32;
        let (p, start, end) = self.index_info(index);
        proof {
            lemma_runs_bounded_by_run(e0, p as int);
            assert forall|j: int| p <= j < e0.len() implies #[trigger] e0[j] < u32::MAX by {
                if j < e0.len() - 1 {
                    assert(e0[j] < e0.last());
                }
            }
        }
        self.shift_from(p, true);
        if *self.runs.value(p) == value {
            proof {
                lemma_insert_widens(e0, v0, p as int, index as int, value);
            }
            return ;
        }
        if index == start {
            if p > 0 && *self.runs.value(p - 1) == value {
                proof {
                    lemma_insert_joins(e0, v0, p as int, index as int, value);
                }
                self.runs.set_end(p - 1, index);
            } else {
                proof {
                    lemma_insert_before(e0, v0, p as int, index as int, value);
                }
                self.runs.insert(p, index, value);
            }
        } else {
            proof {
                lemma_insert_inside(e0, v0, p as int, index as int, value);
            }
            self.runs.set_end(p, index - 1);
            self.runs.insert(p + 1, index, value);
            let tail = self.runs.value(p).clone();
            self.runs.insert(p + 2, end + 1, tail);
        }
    }

    fn set_internal(&mut self, index: u32, value: T, p: usize, start: u32, end: u32)
        requires
            old(self).wf(),
            eq_is_exact::<T>(),
            clone_is_exact::<T>(),
            covers(old(self).run_ends(), p as int, index as int),
            start == run_start(old(self).run_ends(), p as int),
            end == old(self).run_ends()[p as int],
        ensures
            final(self).wf(),
            final(self)@ == old(self)@.update(index as int, value),
            final(self)@[index as int] == value,
            old(self).run_ends().len() - 2 <= final(self).run_ends().len(),
            final(self).run_ends().len() <= old(self).run_ends().len() + 2,
    {
        let ghost e0 = self.run_ends();
        let ghost v0 = self.run_values();
        proof {
            lemma_runs_bounded_by_run(e0, p as int);
        }
        if *self.runs.value(p) == value {
            proof {
                lemma_set_same(e0, v0, p as int, index as int, value);
            }
            return ;
        }
        let count = self.runs.len();
        if end - start == 0 {
            let joins_previous = p > 0 && *self.runs.value(p - 1) == value;
            let joins_next = p + 1 < count && *self.runs.value(p + 1) == value;
            if joins_previous {
                let _ = self.runs.remove(p);
                if joins_next {
                    let _ = self.runs.remove(p - 1);
                    proof {
                        lemma_set_joins_both(e0, v0, p as int, index as int, value);
                    }
                } else {
                    self.runs.set_end(p - 1, end);
                    proof {
                        lemma_set_joins_previous(e0, v0, p as int, index as int, value);
                    }
                }
            } else if joins_next {
                let _ = self.runs.remove(p);
                proof {
                    lemma_set_joins_next(e0, v0, p as int, index as int, value);
                }
            } else {
                proof {
                    lemma_set_replaces(e0, v0, p as int, index as int, value);
                }
                self.runs.set_value(p, value);
            }
        } else if index == start {
            if p > 0 && *self.runs.value(p - 1) == value {
                self.runs.set_end(p - 1, start);
                proof {
                    lemma_set_first_joins(e0, v0, p as int, index as int, value);
                }
            } else {
                proof {
                    lemma_set_first_splits(e0, v0, p as int, index as int, value);
                }
                self.runs.insert(p, start, value);
            }
        } else if index == end {
            self.runs.set_end(p, end - 1);
            if p + 1 < count && *self.runs.value(p + 1) == value {
                proof {
                    lemma_set_last_joins(e0, v0, p as int, index as int, value);
                }
            } else {
                proof {
                    lemma_set_last_splits(e0, v0, p as int, index as int, value);
                }
                self.runs.insert(p + 1, end, value);
            }
        } else {
            proof {
                lemma_set_splits_inside(e0, v0, p as int, index as int, value);
            }
            self.runs.set_end(p, index - 1);
            let tail = self.runs.value(p).clone();
            self.runs.insert(p + 1, index, value);
            self.runs.insert(p + 2, end, tail);
        }
    }
}

impl<T: Clone> RleVec<T> {
    /// Returns the elements as a `Vec`, each run's value cloned once for each
    /// index the run holds.
    pub fn to_vec(&self) -> (flat: Vec<T>)
        requires
            self.wf(),
            clone_is_exact::<T>(),
        ensures
            flat@ == self@,
    {
        let count = self.runs.len();
        let mut flat: Vec<T> = Vec::with_capacity(self.len());
        let mut p: usize = 0;
        while p < count
            invariant
                self.wf(),
                clone_is_exact::<T>(),
                count == self.run_ends().len(),
                p <= count,
                flat@ == self@.subrange(0, run_start(self.run_ends(), p as int)),
                p == count ==> run_start(self.run_ends(), p as int) == self@.len(),
            decreases count - p,
        {
            let end = self.runs.end(p);
            let mut i: u32 = if p == 0 {
                0
            } else {
                self.runs.end(p - 1) + 1
            };
            proof {
                assert(p > 0 ==> self.run_ends()[p - 1] < self.run_ends()[p as int]);
                assert(self.run_ends()[p as int] <= self.run_ends().last()) by {
                    if p < count - 1 {
                        assert(self.run_ends()[p as int] < self.run_ends().last());
                    }
                }
            }
            loop
                invariant_except_break
                    flat@ == self@.subrange(0, i as int),
                invariant
                    self.wf(),
                    clone_is_exact::<T>(),
                    p < count == self.run_ends().len(),
                    end == self.run_ends()[p as int],
                    run_start(self.run_ends(), p as int) <= i <= end,
                    end < self@.len(),
                ensures
                    flat@ == self@.subrange(0, end + 1),
                decreases end - i,
            {
                proof {
                    self.lemma_view_at(p as int, i as int);
                }
                flat.push(self.runs.value(p).clone());
                assert(flat@ =~= self@.subrange(0, i + 1));
                if i == end {
                    break ;
                }
                i = i + 1;
            }
            p += 1;
        }
        assert(flat@ =~= self@);
        flat
    }

    /// Turns the container into a `Vec` of its elements.
    pub fn into(self) -> (flat: Vec<T>)
        requires
            self.wf(),
            clone_is_exact::<T>(),
        ensures
            flat@ == self@,
    {
        self.to_vec()
    }
}

impl<T: Eq + Clone> RleVec<T> {
    /// Builds a container from a slice: neighbours of equal value become one
    /// run.
    pub fn from(slice: &[T]) -> (rle: RleVec<T>)
        requires
            eq_is_exact::<T>(),
            clone_is_exact::<T>(),
            slice@.len() <= max_len(),
        ensures
            rle.wf(),
            rle@ == slice@,
    {
        let mut rle = RleVec::new();
        if slice.len() == 0 {
            assert(rle@ =~= slice@);
            return rle;
        }
        let mut pending: T = slice[0].clone();
        let mut k: usize = 1;
        proof {
            lemma_push_adds(rle.run_ends(), rle.run_values(), 1, pending);
            assert(rle@ + repeat(pending, 1) =~= slice@.subrange(0, 1));
            assert(rle.run_ends().push((k - 1) as u32) =~= rle.run_ends().push(
                (total_len(rle.run_ends()) + 1 - 1) as u32,
            ));
        }
        while k < slice.len()
            invariant
                eq_is_exact::<T>(),
                clone_is_exact::<T>(),
                slice@.len() <= max_len(),
                1 <= k <= slice@.len(),
                well_formed(rle.run_ends().push((k - 1) as u32), rle.run_values().push(pending)),
                expand(rle.run_ends().push((k - 1) as u32), rle.run_values().push(pending))
                    == slice@.subrange(0, k as int),
            decreases slice@.len() - k,
        {
            let ghost e = rle.run_ends().push((k - 1) as u32);
            let ghost v = rle.run_values().push(pending);
            proof {
                lemma_runs_bounded(e);
                assert(slice@.subrange(0, k as int) + repeat(slice@[k as int], 1)
                    =~= slice@.subrange(0, k + 1));
            }
            if slice[k] != pending {
                proof {
                    lemma_push_adds(e, v, 1, slice@[k as int]);
                }
                rle.runs.push((k - 1) as u32, pending);
                pending = slice[k].clone();
            } else {
                proof {
                    lemma_push_joins(e, v, 1, slice@[k as int]);
                    assert(rle.run_ends().push(k as u32) =~= e.update(
                        e.len() - 1,
                        (e.last() + 1) as u32,
                    ));
                }
            }
            k += 1;
        }
        proof {
            lemma_runs_bounded(rle.run_ends().push((k - 1) as u32));
            assert(slice@.subrange(0, k as int) =~= slice@);
        }
        rle.runs.push((k - 1) as u32, pending);
        rle
    }
}

impl<T: Eq> RleVec<T> {
    /// Appends every run that `runs` yields, its value as often as its length
    /// says. A run whose value is that of the last element joins the last run.
    pub fn extend_runs<I: Iterator<Item = Run<T>>>(&mut self, runs: I)
        requires
            old(self).wf(),
            eq_is_exact::<T>(),
            runs.obeys_prophetic_iter_laws(),
            runs.decrease() is Some,
            old(self)@.len() + runs_flat(runs.remaining()).len() <= max_len(),
        ensures
            final(self).wf(),
            final(self)@ == old(self)@ + runs_flat(runs.remaining()),
    {
        let ghost s0 = self@;
        let ghost all = runs.remaining();
        let ghost done: Seq<Run<T>> = Seq::empty();
        let mut runs = runs;
        proof {
            assert(s0 + runs_flat(done) =~= s0);
            assert(done + all =~= all);
        }
        loop
            invariant
                eq_is_exact::<T>(),
                runs.obeys_prophetic_iter_laws(),
                runs.decrease() is Some,
                all == done + runs.remaining(),
                s0.len() + runs_flat(all).len() <= max_len(),
                self.wf(),
                self@ == s0 + runs_flat(done),
            ensures
                self@ == s0 + runs_flat(all),
            decreases runs.decrease()->0,
        {
            let ghost before = runs.remaining();
            match runs.next() {
                Some(run) => {
                    proof {
                        assert(done.push(run) + runs.remaining() =~= all);
                        lemma_runs_flat_concat(done.push(run), runs.remaining());
                        assert(done.push(run).drop_last() =~= done);
                        assert((s0 + runs_flat(done)) + repeat(run.value, run.len as int) =~= s0
                            + runs_flat(done.push(run)));
                        done = done.push(run);
                    }
                    self.push_n(run.len, run.value);
                },
                None => {
                    proof {
                        assert(done =~= all);
                    }
                    break ;
                },
            }
        }
    }

    /// Builds a container from the runs that `runs` yields.
    pub fn from_runs<I: Iterator<Item = Run<T>>>(runs: I) -> (rle: RleVec<T>)
        requires
            eq_is_exact::<T>(),
            runs.obeys_prophetic_iter_laws(),
            runs.decrease() is Some,
            runs_flat(runs.remaining()).len() <= max_len(),
        ensures
            rle.wf(),
            rle@ == runs_flat(runs.remaining()),
    {
        let mut rle = RleVec::new();
        rle.extend_runs(runs);
        assert(Seq::<T>::empty() + runs_flat(runs.remaining()) =~= runs_flat(runs.remaining()));
        rle
    }

    /// Builds a container from the values that `iter` yields: neighbours of
    /// equal value become one run.
    pub fn from_iter<I: Iterator<Item = T>>(iter: I) -> (rle: RleVec<T>)
        requires
            eq_is_exact::<T>(),
            iter.obeys_prophetic_iter_laws(),
            iter.remaining().len() <= max_len(),
        ensures
            rle.wf(),
            rle@ == iter.remaining(),
    {
        let mut rle = RleVec::new();
        rle.extend(iter);
        assert(Seq::<T>::empty() + iter.remaining() =~= iter.remaining());
        rle
    }
}

impl<T> Default for RleVec<T> {
    /// The empty container.
    fn default() -> (rle: Self)
        ensures
            rle.wf(),
            rle@ == Seq::<T>::empty(),
    {
        RleVec::new()
    }
}

impl<T: Clone> Clone for RleVec<T> {
    /// A container with the same runs, each value cloned.
    fn clone(&self) -> (copy: Self)
        ensures
            copy.run_ends() == self.run_ends(),
            clone_is_exact::<T>() ==> copy.run_values() == self.run_values() && copy@ == self@,
    {
        let copy = RleVec { runs: self.runs.clone() };
        proof {
            if clone_is_exact::<T>() {
                assert(copy.run_values() =~= self.run_values());
            }
        }
        copy
    }
}

impl<T> vstd::std_specs::core::IndexSpecImpl<usize> for RleVec<T> {
    /// Indexing asks for the invariant and an index below the length.
    open spec fn index_req(&self, index: &usize) -> bool {
        self.wf() && *index < self@.len()
    }
}

impl<T> core::ops::Index<usize> for RleVec<T> {
    type Output = T;

    /// The element at `index`, found by a search over the run ends.
    fn index(&self, index: usize) -> (value: &T)
        ensures
            *value == self@[index as int],
    {
        let p = self.run_index(index as u32) as usize;
        proof {
            self.lemma_view_at(p as int, index as int);
        }
        self.runs.value(p)
    }
}

impl<T: PartialEq> vstd::std_specs::cmp::PartialEqSpecImpl for RleVec<T> {
    open spec fn obeys_eq_spec() -> bool {
        T::obeys_eq_spec()
    }

    /// Two containers are equal when they have the same runs. Under the
    /// invariant that is to say that they have the same elements.
    open spec fn eq_spec(&self, other: &Self) -> bool {
        self.run_ends() == other.run_ends() && values_eq(self.run_values(), other.run_values())
    }
}

impl<T: PartialEq> PartialEq for RleVec<T> {
    /// Compares run by run, not element by element.
    fn eq(&self, other: &Self) -> (equal: bool) {
        self.runs.same_runs(&other.runs)
    }
}

impl<T: Eq> Eq for RleVec<T> {

}

} // verus!
