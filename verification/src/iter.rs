//! Cursors over the elements and over the runs of a container.

use crate::model::{covers, lemma_runs_bounded, run_len, run_start};
use crate::rle::{RleVec, Run};
use vstd::prelude::*;

verus! {

/// A double-ended cursor over the elements of a container.
///
/// The front cursor and the back cursor each hold a flat index and the run of
/// that index; the elements between them are still to come.
pub struct Iter<'a, T: 'a> {
    rle: &'a RleVec<T>,
    run_index: u32,
    index: u32,
    index_back: u32,
    run_index_back: u32,
}

impl<'a, T: 'a> Iter<'a, T> {
    #[verifier::type_invariant]
    closed spec fn inv(&self) -> bool {
        let ends = self.rle.run_ends();
        &&& self.rle.wf()
        &&& self.index <= self.index_back <= self.rle@.len()
        &&& self.index < self.rle@.len() ==> covers(ends, self.run_index as int, self.index as int)
        &&& self.index_back < self.rle@.len() ==> covers(
            ends,
            self.run_index_back as int,
            self.index_back as int,
        )
        &&& self.index_back == self.rle@.len() ==> self.run_index_back == (if ends.len() == 0 {
            0
        } else {
            ends.len() - 1
        })
    }

    /// The container that the cursor walks.
    pub closed spec fn source(&self) -> &'a RleVec<T> {
        self.rle
    }

    /// The flat index of the next element from the front.
    pub closed spec fn front(&self) -> int {
        self.index as int
    }

    /// One past the flat index of the next element from the back.
    pub closed spec fn back(&self) -> int {
        self.index_back as int
    }

    /// The elements still to come, in order.
    pub open spec fn rest(&self) -> Seq<T> {
        self.source()@.subrange(self.front(), self.back())
    }

    /// The elements still to come, as they are handed out.
    pub open spec fn rest_refs(&self) -> Seq<&'a T> {
        Seq::new(self.rest().len(), |k: int| &self.rest()[k])
    }

    /// Moves the front cursor over one element.
    fn advance(&mut self) -> (value: Option<&'a T>)
        ensures
            0 <= old(self).front() <= old(self).back() <= old(self).source()@.len(),
            0 <= final(self).front() <= final(self).back() <= final(self).source()@.len(),
            final(self).source() == old(self).source(),
            final(self).back() == old(self).back(),
            old(self).rest().len() > 0 ==> final(self).front() == old(self).front() + 1 && value
                == Some(&old(self).rest()[0]),
            old(self).rest().len() == 0 ==> final(self).front() == old(self).front()
                && value.is_none(),
            old(self).rest().len() > 0 ==> final(self).rest() == old(self).rest().drop_first()
                && final(self).rest_refs() == old(self).rest_refs().drop_first(),
    {
        proof {
            use_type_invariant(&*self);
            lemma_runs_bounded(self.rle.run_ends());
        }
        if self.index == self.index_back {
            return None;
        }
        let run = self.run_index as usize;
        let end = self.rle.run_end(run);
        let value = self.rle.run_value(run);
        proof {
            self.rle.lemma_view_at(run as int, self.index as int);
            if self.index + 1 < self.rle@.len() && self.index == end {
                assert(self.rle.run_ends()[run as int] < self.rle.run_ends().last());
                assert(covers(self.rle.run_ends(), run + 1, self.index + 1));
            }
        }
        let ahead = Iter {
            rle: self.rle,
            run_index: if self.index + 1 > end {
                self.run_index + 1
            } else {
                self.run_index
            },
            index: self.index + 1,
            index_back: self.index_back,
            run_index_back: self.run_index_back,
        };
        proof {
            assert(ahead.rest() =~= self.rest().drop_first());
            assert(ahead.rest_refs() =~= self.rest_refs().drop_first());
        }
        *self = ahead;
        Some(value)
    }

    /// Moves the back cursor over one element.
    fn retreat(&mut self) -> (value: Option<&'a T>)
        ensures
            0 <= old(self).front() <= old(self).back() <= old(self).source()@.len(),
            0 <= final(self).front() <= final(self).back() <= final(self).source()@.len(),
            final(self).source() == old(self).source(),
            final(self).front() == old(self).front(),
            old(self).rest().len() > 0 ==> final(self).back() == old(self).back() - 1 && value
                == Some(&old(self).rest().last()),
            old(self).rest().len() == 0 ==> final(self).back() == old(self).back()
                && value.is_none(),
            old(self).rest().len() > 0 ==> final(self).rest() == old(self).rest().drop_last()
                && final(self).rest_refs() == old(self).rest_refs().drop_last(),
    {
        proof {
            use_type_invariant(&*self);
            lemma_runs_bounded(self.rle.run_ends());
        }
        if self.index_back == self.index {
            return None;
        }
        let index_back = self.index_back - 1;
        let steps_back = self.run_index_back > 0 && index_back <= self.rle.run_end(
            (self.run_index_back - 1) as usize,
        );
        let run_back = if steps_back {
            self.run_index_back - 1
        } else {
            self.run_index_back
        };
        proof {
            assert(covers(self.rle.run_ends(), run_back as int, index_back as int));
            self.rle.lemma_view_at(run_back as int, index_back as int);
        }
        let behind = Iter {
            rle: self.rle,
            run_index: self.run_index,
            index: self.index,
            index_back,
            run_index_back: run_back,
        };
        proof {
            assert(behind.rest() =~= self.rest().drop_last());
            assert(behind.rest_refs() =~= self.rest_refs().drop_last());
        }
        *self = behind;
        Some(self.rle.run_value(run_back as usize))
    }
}

impl<'a, T: 'a> vstd::std_specs::iter::IteratorSpecImpl for Iter<'a, T> {
    open spec fn obeys_prophetic_iter_laws(&self) -> bool {
        true
    }

    open spec fn remaining(&self) -> Seq<&'a T> {
        self.rest_refs()
    }

    open spec fn will_return_none(&self) -> bool {
        true
    }

    open spec fn decrease(&self) -> Option<nat> {
        Some((self.back() - self.front()) as nat)
    }

    open spec fn initial_value_relation(&self, init: &Self) -> bool {
        init.rest() == self.rest()
    }

    open spec fn peek(&self, index: int) -> Option<&'a T> {
        if 0 <= index < self.rest().len() {
            Some(&self.rest()[index])
        } else {
            None
        }
    }
}

impl<'a, T: 'a> Iterator for Iter<'a, T> {
    type Item = &'a T;

    /// Returns the next element from the front, or `None` when the cursors have
    /// met.
    fn next(&mut self) -> (value: Option<&'a T>)
        ensures
            final(self).source() == old(self).source(),
            final(self).back() == old(self).back(),
            0 <= final(self).front() <= final(self).back() <= final(self).source()@.len(),
            old(self).rest().len() > 0 ==> ({
                &&& value == Some(&old(self).rest()[0])
                &&& final(self).front() == old(self).front() + 1
                &&& final(self).rest() == old(self).rest().drop_first()
            }),
            old(self).rest().len() == 0 ==> ({
                &&& value.is_none()
                &&& final(self).front() == old(self).front()
            }),
    {
        self.advance()
    }

    /// Returns the number of elements still to come, as lower and upper bound.
    fn size_hint(&self) -> (hint: (usize, Option<usize>))
        ensures
            hint.0 == self.rest().len(),
            hint.1 == Some(hint.0),
    {
        proof {
            use_type_invariant(self);
        }
        let len = (self.index_back - self.index) as usize;
        (len, Some(len))
    }

    /// Returns the number of elements still to come.
    fn count(self) -> (n: usize)
        ensures
            n == self.rest().len(),
    {
        proof {
            use_type_invariant(&self);
        }
        (self.index_back - self.index) as usize
    }

    /// Returns the last of the elements still to come.
    fn last(self) -> (value: Option<&'a T>)
        ensures
            self.rest().len() == 0 ==> value.is_none(),
            self.rest().len() > 0 ==> value == Some(&self.rest().last()),
    {
        let mut cursor = self;
        cursor.retreat()
    }

    /// Skips `n` elements from the front and returns the one behind them.
    ///
    /// The front index jumps and its run is looked up by a search; nothing is
    /// stepped over one by one. The jump ends where the elements still to come
    /// end.
    fn nth(&mut self, n: usize) -> (value: Option<&'a T>)
        ensures
            final(self).source() == old(self).source(),
            0 <= final(self).front() <= final(self).back() <= final(self).source()@.len(),
            n < old(self).rest().len() ==> ({
                &&& value == Some(&old(self).rest()[n as int])
                &&& final(self).front() == old(self).front() + n + 1
                &&& final(self).back() == old(self).back()
                &&& final(self).rest() == old(self).rest().skip(n + 1)
            }),
            n >= old(self).rest().len() ==> value.is_none() && final(self).rest().len() == 0,
    {
        proof {
            use_type_invariant(&*self);
            lemma_runs_bounded(self.rle.run_ends());
        }
        let left = (self.index_back - self.index) as usize;
        if n >= left {
            let ahead = Iter {
                rle: self.rle,
                run_index: self.run_index_back,
                index: self.index_back,
                index_back: self.index_back,
                run_index_back: self.run_index_back,
            };
            *self = ahead;
            return None;
        }
        let index = self.index + n as u32;
        let ahead = Iter {
            rle: self.rle,
            run_index: self.rle.run_index(index),
            index,
            index_back: self.index_back,
            run_index_back: self.run_index_back,
        };
        *self = ahead;
        self.advance()
    }
}

impl<'a, T: 'a> ExactSizeIterator for Iter<'a, T> {

}

impl<'a, T: 'a> vstd::std_specs::iter::DoubleEndedIteratorSpecImpl for Iter<'a, T> {
    open spec fn peek_back(&self, index: int) -> Option<&'a T> {
        if 0 <= index < self.rest().len() {
            Some(&self.rest()[self.rest().len() - 1 - index])
        } else {
            None
        }
    }
}

impl<'a, T: 'a> DoubleEndedIterator for Iter<'a, T> {
    /// Returns the next element from the back, or `None` when the cursors have
    /// met.
    fn next_back(&mut self) -> (value: Option<&'a T>)
        ensures
            final(self).source() == old(self).source(),
            final(self).front() == old(self).front(),
            0 <= final(self).front() <= final(self).back() <= final(self).source()@.len(),
            old(self).rest().len() > 0 ==> ({
                &&& value == Some(&old(self).rest().last())
                &&& final(self).back() == old(self).back() - 1
                &&& final(self).rest() == old(self).rest().drop_last()
            }),
            old(self).rest().len() == 0 ==> ({
                &&& value.is_none()
                &&& final(self).back() == old(self).back()
            }),
    {
        self.retreat()
    }
}

impl<T> RleVec<T> {
    /// Returns a cursor over the elements, at the front and the back of the
    /// container.
    pub fn iter(&self) -> (cursor: Iter<'_, T>)
        requires
            self.wf(),
            self@.len() <= u32::MAX,
        ensures
            cursor.source() == self,
            cursor.front() == 0,
            cursor.back() == self@.len(),
            cursor.rest() == self@,
    {
        let count = self.runs_len();
        proof {
            lemma_runs_bounded(self.run_ends());
        }
        let cursor = Iter {
            rle: self,
            run_index: 0,
            index: 0,
            run_index_back: if count == 0 {
                0
            } else {
                (count - 1) as u32
            },
            index_back: self.len() as u32,
        };
        assert(cursor.rest() =~= self@);
        cursor
    }
}

/// A cursor over the runs of a container. Each run is handed out as its start,
/// its length and its value, computed from the ends of the run and of the run
/// before it.
pub struct Runs<'a, T: 'a> {
    rle: &'a RleVec<T>,
    run_index: usize,
    last_end: u32,
}

impl<'a, T: 'a> Runs<'a, T> {
    #[verifier::type_invariant]
    closed spec fn inv(&self) -> bool {
        &&& self.rle.wf()
        &&& self.rle@.len() <= u32::MAX
        &&& self.run_index <= self.rle.run_ends().len()
        &&& self.last_end == run_start(self.rle.run_ends(), self.run_index as int)
    }

    /// The container whose runs the cursor walks.
    pub closed spec fn source(&self) -> &'a RleVec<T> {
        self.rle
    }

    /// The position of the next run.
    pub closed spec fn run_position(&self) -> int {
        self.run_index as int
    }

    /// Run `p` of the container as it is handed out.
    pub open spec fn run_ref(&self, p: int) -> Run<&'a T> {
        Run {
            start: run_start(self.source().run_ends(), p) as u32,
            len: run_len(self.source().run_ends(), p) as u32,
            value: &self.source().run_values()[p],
        }
    }

    /// The runs still to come, in order.
    pub open spec fn rest(&self) -> Seq<Run<&'a T>> {
        Seq::new(
            (self.source().run_ends().len() - self.run_position()) as nat,
            |k: int| self.run_ref(self.run_position() + k),
        )
    }

    /// Moves the cursor over one run.
    fn advance(&mut self) -> (run: Option<Run<&'a T>>)
        ensures
            0 <= old(self).run_position() <= old(self).source().run_ends().len(),
            0 <= final(self).run_position() <= final(self).source().run_ends().len(),
            final(self).source() == old(self).source(),
            old(self).rest().len() > 0 ==> ({
                &&& run == Some(old(self).rest()[0])
                &&& final(self).run_position() == old(self).run_position() + 1
                &&& final(self).rest() == old(self).rest().drop_first()
            }),
            old(self).rest().len() == 0 ==> ({
                &&& run.is_none()
                &&& final(self).run_position() == old(self).run_position()
            }),
    {
        proof {
            use_type_invariant(&*self);
        }
        if self.run_index == self.rle.runs_len() {
            return None;
        }
        let start = self.last_end;
        let end = self.rle.run_end(self.run_index);
        let value = self.rle.run_value(self.run_index);
        proof {
            let ends = self.rle.run_ends();
            let p = self.run_index as int;
            assert(p > 0 ==> ends[p - 1] < ends[p]);
            assert(ends[p] <= ends.last()) by {
                if p < ends.len() - 1 {
                    assert(ends[p] < ends.last());
                }
            }
        }
        let ahead = Runs { rle: self.rle, run_index: self.run_index + 1, last_end: end + 1 };
        proof {
            assert(ahead.rest() =~= self.rest().drop_first());
        }
        *self = ahead;
        Some(Run { start, len: end - start + 1, value })
    }
}

impl<'a, T: 'a> vstd::std_specs::iter::IteratorSpecImpl for Runs<'a, T> {
    open spec fn obeys_prophetic_iter_laws(&self) -> bool {
        true
    }

    open spec fn remaining(&self) -> Seq<Run<&'a T>> {
        self.rest()
    }

    open spec fn will_return_none(&self) -> bool {
        true
    }

    open spec fn decrease(&self) -> Option<nat> {
        Some((self.source().run_ends().len() - self.run_position()) as nat)
    }

    open spec fn initial_value_relation(&self, init: &Self) -> bool {
        init.rest() == self.rest()
    }

    open spec fn peek(&self, index: int) -> Option<Run<&'a T>> {
        if 0 <= index < self.rest().len() {
            Some(self.rest()[index])
        } else {
            None
        }
    }
}

impl<'a, T: 'a> Iterator for Runs<'a, T> {
    type Item = Run<&'a T>;

    /// Returns the next run, or `None` behind the last one.
    fn next(&mut self) -> (run: Option<Run<&'a T>>)
        ensures
            final(self).source() == old(self).source(),
            0 <= final(self).run_position() <= final(self).source().run_ends().len(),
            old(self).rest().len() > 0 ==> ({
                &&& run == Some(old(self).rest()[0])
                &&& final(self).run_position() == old(self).run_position() + 1
                &&& final(self).rest() == old(self).rest().drop_first()
            }),
            old(self).rest().len() == 0 ==> ({
                &&& run.is_none()
                &&& final(self).run_position() == old(self).run_position()
            }),
    {
        self.advance()
    }

    /// Returns the number of runs still to come, as lower and upper bound.
    fn size_hint(&self) -> (hint: (usize, Option<usize>))
        ensures
            hint.0 == self.rest().len(),
            hint.1 == Some(hint.0),
    {
        proof {
            use_type_invariant(self);
        }
        let len = self.rle.runs_len() - self.run_index;
        (len, Some(len))
    }

    /// Returns the number of runs still to come.
    fn count(self) -> (n: usize)
        ensures
            n == self.rest().len(),
    {
        proof {
            use_type_invariant(&self);
        }
        self.rle.runs_len() - self.run_index
    }

    /// Returns the last run of the container, unless no run is still to come.
    fn last(self) -> (run: Option<Run<&'a T>>)
        ensures
            self.rest().len() == 0 ==> run.is_none(),
            self.rest().len() > 0 ==> run.is_some() && ({
                let last = self.rest().last();
                let run = run.unwrap();
                run.start == last.start && run.len == last.len && *run.value == *last.value
            }),
    {
        proof {
            use_type_invariant(&self);
        }
        if self.run_index == self.rle.runs_len() {
            return None;
        }
        proof {
            let ends = self.rle.run_ends();
            assert(ends.len() > 1 ==> ends[ends.len() - 2] < ends.last());
        }
        self.rle.last_run()
    }

    /// Skips `n` runs and returns the one behind them. The cursor moves by `n`
    /// at once, and the start of its run is read off the run before it.
    fn nth(&mut self, n: usize) -> (run: Option<Run<&'a T>>)
        ensures
            final(self).source() == old(self).source(),
            0 <= final(self).run_position() <= final(self).source().run_ends().len(),
            n < old(self).rest().len() ==> ({
                &&& run == Some(old(self).rest()[n as int])
                &&& final(self).run_position() == old(self).run_position() + n + 1
                &&& final(self).rest() == old(self).rest().skip(n + 1)
            }),
            n >= old(self).rest().len() ==> run.is_none() && final(self).rest().len() == 0,
    {
        proof {
            use_type_invariant(&*self);
        }
        let count = self.rle.runs_len();
        let run_index = if n >= count - self.run_index {
            count
        } else {
            self.run_index + n
        };
        let last_end = if run_index != 0 {
            proof {
                let ends = self.rle.run_ends();
                assert(ends[run_index - 1] <= ends.last()) by {
                    if run_index < ends.len() {
                        assert(ends[run_index - 1] < ends.last());
                    }
                }
            }
            self.rle.run_end(run_index - 1) + 1
        } else {
            0
        };
        let ahead = Runs { rle: self.rle, run_index, last_end };
        *self = ahead;
        self.advance()
    }
}

impl<'a, T: 'a> ExactSizeIterator for Runs<'a, T> {

}

impl<T> RleVec<T> {
    /// Returns a cursor over the runs, at the first run.
    pub fn runs(&self) -> (cursor: Runs<'_, T>)
        requires
            self.wf(),
            self@.len() <= u32::MAX,
        ensures
            cursor.source() == self,
            cursor.run_position() == 0,
            cursor.rest().len() == self.run_ends().len(),
    {
        Runs { rle: self, run_index: 0, last_end: 0 }
    }
}

} // verus!
