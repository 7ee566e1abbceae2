//! The mathematical model of a run table: a sequence of cumulative inclusive
//! run ends beside a sequence of run values, and the flat sequence they stand
//! for.

use vstd::prelude::*;
use vstd::std_specs::cmp::PartialEqSpec;

verus! {

/// `==` on `T` in executable code decides equality of values.
pub open spec fn eq_is_exact<T: PartialEq>() -> bool {
    &&& T::obeys_eq_spec()
    &&& forall|a: T, b: T| #[trigger] a.eq_spec(&b) <==> a == b
}

/// `clone` on `T` returns a value equal to the one cloned.
pub open spec fn clone_is_exact<T: Clone>() -> bool {
    forall|a: T, b: T| #[trigger] call_ensures(T::clone, (&a,), b) ==> a == b
}

/// The longest flat sequence a table can stand for: run ends are `u32`, and the
/// length has to fit `usize`.
pub open spec fn max_len() -> int {
    if usize::MAX <= u32::MAX {
        usize::MAX as int
    } else {
        u32::MAX as int + 1
    }
}

/// The run ends grow strictly from each run to every later one.
pub open spec fn increasing(ends: Seq<u32>) -> bool {
    forall|i: int, j: int| 0 <= i < j < ends.len() ==> ends[i] < ends[j]
}

/// No run has the value of the run before it.
pub open spec fn no_equal_neighbors<T>(values: Seq<T>) -> bool {
    forall|i: int| 0 < i < values.len() ==> values[i - 1] != #[trigger] values[i]
}

/// The invariant of a run table.
pub open spec fn well_formed<T>(ends: Seq<u32>, values: Seq<T>) -> bool {
    &&& ends.len() == values.len()
    &&& increasing(ends)
    &&& no_equal_neighbors(values)
    &&& total_len(ends) <= max_len()
}

/// The flat index at which run `p` starts: one past the end of the run before
/// it, and 0 for the first run.
pub open spec fn run_start(ends: Seq<u32>, p: int) -> int {
    if p <= 0 {
        0
    } else {
        ends[p - 1] as int + 1
    }
}

/// The number of flat elements: one past the last run end, and 0 for no runs.
pub open spec fn total_len(ends: Seq<u32>) -> int {
    if ends.len() == 0 {
        0
    } else {
        ends.last() as int + 1
    }
}

/// Run `p` holds the flat index `i`.
pub open spec fn covers(ends: Seq<u32>, p: int, i: int) -> bool {
    0 <= p < ends.len() && run_start(ends, p) <= i <= ends[p]
}

/// The run that holds the flat index `i`.
pub open spec fn run_of(ends: Seq<u32>, i: int) -> int {
    choose|p: int| covers(ends, p, i)
}

/// The flat sequence a table stands for: each run's value once per index the
/// run holds.
pub open spec fn expand<T>(ends: Seq<u32>, values: Seq<T>) -> Seq<T> {
    Seq::new(total_len(ends) as nat, |i: int| values[run_of(ends, i)])
}

/// `flat` has the table's length and, wherever a run holds an index, that run's
/// value there.
pub open spec fn represents<T>(ends: Seq<u32>, values: Seq<T>, flat: Seq<T>) -> bool {
    &&& flat.len() == total_len(ends)
    &&& forall|p: int, i: int| #[trigger] covers(ends, p, i) ==> flat[i] == values[p]
}

/// The number of flat indices that run `p` holds.
pub open spec fn run_len(ends: Seq<u32>, p: int) -> int {
    ends[p] as int + 1 - run_start(ends, p)
}

/// `flat` with the `count` elements from `start` on replaced by `value`.
pub open spec fn fill<T>(flat: Seq<T>, start: int, count: int, value: T) -> Seq<T> {
    Seq::new(
        flat.len(),
        |i: int|
            if start <= i < start + count {
                value
            } else {
                flat[i]
            },
    )
}

/// `value` repeated `count` times.
pub open spec fn repeat<T>(value: T, count: int) -> Seq<T> {
    Seq::new(count as nat, |i: int| value)
}

/// The number of runs that appending `count` times `value` adds to a table that
/// stands for `flat`: none when nothing is appended or the last element has the
/// value, else one.
pub open spec fn runs_added<T>(flat: Seq<T>, count: int, value: T) -> int {
    if count <= 0 || (flat.len() > 0 && flat.last() == value) {
        0
    } else {
        1
    }
}

/// At most one run holds a given index.
pub proof fn lemma_covers_unique(ends: Seq<u32>, p: int, q: int, i: int)
    requires
        increasing(ends),
        covers(ends, p, i),
        covers(ends, q, i),
    ensures
        p == q,
{
    if p < q {
        assert(ends[p] <= ends[q - 1]);
    }
    if q < p {
        assert(ends[q] <= ends[p - 1]);
    }
}

/// The run that holds an index is the one `run_of` names.
pub proof fn lemma_run_of(ends: Seq<u32>, p: int, i: int)
    requires
        increasing(ends),
        covers(ends, p, i),
    ensures
        run_of(ends, i) == p,
{
    lemma_covers_unique(ends, p, run_of(ends, i), i);
}

proof fn lemma_find_run(ends: Seq<u32>, i: int, k: int)
    requires
        increasing(ends),
        0 <= k < ends.len(),
        run_start(ends, k) <= i <= ends.last(),
    ensures
        covers(ends, run_of(ends, i), i),
    decreases ends.len() - k,
{
    if i <= ends[k] {
        assert(covers(ends, k, i));
    } else {
        lemma_find_run(ends, i, k + 1);
    }
}

/// Every index below the total length is held by a run.
pub proof fn lemma_covered(ends: Seq<u32>, i: int)
    requires
        increasing(ends),
        0 <= i < total_len(ends),
    ensures
        covers(ends, run_of(ends, i), i),
{
    lemma_find_run(ends, i, 0);
}

/// The flat sequence of a table with increasing ends is represented by it.
pub proof fn lemma_expand_represents<T>(ends: Seq<u32>, values: Seq<T>)
    requires
        increasing(ends),
    ensures
        represents(ends, values, expand(ends, values)),
{
    let flat = expand(ends, values);
    assert forall|p: int, i: int| #[trigger] covers(ends, p, i) implies flat[i] == values[p] by {
        lemma_run_of(ends, p, i);
        assert(i <= ends[p] <= ends.last());
    }
}

/// A table with increasing ends represents one flat sequence only.
pub proof fn lemma_represents_expand<T>(ends: Seq<u32>, values: Seq<T>, flat: Seq<T>)
    requires
        increasing(ends),
        represents(ends, values, flat),
    ensures
        flat == expand(ends, values),
{
    let other = expand(ends, values);
    assert forall|i: int| 0 <= i < flat.len() implies flat[i] == other[i] by {
        lemma_covered(ends, i);
        assert(covers(ends, run_of(ends, i), i));
    }
    assert(flat =~= other);
}

/// A run's end is at least its position: the ends grow by one or more per run.
pub proof fn lemma_end_bounds_position(ends: Seq<u32>, p: int)
    requires
        increasing(ends),
        0 <= p < ends.len(),
    ensures
        ends[p] >= p,
    decreases p,
{
    if p > 0 {
        lemma_end_bounds_position(ends, p - 1);
    }
}

/// A table has no more runs than flat elements.
pub proof fn lemma_runs_bounded(ends: Seq<u32>)
    requires
        increasing(ends),
    ensures
        ends.len() <= total_len(ends),
{
    if ends.len() > 0 {
        lemma_end_bounds_position(ends, ends.len() - 1);
    }
}

/// From one run to a later one the end grows by at least the number of runs
/// between them.
pub proof fn lemma_end_gap(ends: Seq<u32>, p: int, q: int)
    requires
        increasing(ends),
        0 <= p <= q < ends.len(),
    ensures
        ends[q] - ends[p] >= q - p,
    decreases q - p,
{
    if p < q {
        lemma_end_gap(ends, p, q - 1);
    }
}

/// A run of several elements leaves the table with fewer runs than elements: by
/// as many as the run has elements beyond its first.
pub proof fn lemma_runs_bounded_by_run(ends: Seq<u32>, p: int)
    requires
        increasing(ends),
        0 <= p < ends.len(),
    ensures
        ends.len() + run_len(ends, p) - 1 <= total_len(ends),
{
    if p > 0 {
        lemma_end_bounds_position(ends, p - 1);
    }
    lemma_end_gap(ends, p, ends.len() - 1);
}

/// The empty table stands for the empty sequence.
pub proof fn lemma_expand_empty<T>(ends: Seq<u32>, values: Seq<T>)
    requires
        ends.len() == 0,
    ensures
        expand(ends, values) == Seq::<T>::empty(),
{
    assert(expand(ends, values) =~= Seq::<T>::empty());
}

} // verus!
