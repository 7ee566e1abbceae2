//! What each change of a run table does to the flat sequence it stands for:
//! one lemma for each way in which an append, a point write, a range write, an
//! insertion or a removal reshapes the runs. Each lemma speaks of plain
//! sequences of run ends and run values.

use crate::model::{
    covers, expand, fill, increasing, lemma_expand_represents, lemma_represents_expand, max_len,
    no_equal_neighbors, repeat, represents, run_start, total_len, well_formed,
};
use vstd::prelude::*;

verus! {

/// The run of `index` already has the value: nothing changes.
pub proof fn lemma_set_same<T>(ends: Seq<u32>, values: Seq<T>, p: int, index: int, value: T)
    requires
        well_formed(ends, values),
        covers(ends, p, index),
        values[p] == value,
    ensures
        expand(ends, values) == expand(ends, values).update(index, value),
{
    lemma_expand_represents(ends, values);
    assert(expand(ends, values) =~= expand(ends, values).update(index, value));
}

/// A run of one element between two runs of the new value: both it and the run
/// before it leave, and the run behind takes all three stretches.
pub proof fn lemma_set_joins_both<T>(ends: Seq<u32>, values: Seq<T>, p: int, index: int, value: T)
    requires
        well_formed(ends, values),
        covers(ends, p, index),
        run_start(ends, p) == ends[p],
        0 < p < ends.len() - 1,
        values[p - 1] == value,
        values[p + 1] == value,
    ensures
        well_formed(ends.remove(p).remove(p - 1), values.remove(p).remove(p - 1)),
        expand(ends.remove(p).remove(p - 1), values.remove(p).remove(p - 1)) == expand(
            ends,
            values,
        ).update(index, value),
{
    lemma_expand_represents(ends, values);
    let flat = expand(ends, values);
    let target = flat.update(index, value);
    let e1 = ends.remove(p).remove(p - 1);
    let v1 = values.remove(p).remove(p - 1);
    assert forall|q: int, i: int| #[trigger] covers(e1, q, i) implies target[i] == v1[q] by {
        if q < p - 1 {
            assert(covers(ends, q, i));
        } else if q == p - 1 {
            if i < index {
                assert(covers(ends, p - 1, i));
            } else if i > index {
                assert(covers(ends, p + 1, i));
            }
        } else {
            assert(covers(ends, q + 2, i));
        }
    }
    assert forall|i: int| 0 < i < v1.len() implies v1[i - 1] != #[trigger] v1[i] by {
        if i < p - 1 {
            assert(values[i - 1] != values[i]);
        } else if i == p - 1 {
            assert(values[p - 2] != values[p - 1]);
        } else {
            assert(values[i + 1] != values[i + 2]);
        }
    }
    lemma_represents_expand(e1, v1, target);
}

/// A run of one element behind a run of the new value: it leaves, and the run
/// before it grows by one.
pub proof fn lemma_set_joins_previous<T>(
    ends: Seq<u32>,
    values: Seq<T>,
    p: int,
    index: int,
    value: T,
)
    requires
        well_formed(ends, values),
        covers(ends, p, index),
        run_start(ends, p) == ends[p],
        0 < p,
        values[p - 1] == value,
        p + 1 < ends.len() ==> values[p + 1] != value,
    ensures
        well_formed(ends.remove(p).update(p - 1, ends[p]), values.remove(p)),
        expand(ends.remove(p).update(p - 1, ends[p]), values.remove(p)) == expand(
            ends,
            values,
        ).update(index, value),
{
    lemma_expand_represents(ends, values);
    let flat = expand(ends, values);
    let target = flat.update(index, value);
    let e1 = ends.remove(p).update(p - 1, ends[p]);
    let v1 = values.remove(p);
    assert forall|q: int, i: int| #[trigger] covers(e1, q, i) implies target[i] == v1[q] by {
        if q < p - 1 {
            assert(covers(ends, q, i));
        } else if q == p - 1 {
            if i < index {
                assert(covers(ends, p - 1, i));
            }
        } else {
            assert(covers(ends, q + 1, i));
        }
    }
    assert forall|i: int| 0 < i < v1.len() implies v1[i - 1] != #[trigger] v1[i] by {
        if i < p {
            assert(values[i - 1] != values[i]);
        } else {
            assert(values[i] != values[i + 1]);
        }
    }
    lemma_represents_expand(e1, v1, target);
}

/// A run of one element before a run of the new value: it leaves, and the run
/// behind it starts one earlier.
pub proof fn lemma_set_joins_next<T>(ends: Seq<u32>, values: Seq<T>, p: int, index: int, value: T)
    requires
        well_formed(ends, values),
        covers(ends, p, index),
        run_start(ends, p) == ends[p],
        p > 0 ==> values[p - 1] != value,
        p + 1 < ends.len(),
        values[p + 1] == value,
    ensures
        well_formed(ends.remove(p), values.remove(p)),
        expand(ends.remove(p), values.remove(p)) == expand(ends, values).update(index, value),
{
    lemma_expand_represents(ends, values);
    let flat = expand(ends, values);
    let target = flat.update(index, value);
    let e1 = ends.remove(p);
    let v1 = values.remove(p);
    assert forall|q: int, i: int| #[trigger] covers(e1, q, i) implies target[i] == v1[q] by {
        if q < p {
            assert(covers(ends, q, i));
        } else if i != index {
            assert(covers(ends, q + 1, i));
        }
    }
    assert forall|i: int| 0 < i < v1.len() implies v1[i - 1] != #[trigger] v1[i] by {
        if i < p {
            assert(values[i - 1] != values[i]);
        } else {
            assert(values[i] != values[i + 1]);
        }
    }
    lemma_represents_expand(e1, v1, target);
}

/// A run of one element with no neighbour of the new value: it takes the value.
pub proof fn lemma_set_replaces<T>(ends: Seq<u32>, values: Seq<T>, p: int, index: int, value: T)
    requires
        well_formed(ends, values),
        covers(ends, p, index),
        run_start(ends, p) == ends[p],
        p > 0 ==> values[p - 1] != value,
        p + 1 < ends.len() ==> values[p + 1] != value,
    ensures
        well_formed(ends, values.update(p, value)),
        expand(ends, values.update(p, value)) == expand(ends, values).update(index, value),
{
    lemma_expand_represents(ends, values);
    let flat = expand(ends, values);
    let target = flat.update(index, value);
    let v1 = values.update(p, value);
    assert forall|q: int, i: int| #[trigger] covers(ends, q, i) implies target[i] == v1[q] by {
        if q != p {
            assert(covers(ends, q, i));
        }
    }
    assert forall|i: int| 0 < i < v1.len() implies v1[i - 1] != #[trigger] v1[i] by {
        assert(values[i - 1] != values[i]);
    }
    lemma_represents_expand(ends, v1, target);
}

/// The first element of a longer run, behind a run of the new value: the run
/// before grows by one.
pub proof fn lemma_set_first_joins<T>(
    ends: Seq<u32>,
    values: Seq<T>,
    p: int,
    index: int,
    value: T,
)
    requires
        well_formed(ends, values),
        covers(ends, p, index),
        index == run_start(ends, p),
        index < ends[p],
        0 < p,
        values[p - 1] == value,
    ensures
        well_formed(ends.update(p - 1, index as u32), values),
        expand(ends.update(p - 1, index as u32), values) == expand(ends, values).update(
            index,
            value,
        ),
{
    lemma_expand_represents(ends, values);
    let flat = expand(ends, values);
    let target = flat.update(index, value);
    let e1 = ends.update(p - 1, index as u32);
    assert forall|q: int, i: int| #[trigger] covers(e1, q, i) implies target[i] == values[q] by {
        if i != index {
            assert(covers(ends, q, i));
        }
    }
    lemma_represents_expand(e1, values, target);
}

/// The first element of a longer run, with no run of the new value before it: a
/// run of one element is put before the run.
pub proof fn lemma_set_first_splits<T>(
    ends: Seq<u32>,
    values: Seq<T>,
    p: int,
    index: int,
    value: T,
)
    requires
        well_formed(ends, values),
        covers(ends, p, index),
        index == run_start(ends, p),
        index < ends[p],
        values[p] != value,
        p > 0 ==> values[p - 1] != value,
    ensures
        well_formed(ends.insert(p, index as u32), values.insert(p, value)),
        expand(ends.insert(p, index as u32), values.insert(p, value)) == expand(
            ends,
            values,
        ).update(index, value),
{
    lemma_expand_represents(ends, values);
    let flat = expand(ends, values);
    let target = flat.update(index, value);
    let e1 = ends.insert(p, index as u32);
    let v1 = values.insert(p, value);
    assert forall|q: int, i: int| #[trigger] covers(e1, q, i) implies target[i] == v1[q] by {
        if q < p {
            assert(covers(ends, q, i));
        } else if q > p {
            assert(covers(ends, q - 1, i));
        }
    }
    assert forall|i: int| 0 < i < v1.len() implies v1[i - 1] != #[trigger] v1[i] by {
        if i < p {
            assert(values[i - 1] != values[i]);
        } else if i > p + 1 {
            assert(values[i - 2] != values[i - 1]);
        }
    }
    assert forall|i: int, j: int| 0 <= i < j < e1.len() implies e1[i] < e1[j] by {
        if i < p && j > p {
            assert(ends[i] < ends[j - 1]);
        } else if i == p {
            assert(ends[p] <= ends[j - 1]);
        } else if j == p {
            assert(ends[i] <= ends[p - 1]);
        } else if j < p {
            assert(ends[i] < ends[j]);
        } else {
            assert(ends[i - 1] < ends[j - 1]);
        }
    }
    lemma_represents_expand(e1, v1, target);
}

/// The last element of a longer run, before a run of the new value: the run
/// loses its last index to the run behind.
pub proof fn lemma_set_last_joins<T>(ends: Seq<u32>, values: Seq<T>, p: int, index: int, value: T)
    requires
        well_formed(ends, values),
        covers(ends, p, index),
        index == ends[p],
        run_start(ends, p) < index,
        p + 1 < ends.len(),
        values[p + 1] == value,
    ensures
        well_formed(ends.update(p, (index - 1) as u32), values),
        expand(ends.update(p, (index - 1) as u32), values) == expand(ends, values).update(
            index,
            value,
        ),
{
    lemma_expand_represents(ends, values);
    let flat = expand(ends, values);
    let target = flat.update(index, value);
    let e1 = ends.update(p, (index - 1) as u32);
    assert forall|q: int, i: int| #[trigger] covers(e1, q, i) implies target[i] == values[q] by {
        if i != index {
            assert(covers(ends, q, i));
        }
    }
    assert forall|i: int, j: int| 0 <= i < j < e1.len() implies e1[i] < e1[j] by {
        assert(ends[i] < ends[j]);
        if j == p && i == p - 1 {
        } else if j == p {
            assert(ends[i] < ends[p - 1]);
        }
    }
    lemma_represents_expand(e1, values, target);
}

/// The last element of a longer run, with no run of the new value behind it: the
/// run loses its last index to a new run of one element.
pub proof fn lemma_set_last_splits<T>(
    ends: Seq<u32>,
    values: Seq<T>,
    p: int,
    index: int,
    value: T,
)
    requires
        well_formed(ends, values),
        covers(ends, p, index),
        index == ends[p],
        run_start(ends, p) < index,
        values[p] != value,
        p + 1 < ends.len() ==> values[p + 1] != value,
    ensures
        well_formed(
            ends.update(p, (index - 1) as u32).insert(p + 1, index as u32),
            values.insert(p + 1, value),
        ),
        expand(
            ends.update(p, (index - 1) as u32).insert(p + 1, index as u32),
            values.insert(p + 1, value),
        ) == expand(ends, values).update(index, value),
{
    lemma_expand_represents(ends, values);
    let flat = expand(ends, values);
    let target = flat.update(index, value);
    let e1 = ends.update(p, (index - 1) as u32).insert(p + 1, index as u32);
    let v1 = values.insert(p + 1, value);
    assert forall|q: int, i: int| #[trigger] covers(e1, q, i) implies target[i] == v1[q] by {
        if q <= p {
            assert(covers(ends, q, i));
        } else if q > p + 1 {
            assert(covers(ends, q - 1, i));
        }
    }
    assert forall|i: int| 0 < i < v1.len() implies v1[i - 1] != #[trigger] v1[i] by {
        if i <= p {
            assert(values[i - 1] != values[i]);
        } else if i > p + 2 {
            assert(values[i - 2] != values[i - 1]);
        }
    }
    assert forall|i: int, j: int| 0 <= i < j < e1.len() implies e1[i] < e1[j] by {
        if j <= p {
            assert(ends[i] < ends[j]);
            if j == p && i < p - 1 {
                assert(ends[i] < ends[p - 1]);
            }
        } else if j == p + 1 {
            if i < p {
                assert(ends[i] < ends[p]);
            }
        } else {
            if i < p {
                assert(ends[i] < ends[j - 1]);
            } else if i == p || i == p + 1 {
                assert(ends[p] <= ends[j - 1]);
            } else {
                assert(ends[i - 1] < ends[j - 1]);
            }
        }
    }
    lemma_represents_expand(e1, v1, target);
}

/// An element inside a longer run: the run is cut in three, with a run of one
/// element in the middle and the old value on both sides.
#[verifier::rlimit(40)]
pub proof fn lemma_set_splits_inside<T>(
    ends: Seq<u32>,
    values: Seq<T>,
    p: int,
    index: int,
    value: T,
)
    requires
        well_formed(ends, values),
        covers(ends, p, index),
        run_start(ends, p) < index < ends[p],
        values[p] != value,
    ensures
        well_formed(
            ends.update(p, (index - 1) as u32).insert(p + 1, index as u32).insert(p + 2, ends[p]),
            values.insert(p + 1, value).insert(p + 2, values[p]),
        ),
        expand(
            ends.update(p, (index - 1) as u32).insert(p + 1, index as u32).insert(p + 2, ends[p]),
            values.insert(p + 1, value).insert(p + 2, values[p]),
        ) == expand(ends, values).update(index, value),
{
    lemma_expand_represents(ends, values);
    let flat = expand(ends, values);
    let target = flat.update(index, value);
    let e1 = ends.update(p, (index - 1) as u32).insert(p + 1, index as u32).insert(
        p + 2,
        ends[p],
    );
    let v1 = values.insert(p + 1, value).insert(p + 2, values[p]);
    assert forall|q: int, i: int| #[trigger] covers(e1, q, i) implies target[i] == v1[q] by {
        if q <= p {
            assert(covers(ends, q, i));
        } else if q == p + 2 {
            assert(covers(ends, p, i));
        } else if q > p + 2 {
            assert(covers(ends, q - 2, i));
        }
    }
    assert forall|i: int| 0 < i < v1.len() implies v1[i - 1] != #[trigger] v1[i] by {
        if i <= p {
            assert(values[i - 1] != values[i]);
        } else if i > p + 2 {
            assert(values[i - 3] != values[i - 2]);
        }
    }
    assert forall|i: int, j: int| 0 <= i < j < e1.len() implies e1[i] < e1[j] by {
        let oi = if i <= p {
            i
        } else if i <= p + 2 {
            p
        } else {
            i - 2
        };
        let oj = if j <= p {
            j
        } else if j <= p + 2 {
            p
        } else {
            j - 2
        };
        if oi < oj {
            assert(ends[oi] < ends[oj]);
        }
        if j == p && i < p - 1 {
            assert(ends[i] < ends[p - 1]);
        }
        if j == p + 1 && i < p - 1 {
            assert(ends[i] < ends[p - 1]);
        }
    }
    lemma_represents_expand(e1, v1, target);
}

/// The first run that a range write from `start` on replaces: the run `a` of
/// `start` when the range begins with it, else the run behind it.
pub open spec fn span_from(ends: Seq<u32>, a: int, start: int) -> int {
    if start == run_start(ends, a) {
        a
    } else {
        a + 1
    }
}

/// One past the last run that a range write up to `end` replaces: the run `b` of
/// `end` is among them when the range ends with it.
pub open spec fn span_to(ends: Seq<u32>, b: int, end: int) -> int {
    if end == ends[b] {
        b + 1
    } else {
        b
    }
}

/// The run ends after a range write over `start..=end`, where `a` and `b` are
/// the runs of its two ends: one run stands for the range, and a run that the
/// range only cuts into keeps what lies outside.
pub open spec fn span_ends(ends: Seq<u32>, a: int, b: int, start: int, end: int) -> Seq<u32> {
    let from = span_from(ends, a, start);
    let to = span_to(ends, b, end);
    let replaced = ends.subrange(0, from).push(end as u32) + ends.subrange(
        to,
        ends.len() as int,
    );
    if from == a {
        replaced
    } else {
        replaced.update(a, (start - 1) as u32)
    }
}

/// The run values after a range write: see [`span_ends`].
pub open spec fn span_values<T>(
    ends: Seq<u32>,
    values: Seq<T>,
    a: int,
    b: int,
    start: int,
    end: int,
    value: T,
) -> Seq<T> {
    let from = span_from(ends, a, start);
    let to = span_to(ends, b, end);
    values.subrange(0, from).push(value) + values.subrange(to, values.len() as int)
}

/// What a range write relies on once its range has been widened over the
/// neighbours that already hold the value: the runs of its two ends are known,
/// and no run that stays beside the new run has the value.
pub open spec fn span_ready<T>(
    ends: Seq<u32>,
    values: Seq<T>,
    a: int,
    b: int,
    start: int,
    end: int,
    value: T,
) -> bool {
    &&& well_formed(ends, values)
    &&& covers(ends, a, start)
    &&& covers(ends, b, end)
    &&& start <= end
    &&& start == run_start(ends, a) && a > 0 ==> values[a - 1] != value
    &&& start != run_start(ends, a) ==> values[a] != value
    &&& end == ends[b] && b + 1 < ends.len() ==> values[b + 1] != value
    &&& end != ends[b] ==> values[b] != value
}

/// Where a range write that begins at `first`, in run `left`, begins once it is
/// widened, and the run of that index: the whole of `left` is taken in when it
/// has the value, and then the run before it when that has the value.
pub open spec fn widen_left<T>(
    ends: Seq<u32>,
    values: Seq<T>,
    left: int,
    first: int,
    value: T,
) -> (int, int) {
    let start = if values[left] == value {
        run_start(ends, left)
    } else {
        first
    };
    if start == run_start(ends, left) && left > 0 && values[left - 1] == value {
        (run_start(ends, left - 1), left - 1)
    } else {
        (start, left)
    }
}

/// Where a range write that ends at `last`, in run `right`, ends once it is
/// widened, and the run of that index.
pub open spec fn widen_right<T>(
    ends: Seq<u32>,
    values: Seq<T>,
    right: int,
    last: int,
    value: T,
) -> (int, int) {
    let end = if values[right] == value {
        ends[right] as int
    } else {
        last
    };
    if end == ends[right] && right + 1 < ends.len() && values[right + 1] == value {
        (ends[right + 1] as int, right + 1)
    } else {
        (end, right)
    }
}

/// Widening a range write changes nothing in what it writes, and leaves no run
/// of the value beside the range.
pub proof fn lemma_span_widened<T>(
    ends: Seq<u32>,
    values: Seq<T>,
    left: int,
    right: int,
    first: int,
    last: int,
    value: T,
)
    requires
        well_formed(ends, values),
        covers(ends, left, first),
        covers(ends, right, last),
        first <= last,
    ensures
        ({
            let (start, a) = widen_left(ends, values, left, first, value);
            let (end, b) = widen_right(ends, values, right, last, value);
            &&& span_ready(ends, values, a, b, start, end, value)
            &&& 0 <= start <= first
            &&& last <= end <= u32::MAX
            &&& fill(expand(ends, values), start, end - start + 1, value) == fill(
                expand(ends, values),
                first,
                last - first + 1,
                value,
            )
        }),
{
    lemma_expand_represents(ends, values);
    let flat = expand(ends, values);
    let (start, a) = widen_left(ends, values, left, first, value);
    let (end, b) = widen_right(ends, values, right, last, value);
    if left > 0 {
        assert(values[left - 1] != values[left]);
    }
    if a > 0 {
        assert(values[a - 1] != values[a]);
    }
    if right + 1 < ends.len() {
        assert(values[right] != values[right + 1]);
    }
    if b + 1 < ends.len() {
        assert(values[b] != values[b + 1]);
    }
    assert(ends[b] <= ends.last());
    assert forall|i: int| start <= i < first implies flat[i] == value by {
        if i >= run_start(ends, left) {
            assert(covers(ends, left, i));
        } else {
            assert(covers(ends, left - 1, i));
        }
    }
    assert forall|i: int| last < i <= end implies flat[i] == value by {
        if i <= ends[right] {
            assert(covers(ends, right, i));
        } else {
            assert(covers(ends, right + 1, i));
        }
    }
    assert(fill(flat, start, end - start + 1, value) =~= fill(
        flat,
        first,
        last - first + 1,
        value,
    ));
}

/// The runs after a range write, one by one: those before the range stay, the
/// run the range cuts into at its left ends before it, one run stands for the
/// range, and those behind it stay.
pub proof fn lemma_span_shape<T>(
    ends: Seq<u32>,
    values: Seq<T>,
    a: int,
    b: int,
    start: int,
    end: int,
    value: T,
)
    requires
        span_ready(ends, values, a, b, start, end, value),
        span_from(ends, a, start) <= span_to(ends, b, end),
    ensures
        ({
            let from = span_from(ends, a, start);
            let to = span_to(ends, b, end);
            let e1 = span_ends(ends, a, b, start, end);
            let v1 = span_values(ends, values, a, b, start, end, value);
            &&& e1.len() == from + 1 + ends.len() - to
            &&& v1.len() == e1.len()
            &&& forall|j: int|
                0 <= j < e1.len() ==> #[trigger] e1[j] == (if j < from {
                    if j == a {
                        start - 1
                    } else {
                        ends[j] as int
                    }
                } else if j == from {
                    end
                } else {
                    ends[j - from - 1 + to] as int
                })
            &&& forall|j: int|
                0 <= j < v1.len() ==> #[trigger] v1[j] == (if j < from {
                    values[j]
                } else if j == from {
                    value
                } else {
                    values[j - from - 1 + to]
                })
        }),
{
    let from = span_from(ends, a, start);
    let to = span_to(ends, b, end);
    let replaced = ends.subrange(0, from).push(end as u32) + ends.subrange(to, ends.len() as int);
    assert(replaced.len() == from + 1 + ends.len() - to);
    assert forall|j: int| 0 <= j < replaced.len() implies #[trigger] replaced[j] == (if j
        < from {
        ends[j] as int
    } else if j == from {
        end
    } else {
        ends[j - from - 1 + to] as int
    }) by {}
}

/// A range write that replaces whole runs, or cuts into a run at one side only,
/// keeps the invariant.
pub proof fn lemma_span_well_formed<T>(
    ends: Seq<u32>,
    values: Seq<T>,
    a: int,
    b: int,
    start: int,
    end: int,
    value: T,
)
    requires
        span_ready(ends, values, a, b, start, end, value),
        span_from(ends, a, start) <= span_to(ends, b, end),
    ensures
        well_formed(
            span_ends(ends, a, b, start, end),
            span_values(ends, values, a, b, start, end, value),
        ),
{
    let from = span_from(ends, a, start);
    let to = span_to(ends, b, end);
    let e1 = span_ends(ends, a, b, start, end);
    let v1 = span_values(ends, values, a, b, start, end, value);
    if a < b {
        assert(ends[a] <= ends[b - 1]);
    }
    assert forall|i: int| 0 < i < v1.len() implies v1[i - 1] != #[trigger] v1[i] by {
        if i < from {
            assert(values[i - 1] != values[i]);
        } else if i > from + 1 {
            assert(values[i - from - 2 + to] != values[i - from - 1 + to]);
        }
    }
    assert forall|i: int, j: int| 0 <= i < j < e1.len() implies e1[i] < e1[j] by {
        if j < from {
            assert(ends[i] < ends[j]);
            if j == a && i < a - 1 {
                assert(ends[i] < ends[a - 1]);
            }
        } else if j == from {
            if i < a {
                assert(ends[i] <= ends[a - 1]) by {
                    if i < a - 1 {
                        assert(ends[i] < ends[a - 1]);
                    }
                }
            }
        } else {
            let oj = j - from - 1 + to;
            assert(ends[b] <= ends[oj]) by {
                if b < oj {
                    assert(ends[b] < ends[oj]);
                }
            }
            if i < from {
                assert(ends[i] < ends[oj]);
            } else if i > from {
                assert(ends[i - from - 1 + to] < ends[oj]);
            }
        }
    }
    if to < ends.len() {
        assert(e1.last() == ends.last());
    } else {
        assert(e1.last() == end);
        assert(ends[b] <= ends.last());
    }
}

/// A range write that replaces whole runs, or cuts into a run at one side only,
/// fills the range with the value and leaves the rest.
#[verifier::rlimit(40)]
pub proof fn lemma_span_fills<T>(
    ends: Seq<u32>,
    values: Seq<T>,
    a: int,
    b: int,
    start: int,
    end: int,
    value: T,
)
    requires
        span_ready(ends, values, a, b, start, end, value),
        span_from(ends, a, start) <= span_to(ends, b, end),
    ensures
        expand(
            span_ends(ends, a, b, start, end),
            span_values(ends, values, a, b, start, end, value),
        ) == fill(expand(ends, values), start, end - start + 1, value),
{
    lemma_expand_represents(ends, values);
    lemma_span_well_formed(ends, values, a, b, start, end, value);
    lemma_span_shape(ends, values, a, b, start, end, value);
    let from = span_from(ends, a, start);
    let to = span_to(ends, b, end);
    let e1 = span_ends(ends, a, b, start, end);
    let v1 = span_values(ends, values, a, b, start, end, value);
    let target = fill(expand(ends, values), start, end - start + 1, value);
    assert(ends[b] <= ends.last());
    if a < b {
        assert(ends[a] <= ends[b - 1]);
    }
    assert(represents(e1, v1, target)) by {
        assert(e1.last() == (if to < ends.len() {
            ends.last() as int
        } else {
            end
        }));
        assert forall|q: int, i: int| #[trigger] covers(e1, q, i) implies target[i] == v1[q] by {
            if q < from {
                assert(covers(ends, q, i));
            } else if q > from {
                assert(covers(ends, q - from - 1 + to, i));
            }
        }
    }
    lemma_represents_expand(e1, v1, target);
}

/// A range write inside one run cuts it in three: the range stands between two
/// runs of the old value.
#[verifier::rlimit(40)]
pub proof fn lemma_span_inside<T>(
    ends: Seq<u32>,
    values: Seq<T>,
    a: int,
    start: int,
    end: int,
    value: T,
)
    requires
        span_ready(ends, values, a, a, start, end, value),
        run_start(ends, a) < start,
        end < ends[a],
    ensures
        well_formed(
            ends.update(a, (start - 1) as u32).insert(a + 1, end as u32).insert(a + 2, ends[a]),
            values.insert(a + 1, value).insert(a + 2, values[a]),
        ),
        expand(
            ends.update(a, (start - 1) as u32).insert(a + 1, end as u32).insert(a + 2, ends[a]),
            values.insert(a + 1, value).insert(a + 2, values[a]),
        ) == fill(expand(ends, values), start, end - start + 1, value),
{
    lemma_expand_represents(ends, values);
    let target = fill(expand(ends, values), start, end - start + 1, value);
    let e1 = ends.update(a, (start - 1) as u32).insert(a + 1, end as u32).insert(a + 2, ends[a]);
    let v1 = values.insert(a + 1, value).insert(a + 2, values[a]);
    assert forall|q: int, i: int| #[trigger] covers(e1, q, i) implies target[i] == v1[q] by {
        if q <= a {
            assert(covers(ends, q, i));
        } else if q == a + 2 {
            assert(covers(ends, a, i));
        } else if q > a + 2 {
            assert(covers(ends, q - 2, i));
        }
    }
    assert forall|i: int| 0 < i < v1.len() implies v1[i - 1] != #[trigger] v1[i] by {
        if i <= a {
            assert(values[i - 1] != values[i]);
        } else if i > a + 2 {
            assert(values[i - 3] != values[i - 2]);
        }
    }
    assert forall|i: int, j: int| 0 <= i < j < e1.len() implies e1[i] < e1[j] by {
        let oi = if i <= a {
            i
        } else if i <= a + 2 {
            a
        } else {
            i - 2
        };
        let oj = if j <= a {
            j
        } else if j <= a + 2 {
            a
        } else {
            j - 2
        };
        if oi < oj {
            assert(ends[oi] < ends[oj]);
        }
        if (j == a || j == a + 1) && i < a - 1 {
            assert(ends[i] < ends[a - 1]);
        }
    }
    lemma_represents_expand(e1, v1, target);
}

/// The run ends with `delta` added to each end from run `from` on.
pub open spec fn shift_ends(ends: Seq<u32>, from: int, delta: int) -> Seq<u32> {
    Seq::new(
        ends.len(),
        |j: int|
            if j >= from {
                (ends[j] + delta) as u32
            } else {
                ends[j]
            },
    )
}

/// Removing an element of a longer run: the run and all behind it end one
/// earlier.
pub proof fn lemma_remove_shrinks<T>(ends: Seq<u32>, values: Seq<T>, p: int, index: int)
    requires
        well_formed(ends, values),
        covers(ends, p, index),
        run_start(ends, p) < ends[p],
    ensures
        well_formed(shift_ends(ends, p, -1), values),
        expand(shift_ends(ends, p, -1), values) == expand(ends, values).remove(index),
        expand(ends, values)[index] == values[p],
{
    lemma_expand_represents(ends, values);
    let flat = expand(ends, values);
    assert(covers(ends, p, index));
    assert(ends[p] <= ends.last());
    let target = flat.remove(index);
    let e1 = shift_ends(ends, p, -1);
    assert forall|i: int, j: int| 0 <= i < j < e1.len() implies e1[i] < e1[j] by {
        assert(ends[i] < ends[j]);
        if j == p && i < p - 1 {
            assert(ends[i] < ends[p - 1]);
        }
    }
    assert forall|q: int, i: int| #[trigger] covers(e1, q, i) implies target[i] == values[q] by {
        if i < index {
            assert(covers(ends, q, i));
        } else {
            assert(covers(ends, q, i + 1));
        }
    }
    lemma_represents_expand(e1, values, target);
}

/// Removing the one element of a run whose neighbours differ: the run leaves
/// and all behind it end one earlier.
pub proof fn lemma_remove_drops<T>(ends: Seq<u32>, values: Seq<T>, p: int, index: int)
    requires
        well_formed(ends, values),
        covers(ends, p, index),
        run_start(ends, p) == ends[p],
        0 < p < ends.len() - 1 ==> values[p - 1] != values[p + 1],
    ensures
        well_formed(shift_ends(ends.remove(p), p, -1), values.remove(p)),
        expand(shift_ends(ends.remove(p), p, -1), values.remove(p)) == expand(
            ends,
            values,
        ).remove(index),
        expand(ends, values)[index] == values[p],
{
    lemma_expand_represents(ends, values);
    let flat = expand(ends, values);
    assert(covers(ends, p, index));
    assert(ends[p] <= ends.last());
    let target = flat.remove(index);
    let e1 = shift_ends(ends.remove(p), p, -1);
    let v1 = values.remove(p);
    assert forall|j: int| 0 <= j < e1.len() implies #[trigger] e1[j] == (if j < p {
        ends[j] as int
    } else {
        ends[j + 1] - 1
    }) by {
        if j >= p {
            assert(ends[p] < ends[j + 1]);
        }
    }
    assert forall|j: int| 0 <= j < v1.len() implies #[trigger] v1[j] == (if j < p {
        values[j]
    } else {
        values[j + 1]
    }) by {}
    assert(increasing(e1)) by {
        assert forall|i: int, j: int| 0 <= i < j < e1.len() implies e1[i] < e1[j] by {
            if j < p {
                assert(ends[i] < ends[j]);
            } else if i < p {
                assert(ends[i] < ends[p]);
                assert(ends[p] < ends[j + 1]);
            } else {
                assert(ends[i + 1] < ends[j + 1]);
            }
        }
    }
    assert(no_equal_neighbors(v1)) by {
        assert forall|i: int| 0 < i < v1.len() implies v1[i - 1] != #[trigger] v1[i] by {
            if i < p {
                assert(values[i - 1] != values[i]);
            } else if i > p {
                assert(values[i] != values[i + 1]);
            } else {
                assert(v1[p - 1] == values[p - 1]);
                assert(v1[p] == values[p + 1]);
            }
        }
    }
    assert(represents(e1, v1, target)) by {
        if e1.len() > 0 {
            if p < e1.len() {
                assert(e1.last() == ends.last() - 1);
            } else {
                assert(e1.last() == ends[p - 1]);
            }
        }
        assert forall|q: int, i: int| #[trigger] covers(e1, q, i) implies target[i] == v1[q] by {
            if q < p {
                assert(covers(ends, q, i));
            } else {
                assert(covers(ends, q + 1, i + 1));
            }
        }
    }
    lemma_represents_expand(e1, v1, target);
}

/// Removing the one element of a run between two runs of one value: the run
/// leaves, and its neighbours become one run.
#[verifier::rlimit(40)]
pub proof fn lemma_remove_merges<T>(ends: Seq<u32>, values: Seq<T>, p: int, index: int)
    requires
        well_formed(ends, values),
        covers(ends, p, index),
        run_start(ends, p) == ends[p],
        0 < p < ends.len() - 1,
        values[p - 1] == values[p + 1],
    ensures
        well_formed(
            shift_ends(ends.remove(p), p, -1).update(p - 1, (ends[p + 1] - 1) as u32).remove(p),
            values.remove(p).remove(p),
        ),
        expand(
            shift_ends(ends.remove(p), p, -1).update(p - 1, (ends[p + 1] - 1) as u32).remove(p),
            values.remove(p).remove(p),
        ) == expand(ends, values).remove(index),
        expand(ends, values)[index] == values[p],
{
    lemma_expand_represents(ends, values);
    let flat = expand(ends, values);
    assert(covers(ends, p, index));
    assert(ends[p] <= ends.last());
    let target = flat.remove(index);
    let e1 = shift_ends(ends.remove(p), p, -1).update(p - 1, (ends[p + 1] - 1) as u32).remove(p);
    let v1 = values.remove(p).remove(p);
    assert(ends[p] < ends[p + 1]);
    assert forall|i: int, j: int| 0 <= i < j < e1.len() implies e1[i] < e1[j] by {
        if j < p - 1 {
            assert(ends[i] < ends[j]);
        } else if j == p - 1 {
            assert(ends[i] < ends[p + 1]);
            assert(ends[i] < ends[p]);
        } else if i < p - 1 {
            assert(ends[i] < ends[p]);
            assert(ends[p] < ends[j + 2]);
        } else {
            assert(ends[i + 2] < ends[j + 2]);
        }
    }
    assert forall|i: int| 0 < i < v1.len() implies v1[i - 1] != #[trigger] v1[i] by {
        if i < p {
            assert(values[i - 1] != values[i]);
        } else if i == p {
            assert(values[p + 1] != values[p + 2]);
        } else {
            assert(values[i + 1] != values[i + 2]);
        }
    }
    assert forall|q: int, i: int| #[trigger] covers(e1, q, i) implies target[i] == v1[q] by {
        if q < p - 1 {
            assert(covers(ends, q, i));
        } else if q == p - 1 {
            if i < index {
                assert(covers(ends, p - 1, i));
            } else {
                assert(covers(ends, p + 1, i + 1));
            }
        } else {
            assert(covers(ends, q + 2, i + 1));
        }
    }
    assert(e1.last() <= ends.last());
    lemma_represents_expand(e1, v1, target);
}

/// Inserting the value of the run at `index`: the run and all behind it end one
/// later.
pub proof fn lemma_insert_widens<T>(ends: Seq<u32>, values: Seq<T>, p: int, index: int, value: T)
    requires
        well_formed(ends, values),
        covers(ends, p, index),
        ends.last() < u32::MAX,
        ends.last() + 1 < usize::MAX,
        values[p] == value,
    ensures
        well_formed(shift_ends(ends, p, 1), values),
        expand(shift_ends(ends, p, 1), values) == expand(ends, values).insert(index, value),
{
    lemma_expand_represents(ends, values);
    let flat = expand(ends, values);
    let target = flat.insert(index, value);
    let e1 = shift_ends(ends, p, 1);
    assert forall|i: int, j: int| 0 <= i < j < e1.len() implies e1[i] < e1[j] by {
        assert(ends[i] < ends[j] <= ends.last());
    }
    assert forall|q: int, i: int| #[trigger] covers(e1, q, i) implies target[i] == values[q] by {
        assert(ends[q] <= ends.last());
        if i < index {
            assert(covers(ends, q, i));
        } else if i > index {
            assert(covers(ends, q, i - 1));
        } else {
            assert(q == p) by {
                if q < p {
                    assert(ends[q] <= ends[p - 1]);
                }
                if q > p {
                    assert(ends[p] <= ends[q - 1]);
                }
            }
        }
    }
    lemma_represents_expand(e1, values, target);
}

/// Inserting at the start of a run, behind a run of the value: the run before
/// takes the new element.
pub proof fn lemma_insert_joins<T>(ends: Seq<u32>, values: Seq<T>, p: int, index: int, value: T)
    requires
        well_formed(ends, values),
        covers(ends, p, index),
        ends.last() < u32::MAX,
        ends.last() + 1 < usize::MAX,
        index == run_start(ends, p),
        0 < p,
        values[p - 1] == value,
    ensures
        well_formed(shift_ends(ends, p, 1).update(p - 1, index as u32), values),
        expand(shift_ends(ends, p, 1).update(p - 1, index as u32), values) == expand(
            ends,
            values,
        ).insert(index, value),
{
    lemma_expand_represents(ends, values);
    let flat = expand(ends, values);
    let target = flat.insert(index, value);
    let e1 = shift_ends(ends, p, 1).update(p - 1, index as u32);
    assert forall|i: int, j: int| 0 <= i < j < e1.len() implies e1[i] < e1[j] by {
        assert(ends[i] < ends[j] <= ends.last());
    }
    assert forall|q: int, i: int| #[trigger] covers(e1, q, i) implies target[i] == values[q] by {
        assert(ends[q] <= ends.last());
        if i < index {
            assert(covers(ends, q, i));
        } else if i > index {
            assert(covers(ends, q, i - 1));
        } else {
            assert(q == p - 1) by {
                if q < p - 1 {
                    assert(ends[q] < ends[p - 1]);
                }
                if q > p {
                    assert(ends[p] <= ends[q - 1]);
                }
            }
        }
    }
    lemma_represents_expand(e1, values, target);
}

/// Inserting another value at the start of a run, with no run of that value
/// before it: a run of one element is put before the run.
pub proof fn lemma_insert_before<T>(ends: Seq<u32>, values: Seq<T>, p: int, index: int, value: T)
    requires
        well_formed(ends, values),
        covers(ends, p, index),
        ends.last() < u32::MAX,
        ends.last() + 1 < usize::MAX,
        index == run_start(ends, p),
        values[p] != value,
        p > 0 ==> values[p - 1] != value,
    ensures
        well_formed(shift_ends(ends, p, 1).insert(p, index as u32), values.insert(p, value)),
        expand(shift_ends(ends, p, 1).insert(p, index as u32), values.insert(p, value)) == expand(
            ends,
            values,
        ).insert(index, value),
{
    lemma_expand_represents(ends, values);
    let flat = expand(ends, values);
    let target = flat.insert(index, value);
    let e1 = shift_ends(ends, p, 1).insert(p, index as u32);
    let v1 = values.insert(p, value);
    assert forall|j: int| 0 <= j < ends.len() implies #[trigger] ends[j] <= ends.last() by {
        if j < ends.len() - 1 {
            assert(ends[j] < ends.last());
        }
    }
    assert(e1.len() == ends.len() + 1);
    assert forall|j: int| 0 <= j < e1.len() implies #[trigger] e1[j] == (if j < p {
        ends[j] as int
    } else if j == p {
        index
    } else {
        ends[j - 1] + 1
    }) by {}
    assert forall|j: int| 0 <= j < v1.len() implies #[trigger] v1[j] == (if j < p {
        values[j]
    } else if j == p {
        value
    } else {
        values[j - 1]
    }) by {}
    assert(increasing(e1)) by {
        assert forall|i: int, j: int| 0 <= i < j < e1.len() implies e1[i] < e1[j] by {
            if j < p {
                assert(ends[i] < ends[j]);
            } else if j == p {
                if i < p - 1 {
                    assert(ends[i] < ends[p - 1]);
                }
            } else if i < p {
                assert(ends[i] < ends[j - 1]);
            } else if i > p {
                assert(ends[i - 1] < ends[j - 1]);
            } else if p < j - 1 {
                assert(ends[p] < ends[j - 1]);
            }
        }
    }
    assert(no_equal_neighbors(v1)) by {
        assert forall|i: int| 0 < i < v1.len() implies v1[i - 1] != #[trigger] v1[i] by {
            if i < p {
                assert(values[i - 1] != values[i]);
            } else if i > p + 1 {
                assert(values[i - 2] != values[i - 1]);
            }
        }
    }
    assert(represents(e1, v1, target)) by {
        assert(e1.last() == ends.last() + 1);
        assert forall|q: int, i: int| #[trigger] covers(e1, q, i) implies target[i] == v1[q] by {
            if q < p {
                assert(covers(ends, q, i));
            } else if q > p {
                assert(covers(ends, q - 1, i - 1));
            }
        }
    }
    lemma_represents_expand(e1, v1, target);
}

/// Inserting another value inside a run: the run is cut in two around a run of
/// one element.
#[verifier::rlimit(40)]
pub proof fn lemma_insert_inside<T>(ends: Seq<u32>, values: Seq<T>, p: int, index: int, value: T)
    requires
        well_formed(ends, values),
        covers(ends, p, index),
        ends.last() < u32::MAX,
        ends.last() + 1 < usize::MAX,
        run_start(ends, p) < index,
        values[p] != value,
    ensures
        well_formed(
            shift_ends(ends, p, 1).update(p, (index - 1) as u32).insert(
                p + 1,
                index as u32,
            ).insert(p + 2, (ends[p] + 1) as u32),
            values.insert(p + 1, value).insert(p + 2, values[p]),
        ),
        expand(
            shift_ends(ends, p, 1).update(p, (index - 1) as u32).insert(
                p + 1,
                index as u32,
            ).insert(p + 2, (ends[p] + 1) as u32),
            values.insert(p + 1, value).insert(p + 2, values[p]),
        ) == expand(ends, values).insert(index, value),
{
    lemma_expand_represents(ends, values);
    let flat = expand(ends, values);
    let target = flat.insert(index, value);
    let e1 = shift_ends(ends, p, 1).update(p, (index - 1) as u32).insert(
        p + 1,
        index as u32,
    ).insert(p + 2, (ends[p] + 1) as u32);
    let v1 = values.insert(p + 1, value).insert(p + 2, values[p]);
    assert(ends[p] <= ends.last());
    assert forall|j: int| 0 <= j < ends.len() implies #[trigger] ends[j] <= ends.last() by {
        if j < ends.len() - 1 {
            assert(ends[j] < ends.last());
        }
    }
    assert(e1.len() == ends.len() + 2);
    assert forall|j: int| 0 <= j < e1.len() implies #[trigger] e1[j] == (if j < p {
        ends[j] as int
    } else if j == p {
        index - 1
    } else if j == p + 1 {
        index
    } else {
        ends[j - 2] + 1
    }) by {}
    assert forall|j: int| 0 <= j < v1.len() implies #[trigger] v1[j] == (if j <= p {
        values[j]
    } else if j == p + 1 {
        value
    } else {
        values[j - 2]
    }) by {}
    assert(increasing(e1)) by {
        assert forall|i: int, j: int| 0 <= i < j < e1.len() implies e1[i] < e1[j] by {
            let oi = if i <= p + 1 {
                i
            } else {
                i - 2
            };
            let oj = if j <= p + 1 {
                j
            } else {
                j - 2
            };
            if i < p && j <= p + 1 {
                assert(ends[i] <= ends[p - 1]) by {
                    if i < p - 1 {
                        assert(ends[i] < ends[p - 1]);
                    }
                }
            } else if i < p {
                assert(ends[i] < ends[j - 2]);
            } else if j > p + 2 {
                assert(ends[p] < ends[j - 2]);
                if i > p + 2 {
                    assert(ends[i - 2] < ends[j - 2]);
                }
            }
        }
    }
    assert(no_equal_neighbors(v1)) by {
        assert forall|i: int| 0 < i < v1.len() implies v1[i - 1] != #[trigger] v1[i] by {
            if i <= p {
                assert(values[i - 1] != values[i]);
            } else if i > p + 2 {
                assert(values[i - 3] != values[i - 2]);
            }
        }
    }
    assert(represents(e1, v1, target)) by {
        assert(e1.last() == ends.last() + 1);
        assert forall|q: int, i: int| #[trigger] covers(e1, q, i) implies target[i] == v1[q] by {
            if q <= p {
                assert(covers(ends, q, i));
            } else if q == p + 2 {
                assert(covers(ends, p, i - 1));
            } else if q > p + 2 {
                assert(covers(ends, q - 2, i - 1));
            }
        }
    }
    lemma_represents_expand(e1, v1, target);
}

/// Appending the value of the last run: the last run ends later.
pub proof fn lemma_push_joins<T>(ends: Seq<u32>, values: Seq<T>, count: int, value: T)
    requires
        well_formed(ends, values),
        ends.len() > 0,
        values.last() == value,
        0 < count,
        total_len(ends) + count <= max_len(),
    ensures
        well_formed(ends.update(ends.len() - 1, (ends.last() + count) as u32), values),
        expand(ends.update(ends.len() - 1, (ends.last() + count) as u32), values) == expand(
            ends,
            values,
        ) + repeat(value, count),
{
    lemma_expand_represents(ends, values);
    let target = expand(ends, values) + repeat(value, count);
    let e1 = ends.update(ends.len() - 1, (ends.last() + count) as u32);
    assert forall|q: int, i: int| #[trigger] covers(e1, q, i) implies target[i] == values[q] by {
        if i <= ends.last() {
            assert(covers(ends, q, i));
        }
    }
    lemma_represents_expand(e1, values, target);
}

/// Appending another value than that of the last run, or to an empty table: a
/// new run is added.
pub proof fn lemma_push_adds<T>(ends: Seq<u32>, values: Seq<T>, count: int, value: T)
    requires
        well_formed(ends, values),
        ends.len() > 0 ==> values.last() != value,
        0 < count,
        total_len(ends) + count <= max_len(),
    ensures
        well_formed(ends.push((total_len(ends) + count - 1) as u32), values.push(value)),
        expand(ends.push((total_len(ends) + count - 1) as u32), values.push(value)) == expand(
            ends,
            values,
        ) + repeat(value, count),
{
    lemma_expand_represents(ends, values);
    let target = expand(ends, values) + repeat(value, count);
    let e1 = ends.push((total_len(ends) + count - 1) as u32);
    let v1 = values.push(value);
    assert forall|i: int, j: int| 0 <= i < j < e1.len() implies e1[i] < e1[j] by {
        if j < ends.len() {
            assert(ends[i] < ends[j]);
        } else if i < ends.len() - 1 {
            assert(ends[i] < ends.last());
        }
    }
    assert forall|i: int| 0 < i < v1.len() implies v1[i - 1] != #[trigger] v1[i] by {
        if i < values.len() {
            assert(values[i - 1] != values[i]);
        }
    }
    assert forall|q: int, i: int| #[trigger] covers(e1, q, i) implies target[i] == v1[q] by {
        if q < ends.len() {
            if q < ends.len() - 1 {
                assert(ends[q] < ends.last());
            }
            assert(covers(ends, q, i));
        }
    }
    lemma_represents_expand(e1, v1, target);
}

} // verus!
