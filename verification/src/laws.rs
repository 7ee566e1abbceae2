//! What holds of the container across its operations. Each law is stated over
//! the views that the operations' own contracts speak of.

use crate::model::{
    covers, eq_is_exact, expand, fill, lemma_expand_represents, run_start, total_len, well_formed,
};
use crate::rle::RleVec;
use vstd::prelude::*;
use vstd::std_specs::cmp::PartialEqSpec;

verus! {

/// Two well-formed tables agree on their first `p + 1` runs when they stand for
/// the same flat sequence.
proof fn lemma_canonical_prefix<T>(
    ends_a: Seq<u32>,
    values_a: Seq<T>,
    ends_b: Seq<u32>,
    values_b: Seq<T>,
    p: int,
)
    requires
        well_formed(ends_a, values_a),
        well_formed(ends_b, values_b),
        expand(ends_a, values_a) == expand(ends_b, values_b),
        0 <= p < ends_a.len(),
        p < ends_b.len(),
    ensures
        ends_a[p] == ends_b[p],
        values_a[p] == values_b[p],
    decreases p,
{
    if p > 0 {
        lemma_canonical_prefix(ends_a, values_a, ends_b, values_b, p - 1);
    }
    lemma_expand_represents(ends_a, values_a);
    lemma_expand_represents(ends_b, values_b);
    let flat = expand(ends_a, values_a);
    let start = run_start(ends_a, p);
    assert(run_start(ends_b, p) == start);
    assert(p > 0 ==> ends_a[p - 1] < ends_a[p]);
    assert(p > 0 ==> ends_b[p - 1] < ends_b[p]);
    assert(covers(ends_a, p, start));
    assert(covers(ends_b, p, start));
    assert(ends_a[p] <= ends_a.last()) by {
        if p < ends_a.len() - 1 {
            assert(ends_a[p] < ends_a.last());
        }
    }
    assert(ends_b[p] <= ends_b.last()) by {
        if p < ends_b.len() - 1 {
            assert(ends_b[p] < ends_b.last());
        }
    }
    if ends_a[p] < ends_b[p] {
        let i = ends_a[p] + 1;
        assert(covers(ends_b, p, i));
        assert(p + 1 < ends_a.len());
        assert(ends_a[p] < ends_a[p + 1]);
        assert(covers(ends_a, p + 1, i));
        assert(values_a[p] != values_a[p + 1]);
    }
    if ends_b[p] < ends_a[p] {
        let i = ends_b[p] + 1;
        assert(covers(ends_a, p, i));
        assert(p + 1 < ends_b.len());
        assert(ends_b[p] < ends_b[p + 1]);
        assert(covers(ends_b, p + 1, i));
        assert(values_b[p] != values_b[p + 1]);
    }
}

/// A flat sequence has one well-formed table only: two tables under the
/// invariant that stand for the same sequence have the same runs.
pub proof fn lemma_canonical<T>(
    ends_a: Seq<u32>,
    values_a: Seq<T>,
    ends_b: Seq<u32>,
    values_b: Seq<T>,
)
    requires
        well_formed(ends_a, values_a),
        well_formed(ends_b, values_b),
        expand(ends_a, values_a) == expand(ends_b, values_b),
    ensures
        ends_a == ends_b,
        values_a == values_b,
{
    let n = if ends_a.len() <= ends_b.len() {
        ends_a.len()
    } else {
        ends_b.len()
    };
    assert(expand(ends_a, values_a).len() == total_len(ends_a));
    assert(expand(ends_b, values_b).len() == total_len(ends_b));
    if n > 0 {
        lemma_canonical_prefix(ends_a, values_a, ends_b, values_b, n - 1);
        if ends_a.len() < ends_b.len() {
            assert(ends_b[n - 1] < ends_b.last());
        }
        if ends_b.len() < ends_a.len() {
            assert(ends_a[n - 1] < ends_a.last());
        }
    }
    assert(ends_a.len() == ends_b.len());
    assert forall|p: int| 0 <= p < ends_a.len() implies #[trigger] ends_a[p] == ends_b[p] by {
        lemma_canonical_prefix(ends_a, values_a, ends_b, values_b, p);
    }
    assert forall|p: int| 0 <= p < values_a.len() implies #[trigger] values_a[p]
        == values_b[p] by {
        lemma_canonical_prefix(ends_a, values_a, ends_b, values_b, p);
    }
    assert(ends_a =~= ends_b);
    assert(values_a =~= values_b);
}

/// The invariant, spelled out: from each run to the next the end grows and the
/// value changes, and the length is one past the last end, or 0 when there is
/// no run. Every constructor and every changing operation of the container
/// ensures `wf`.
pub proof fn law_invariant<T>(rle: RleVec<T>)
    requires
        rle.wf(),
    ensures
        rle.run_ends().len() == rle.run_values().len(),
        forall|p: int|
            0 < p < rle.run_ends().len() ==> rle.run_ends()[p - 1] < #[trigger] rle.run_ends()[p],
        forall|p: int|
            0 < p < rle.run_values().len() ==> rle.run_values()[p - 1]
                != #[trigger] rle.run_values()[p],
        rle.run_ends().len() == 0 <==> rle@.len() == 0,
        rle.run_ends().len() > 0 ==> rle.run_ends().last() == rle@.len() - 1,
{
}

/// Structural equality is equality of contents: two containers under the
/// invariant with the same elements have the same runs.
pub proof fn law_canonical_form<T>(a: RleVec<T>, b: RleVec<T>)
    requires
        a.wf(),
        b.wf(),
        a@ == b@,
    ensures
        a.run_ends() == b.run_ends(),
        a.run_values() == b.run_values(),
{
    lemma_canonical(a.run_ends(), a.run_values(), b.run_ends(), b.run_values());
}

/// Equality is equality of contents: two containers under the invariant
/// compare equal with `==` just when they have the same elements.
pub proof fn law_equality_is_content<T: PartialEq>(a: RleVec<T>, b: RleVec<T>)
    requires
        a.wf(),
        b.wf(),
        eq_is_exact::<T>(),
    ensures
        a.eq_spec(&b) <==> a@ == b@,
{
    if a@ == b@ {
        law_canonical_form(a, b);
    }
    if a.eq_spec(&b) {
        assert forall|p: int| 0 <= p < a.run_values().len() implies a.run_values()[p]
            == b.run_values()[p] by {
            assert(a.run_values()[p].eq_spec(&b.run_values()[p]));
        }
        assert(a.run_values() =~= b.run_values());
    }
}

/// Round trip: a container built from the flattened elements of another has the
/// runs of that other.
pub proof fn law_round_trip<T>(source: RleVec<T>, flat: Seq<T>, rebuilt: RleVec<T>)
    requires
        source.wf(),
        flat == source@,
        rebuilt.wf(),
        rebuilt@ == flat,
    ensures
        rebuilt.run_ends() == source.run_ends(),
        rebuilt.run_values() == source.run_values(),
{
    law_canonical_form(source, rebuilt);
}

/// `flat` after point writes of `value` at `start`, `start + 1`, and so on,
/// `count` of them.
pub open spec fn set_each<T>(flat: Seq<T>, start: int, count: int, value: T) -> Seq<T>
    decreases count,
{
    if count <= 0 {
        flat
    } else {
        set_each(flat, start, count - 1, value).update(start + count - 1, value)
    }
}

/// Range and point writes agree: a range write leaves the elements that point
/// writes at each index of the range, one after the other, leave.
pub proof fn law_range_is_points<T>(flat: Seq<T>, start: int, count: int, value: T)
    requires
        0 <= start,
        0 <= count,
        start + count <= flat.len(),
    ensures
        fill(flat, start, count, value) == set_each(flat, start, count, value),
    decreases count,
{
    if count > 0 {
        law_range_is_points(flat, start, count - 1, value);
        assert(fill(flat, start, count, value) =~= fill(flat, start, count - 1, value).update(
            start + count - 1,
            value,
        ));
    } else {
        assert(fill(flat, start, count, value) =~= flat);
    }
}

/// Insert then remove: removing at the index of an insertion gives back the
/// value inserted and restores the elements and the runs.
pub proof fn law_insert_remove<T>(
    before: RleVec<T>,
    between: RleVec<T>,
    after: RleVec<T>,
    index: int,
    value: T,
    removed: T,
)
    requires
        before.wf(),
        0 <= index <= before@.len(),
        between@ == before@.insert(index, value),
        removed == between@[index],
        after.wf(),
        after@ == between@.remove(index),
    ensures
        removed == value,
        after@ == before@,
        after.run_ends() == before.run_ends(),
        after.run_values() == before.run_values(),
{
    assert(before@.insert(index, value).remove(index) =~= before@);
    law_canonical_form(before, after);
}

/// What is left of `flat` after the cursor steps in `moves`: `true` takes the
/// first element left, `false` the last; a step on nothing takes nothing.
pub open spec fn walk_rest<T>(flat: Seq<T>, moves: Seq<bool>) -> Seq<T>
    decreases moves.len(),
{
    if moves.len() == 0 {
        flat
    } else {
        let rest = walk_rest(flat, moves.drop_last());
        if rest.len() == 0 {
            rest
        } else if moves.last() {
            rest.drop_first()
        } else {
            rest.drop_last()
        }
    }
}

/// The elements that the steps from the front hand out, in the order of the
/// steps.
pub open spec fn walk_fronts<T>(flat: Seq<T>, moves: Seq<bool>) -> Seq<T>
    decreases moves.len(),
{
    if moves.len() == 0 {
        Seq::empty()
    } else {
        let rest = walk_rest(flat, moves.drop_last());
        let fronts = walk_fronts(flat, moves.drop_last());
        if rest.len() > 0 && moves.last() {
            fronts.push(rest.first())
        } else {
            fronts
        }
    }
}

/// The elements that the steps from the back hand out, in the order of the
/// steps.
pub open spec fn walk_backs<T>(flat: Seq<T>, moves: Seq<bool>) -> Seq<T>
    decreases moves.len(),
{
    if moves.len() == 0 {
        Seq::empty()
    } else {
        let rest = walk_rest(flat, moves.drop_last());
        let backs = walk_backs(flat, moves.drop_last());
        if rest.len() > 0 && !moves.last() {
            backs.push(rest.last())
        } else {
            backs
        }
    }
}

/// Double-ended iteration: however steps from the front and from the back are
/// mixed, what the front steps handed out, what is left, and what the back
/// steps handed out, read backwards, are the elements in their order. Nothing
/// is handed out twice and nothing is skipped.
pub proof fn law_walk_partitions<T>(flat: Seq<T>, moves: Seq<bool>)
    ensures
        walk_fronts(flat, moves) + walk_rest(flat, moves) + walk_backs(flat, moves).reverse()
            == flat,
        walk_fronts(flat, moves).len() + walk_rest(flat, moves).len() + walk_backs(
            flat,
            moves,
        ).len() == flat.len(),
    decreases moves.len(),
{
    if moves.len() == 0 {
        assert(walk_backs(flat, moves).reverse() =~= Seq::<T>::empty());
        assert(walk_fronts(flat, moves) + walk_rest(flat, moves) + walk_backs(
            flat,
            moves,
        ).reverse() =~= flat);
    } else {
        let earlier = moves.drop_last();
        law_walk_partitions(flat, earlier);
        let rest = walk_rest(flat, earlier);
        let fronts = walk_fronts(flat, earlier);
        let backs = walk_backs(flat, earlier);
        if rest.len() > 0 {
            if moves.last() {
                assert(fronts.push(rest.first()) + rest.drop_first() =~= fronts + rest);
            } else {
                assert(backs.push(rest.last()).reverse() =~= seq![rest.last()] + backs.reverse());
                assert(fronts + rest.drop_last() + (seq![rest.last()] + backs.reverse()) =~= fronts
                    + rest + backs.reverse());
            }
        }
    }
}

/// With as many steps as there are elements, however mixed, every element has
/// been handed out: nothing is left, and the front steps followed by the back
/// steps read backwards are the elements in their order.
pub proof fn law_walk_exhausts<T>(flat: Seq<T>, moves: Seq<bool>)
    requires
        moves.len() >= flat.len(),
    ensures
        walk_rest(flat, moves).len() == 0,
        walk_fronts(flat, moves) + walk_backs(flat, moves).reverse() == flat,
{
    lemma_walk_rest_len(flat, moves);
    law_walk_partitions(flat, moves);
    assert(walk_fronts(flat, moves) + walk_rest(flat, moves) =~= walk_fronts(flat, moves));
}

/// Each step takes one element as long as one is left.
proof fn lemma_walk_rest_len<T>(flat: Seq<T>, moves: Seq<bool>)
    ensures
        walk_rest(flat, moves).len() == (if moves.len() >= flat.len() {
            0
        } else {
            flat.len() - moves.len()
        }),
    decreases moves.len(),
{
    if moves.len() > 0 {
        lemma_walk_rest_len(flat, moves.drop_last());
    }
}

} // verus!
