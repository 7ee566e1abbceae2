//! The order of containers: run by run, each run first by its end and then by
//! its value, and a container that is the beginning of another before it.

use crate::rle::RleVec;
use std::cmp::Ordering;
use vstd::prelude::*;
use vstd::std_specs::cmp::PartialOrdSpec;

verus! {

/// The number of runs of which both tables hold the end and the value.
pub open spec fn runs_shared<T>(
    ends_a: Seq<u32>,
    values_a: Seq<T>,
    ends_b: Seq<u32>,
    values_b: Seq<T>,
) -> nat {
    let a = if ends_a.len() <= values_a.len() {
        ends_a.len()
    } else {
        values_a.len()
    };
    let b = if ends_b.len() <= values_b.len() {
        ends_b.len()
    } else {
        values_b.len()
    };
    if a <= b {
        a
    } else {
        b
    }
}

/// How two run tables compare from run `p` on: by the first run in which they
/// differ, and by their numbers of runs where one is the beginning of the
/// other.
pub open spec fn runs_order<T: PartialOrd>(
    ends_a: Seq<u32>,
    values_a: Seq<T>,
    ends_b: Seq<u32>,
    values_b: Seq<T>,
    p: int,
) -> Option<Ordering>
    decreases runs_shared(ends_a, values_a, ends_b, values_b) - p,
{
    if p < 0 || p >= runs_shared(ends_a, values_a, ends_b, values_b) {
        if ends_a.len() < ends_b.len() {
            Some(Ordering::Less)
        } else if ends_a.len() > ends_b.len() {
            Some(Ordering::Greater)
        } else {
            Some(Ordering::Equal)
        }
    } else if ends_a[p] < ends_b[p] {
        Some(Ordering::Less)
    } else if ends_a[p] > ends_b[p] {
        Some(Ordering::Greater)
    } else {
        match values_a[p].partial_cmp_spec(&values_b[p]) {
            Some(Ordering::Equal) => runs_order(ends_a, values_a, ends_b, values_b, p + 1),
            decided => decided,
        }
    }
}

impl<T: PartialOrd> vstd::std_specs::cmp::PartialOrdSpecImpl for RleVec<T> {
    open spec fn obeys_partial_cmp_spec() -> bool {
        T::obeys_partial_cmp_spec()
    }

    open spec fn partial_cmp_spec(&self, other: &Self) -> Option<Ordering> {
        runs_order(self.run_ends(), self.run_values(), other.run_ends(), other.run_values(), 0)
    }
}

impl<T: PartialOrd> PartialOrd for RleVec<T> {
    /// Compares run by run, not element by element.
    fn partial_cmp(&self, other: &Self) -> (order: Option<Ordering>) {
        let count = self.runs_len();
        let other_count = other.runs_len();
        let mut shared = count;
        if other_count < shared {
            shared = other_count;
        }
        if self.values_len() < shared {
            shared = self.values_len();
        }
        if other.values_len() < shared {
            shared = other.values_len();
        }
        let ghost at: int = 0;
        let mut p: usize = 0;
        while p < shared
            invariant
                count == self.run_ends().len(),
                other_count == other.run_ends().len(),
                shared == runs_shared(
                    self.run_ends(),
                    self.run_values(),
                    other.run_ends(),
                    other.run_values(),
                ),
                at == p,
                p <= shared,
                T::obeys_partial_cmp_spec() ==> runs_order(
                    self.run_ends(),
                    self.run_values(),
                    other.run_ends(),
                    other.run_values(),
                    0,
                ) == runs_order(
                    self.run_ends(),
                    self.run_values(),
                    other.run_ends(),
                    other.run_values(),
                    at,
                ),
            decreases shared - p,
        {
            let end = self.run_end(p);
            let other_end = other.run_end(p);
            if end < other_end {
                return Some(Ordering::Less);
            }
            if end > other_end {
                return Some(Ordering::Greater);
            }
            match self.run_value(p).partial_cmp(other.run_value(p)) {
                Some(Ordering::Equal) => {},
                decided => {
                    return decided;
                },
            }
            p += 1;
            proof {
                at = at + 1;
            }
        }
        if count < other_count {
            Some(Ordering::Less)
        } else if count > other_count {
            Some(Ordering::Greater)
        } else {
            Some(Ordering::Equal)
        }
    }
}

} // verus!
