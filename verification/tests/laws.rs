use rle_vec::{RleVec, Run};

/// The invariant, read off the public accessors.
fn assert_invariant(rle: &RleVec<i32>) {
    let ends = rle.ends();
    let starts = rle.starts();
    assert_eq!(ends.len(), rle.runs_len());
    assert_eq!(starts.len(), rle.runs_len());
    if ends.is_empty() {
        assert_eq!(rle.len(), 0);
        assert!(rle.is_empty());
        return;
    }
    assert!(!rle.is_empty());
    assert_eq!(*ends.last().unwrap() as usize, rle.len() - 1);
    assert_eq!(starts[0], 0);
    let values: Vec<i32> = rle.runs().map(|run| *run.value).collect();
    for p in 1..ends.len() {
        assert!(ends[p - 1] < ends[p]);
        assert_eq!(starts[p], ends[p - 1] + 1);
        assert_ne!(values[p - 1], values[p]);
    }
}

/// A small generator of numbers, the same on every run.
struct Dice {
    state: u64,
}

impl Dice {
    fn roll(&mut self, sides: usize) -> usize {
        self.state = self.state.wrapping_mul(6364136223846793005).wrapping_add(1442695040888963407);
        ((self.state >> 33) as usize) % sides
    }
}

#[test]
fn invariant_holds_after_every_operation() {
    let mut dice = Dice { state: 7 };
    let mut rle: RleVec<i32> = RleVec::new();
    let mut flat: Vec<i32> = Vec::new();
    for step in 0..4000 {
        let value = dice.roll(3) as i32;
        match dice.roll(7) {
            0 => {
                rle.push(value);
                flat.push(value);
            }
            1 => {
                let n = dice.roll(4);
                rle.push_n(n as u32, value);
                for _ in 0..n {
                    flat.push(value);
                }
            }
            2 if !flat.is_empty() => {
                let index = dice.roll(flat.len());
                let before = rle.runs_len();
                rle.set(index, value);
                flat[index] = value;
                let after = rle.runs_len();
                assert!(after + 2 >= before && after <= before + 2);
                assert_eq!(rle[index], value);
            }
            3 if !flat.is_empty() => {
                let start = dice.roll(flat.len());
                let len = dice.roll(flat.len() - start + 1);
                rle.set_range(start as u32, len as u32, value);
                for slot in flat[start..start + len].iter_mut() {
                    *slot = value;
                }
            }
            4 => {
                let index = dice.roll(flat.len() + 1);
                rle.insert(index, value);
                flat.insert(index, value);
            }
            5 if !flat.is_empty() => {
                let index = dice.roll(flat.len());
                let removed = rle.remove(index as u32);
                assert_eq!(removed, flat.remove(index));
            }
            6 => {
                let n = dice.roll(5);
                let more: Vec<i32> = (0..n).map(|_| dice.roll(2) as i32).collect();
                rle.extend(more.iter().cloned());
                flat.extend(more);
            }
            _ => {}
        }
        assert_invariant(&rle);
        assert_eq!(rle.to_vec(), flat, "after step {}", step);
        assert_eq!(rle.len(), flat.len());
    }
}

#[test]
fn every_index_reads_back_after_changes() {
    let mut dice = Dice { state: 99 };
    let mut rle: RleVec<i32> = RleVec::new();
    let mut flat: Vec<i32> = Vec::new();
    for _ in 0..300 {
        let value = dice.roll(4) as i32;
        let index = dice.roll(flat.len() + 1);
        rle.insert(index, value);
        flat.insert(index, value);
        if flat.len() > 20 {
            let index = dice.roll(flat.len());
            assert_eq!(rle.remove(index as u32), flat.remove(index));
        }
        for (i, expected) in flat.iter().enumerate() {
            assert_eq!(rle[i], *expected);
            let run = rle.run_index(i as u32) as usize;
            assert!(rle.starts()[run] as usize <= i && i <= rle.ends()[run] as usize);
        }
        assert_eq!(rle.iter().cloned().collect::<Vec<_>>(), flat);
    }
}

#[test]
fn round_trip_keeps_the_runs() {
    let source = RleVec::from(&[4, 4, 4, 1, 1, 7, 4, 4, 0, 0, 0, 0][..]);
    let flat = source.to_vec();
    let rebuilt = RleVec::from(&flat[..]);
    assert_eq!(rebuilt.ends(), source.ends());
    assert_eq!(rebuilt.starts(), source.starts());
    assert_eq!(rebuilt.runs().collect::<Vec<_>>(), source.runs().collect::<Vec<_>>());
    assert_eq!(rebuilt, source);

    let from_values = RleVec::from_iter(flat.iter().cloned());
    assert_eq!(from_values, source);
}

#[test]
fn equal_contents_mean_equal_containers() {
    let mut built_by_writes: RleVec<i32> = RleVec::new();
    built_by_writes.push_n(6, 0);
    built_by_writes.set_range(2, 2, 5);
    built_by_writes.set(4, 5);
    built_by_writes.insert(0, 9);
    let built_at_once = RleVec::from(&[9, 0, 0, 5, 5, 5, 0][..]);
    assert_eq!(built_by_writes.to_vec(), built_at_once.to_vec());
    assert_eq!(built_by_writes, built_at_once);
    assert_eq!(built_by_writes.ends(), vec![0, 2, 5, 6]);
}

#[test]
fn write_then_read() {
    let base = RleVec::from(&[1, 1, 1, 2, 3, 3, 2, 2][..]);
    for index in 0..base.len() {
        for value in 0..5 {
            let mut rle = base.clone();
            let before = rle.runs_len() as i64;
            rle.set(index, value);
            assert_eq!(rle[index], value);
            let change = rle.runs_len() as i64 - before;
            assert!((-2..=2).contains(&change));
            let mut expected = base.to_vec();
            expected[index] = value;
            assert_eq!(rle.to_vec(), expected);
            assert_invariant(&rle);
        }
    }
}

#[test]
fn point_write_run_counts() {
    // a run of one element between two runs of the value: three runs become one
    let mut rle = RleVec::from(&[5, 5, 1, 5][..]);
    rle.set(2, 5);
    assert_eq!(rle.runs_len(), 1);
    assert_eq!(rle.ends(), vec![3]);
    // an element inside a run: one run becomes three
    let mut rle = RleVec::from(&[5, 5, 5][..]);
    rle.set(1, 0);
    assert_eq!(rle.runs_len(), 3);
    assert_eq!(rle.ends(), vec![0, 1, 2]);
    assert_eq!(rle.to_vec(), vec![5, 0, 5]);
}

#[test]
fn range_write_equals_point_writes() {
    let base = RleVec::from(&[0, 0, 1, 1, 1, 2, 0, 0, 3, 3][..]);
    for start in 0..base.len() {
        for len in 0..=(base.len() - start) {
            for value in 0..4 {
                let mut by_range = base.clone();
                by_range.set_range(start as u32, len as u32, value);
                let mut by_points = base.clone();
                for index in start..start + len {
                    by_points.set(index, value);
                }
                assert_eq!(by_range.to_vec(), by_points.to_vec());
                assert_eq!(by_range, by_points);
                assert_invariant(&by_range);
            }
        }
    }
}

#[test]
fn remove_undoes_insert() {
    let base = RleVec::from(&[1, 1, 2, 3, 3, 3, 1][..]);
    for index in 0..=base.len() {
        for value in 0..5 {
            let mut rle = base.clone();
            rle.insert(index, value);
            assert_eq!(rle.len(), base.len() + 1);
            assert_eq!(rle[index], value);
            assert_invariant(&rle);
            let removed = rle.remove(index as u32);
            assert_eq!(removed, value);
            assert_eq!(rle.to_vec(), base.to_vec());
            assert_eq!(rle.ends(), base.ends());
            assert_eq!(rle, base);
        }
    }
}

#[test]
fn cursors_from_both_ends_visit_each_element_once() {
    let flat = vec![3, 3, 3, 1, 2, 2, 9, 9, 9, 9, 4];
    let rle = RleVec::from(&flat[..]);
    // every pattern of eleven steps, each from the front or from the back
    for pattern in 0u32..(1 << flat.len()) {
        let mut cursor = rle.iter();
        let mut fronts = Vec::new();
        let mut backs = Vec::new();
        for step in 0..flat.len() {
            assert_eq!(cursor.len(), flat.len() - step);
            if pattern & (1 << step) != 0 {
                fronts.push(*cursor.next().unwrap());
            } else {
                backs.push(*cursor.next_back().unwrap());
            }
        }
        assert_eq!(cursor.next(), None);
        assert_eq!(cursor.next_back(), None);
        assert_eq!(cursor.len(), 0);
        backs.reverse();
        fronts.extend(backs);
        assert_eq!(fronts, flat);
    }
}

#[test]
fn reversed_cursor_reads_backwards() {
    let flat = vec![0, 1, 1, 3, 3, 9, 99];
    let rle = RleVec::from(&flat[..]);
    let mut backwards: Vec<i32> = rle.iter().rev().cloned().collect();
    backwards.reverse();
    assert_eq!(backwards, flat);
}

#[test]
fn pushing_ten_values_one_at_a_time() {
    let mut rle = RleVec::new();
    for value in [1, 1, 1, 1, 2, 2, 2, 3, 3, 4] {
        rle.push(value);
    }
    assert_eq!(rle.len(), 10);
    assert_eq!(rle.runs_len(), 4);
}

#[test]
fn point_write_inside_a_run_adds_two_runs() {
    let mut rle = RleVec::from(&[1, 1, 1, 1, 2, 2, 3][..]);
    assert_eq!(rle.runs_len(), 3);
    rle.set(2, 3);
    assert_eq!(rle.to_vec(), vec![1, 1, 3, 1, 2, 2, 3]);
    assert_eq!(rle.runs_len(), 5);
}

#[test]
fn range_write_over_the_tail() {
    let mut rle = RleVec::from(&[1, 1, 2, 2, 3][..]);
    rle.set_range(3, 2, 4);
    assert_eq!(rle.to_vec(), vec![1, 1, 2, 4, 4]);
}

#[test]
fn removing_a_run_of_one_joins_its_neighbours() {
    let mut rle = RleVec::from(&[1, 1, 1, 1, 1, 2, 1, 1, 1, 4, 4, 3, 3][..]);
    assert_eq!(rle.remove(5), 2);
    assert_eq!(rle.to_vec(), vec![1, 1, 1, 1, 1, 1, 1, 1, 4, 4, 3, 3]);
    assert_eq!(rle.runs_len(), 3);
}

#[test]
fn inserting_at_the_front_matches_a_vec() {
    let mut flat = vec![0, 0, 0, 1, 1, 1, 1, 1, 1, 1, 3, 3, 1, 0, 99, 99, 9];
    let mut rle = RleVec::from(&flat[..]);
    rle.insert(0, 1);
    flat.insert(0, 1);
    assert_eq!((0..rle.len()).map(|i| rle[i]).collect::<Vec<_>>(), flat);
}

#[test]
fn runs_are_start_length_value() {
    let rle = RleVec::from(&[7, 7, 7, 8, 9, 9][..]);
    let runs: Vec<Run<&i32>> = rle.runs().collect();
    assert_eq!(
        runs,
        vec![
            Run { start: 0, len: 3, value: &7 },
            Run { start: 3, len: 1, value: &8 },
            Run { start: 4, len: 2, value: &9 },
        ]
    );
    // the length of a run is its end less its start, and one more
    for (run, (start, end)) in runs.iter().zip(rle.starts().into_iter().zip(rle.ends())) {
        assert_eq!(run.start, start);
        assert_eq!(run.len, end - start + 1);
    }
    // the length of the container is the last end, and one more
    assert_eq!(rle.len(), *rle.ends().last().unwrap() as usize + 1);
}

#[test]
fn equality_and_order_go_run_by_run() {
    let samples: Vec<Vec<i32>> = vec![
        vec![],
        vec![1],
        vec![1, 1],
        vec![1, 2],
        vec![1, 1, 2],
        vec![2],
        vec![2, 1],
        vec![1, 1, 1],
        vec![0, 5, 5],
        vec![1, 2, 2],
    ];
    for a in &samples {
        for b in &samples {
            let left = RleVec::from(&a[..]);
            let right = RleVec::from(&b[..]);
            // a run compares by its end and then by its value
            let runs = |rle: &RleVec<i32>| -> Vec<(u32, i32)> {
                rle.ends().into_iter().zip(rle.runs().map(|run| *run.value)).collect()
            };
            assert_eq!(left == right, a == b);
            assert_eq!(left != right, a != b);
            assert_eq!(left.partial_cmp(&right), runs(&left).partial_cmp(&runs(&right)));
            assert_eq!(left < right, runs(&left) < runs(&right));
            assert_eq!(left >= right, runs(&left) >= runs(&right));
        }
    }
    // by runs, not by elements: the longer first run is the later one
    let long_first = RleVec::from(&[1, 1, 2][..]);
    let short_first = RleVec::from(&[1, 2][..]);
    assert!(long_first > short_first);
    assert!(vec![1, 1, 2] < vec![1, 2]);
}
