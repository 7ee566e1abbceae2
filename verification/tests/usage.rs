use rle_vec::{RleVec, Run};
use std::convert::TryFrom;
use std::iter::repeat;

fn assert_postconditions<T: Eq>(rle: &RleVec<T>) {
    if rle.runs_len() == 0 {
        return;
    }
    let ends = rle.ends();
    let values: Vec<&T> = rle.runs().map(|r| r.value).collect();
    let len = u32::try_from(rle.len()).unwrap();
    assert!(ends[0] < len);
    for i in 1..ends.len() {
        assert!(ends[i] < len);
        assert!(ends[i - 1] < ends[i]);
        assert!(values[i - 1] != values[i]);
    }
}

#[test]
fn rare_usage() {
    // from slice

    let rle: RleVec<i32> = RleVec::from(&[][..]);
    assert_eq!(rle.to_vec(), vec![]);
    let runs: Vec<_> = rle.runs().collect();
    assert_eq!(runs, vec![]);

    let rle: RleVec<i32> = RleVec::from(&[1][..]);
    assert_eq!(rle.to_vec(), vec![1]);
    let runs: Vec<_> = rle.runs().collect();
    assert_eq!(runs, vec![Run { start: 0, len: 1, value: &1 }]);

    let rle: RleVec<i32> = RleVec::from(&[1, 2][..]);
    assert_eq!(rle.to_vec(), vec![1, 2]);
    let runs: Vec<_> = rle.runs().collect();
    assert_eq!(
        runs,
        vec![Run { start: 0, len: 1, value: &1 }, Run { start: 1, len: 1, value: &2 }]
    );

    let rle: RleVec<i32> = RleVec::from(&[1, 1][..]);
    assert_eq!(rle.to_vec(), vec![1, 1]);
    let runs: Vec<_> = rle.runs().collect();
    assert_eq!(runs, vec![Run { start: 0, len: 2, value: &1 }]);

    // from iter

    let rle: RleVec<i32> = RleVec::from_iter(0..0);
    assert_eq!(rle.to_vec(), vec![]);
    let runs: Vec<_> = rle.runs().collect();
    assert_eq!(runs, vec![]);

    let rle: RleVec<i32> = RleVec::from_iter(1..2);
    assert_eq!(rle.to_vec(), vec![1]);
    let runs: Vec<_> = rle.runs().collect();
    assert_eq!(runs, vec![Run { start: 0, len: 1, value: &1 }]);

    let rle: RleVec<i32> = RleVec::from_iter(1..3);
    assert_eq!(rle.to_vec(), vec![1, 2]);
    let runs: Vec<_> = rle.runs().collect();
    assert_eq!(
        runs,
        vec![Run { start: 0, len: 1, value: &1 }, Run { start: 1, len: 1, value: &2 }]
    );

    let rle: RleVec<i32> = RleVec::from_iter(repeat(1).take(2));
    assert_eq!(rle.to_vec(), vec![1, 1]);
    let runs: Vec<_> = rle.runs().collect();
    assert_eq!(runs, vec![Run { start: 0, len: 2, value: &1 }]);
}

#[test]
fn basic_usage() {
    let mut rle = RleVec::<i64>::new();
    rle.push(1);
    rle.push(1);
    rle.push(1);
    rle.push(1);
    rle.push(2);
    rle.push(2);
    rle.push(2);
    rle.push(3);
    rle.push(3);
    rle.push(4);
    assert_eq!(rle.len(), 10);
    assert_eq!(rle.runs_len(), 4);

    rle.push_n(3, 4);
    assert_eq!(rle.len(), 13);
    assert_eq!(rle.runs_len(), 4);
    assert_eq!(rle.last(), Some(&4));
    rle.push_n(3, 5);
    assert_eq!(rle.len(), 16);
    assert_eq!(rle.runs_len(), 5);
    assert_eq!(rle.last(), Some(&5));
    assert_eq!(rle.last_run(), Some(Run { start: 13, value: &5, len: 3 }));
    rle.clear();
    assert_eq!(rle.len(), 0);
    assert_eq!(rle.runs_len(), 0);
    assert_eq!(rle.last(), None);
    assert_eq!(rle.last_run(), None);

    let mut rle = RleVec::default();
    rle.push(1);
    assert_eq!(rle.len(), 1);
}

#[test]
fn setting_values() {
    let mut rle = RleVec::<i64>::new();
    rle.push(1);
    rle.set(0, 10);
    assert_eq!(rle.len(), 1);
    assert_eq!(rle.runs_len(), 1);
    assert_eq!(rle[0], 10);

    let mut rle = RleVec::from(&[1, 1, 1, 1, 2, 2, 2, 3, 3, 4, 5][..]);
    assert_eq!(rle.to_vec(), vec![1, 1, 1, 1, 2, 2, 2, 3, 3, 4, 5]);

    //set no change
    //run size > 1
    rle.set(0, 1);
    assert_eq!(rle.to_vec(), vec![1, 1, 1, 1, 2, 2, 2, 3, 3, 4, 5]);
    rle.set(2, 1);
    assert_eq!(rle.to_vec(), vec![1, 1, 1, 1, 2, 2, 2, 3, 3, 4, 5]);
    rle.set(4, 2);
    assert_eq!(rle.to_vec(), vec![1, 1, 1, 1, 2, 2, 2, 3, 3, 4, 5]);
    rle.set(6, 2);
    assert_eq!(rle.to_vec(), vec![1, 1, 1, 1, 2, 2, 2, 3, 3, 4, 5]);
    //run size == 1
    rle.set(9, 4);
    assert_eq!(rle.to_vec(), vec![1, 1, 1, 1, 2, 2, 2, 3, 3, 4, 5]);
    rle.set(10, 5);
    assert_eq!(rle.to_vec(), vec![1, 1, 1, 1, 2, 2, 2, 3, 3, 4, 5]);

    //set change no joins
    //run size > 1
    rle.set(0, 2);
    assert_eq!(rle.to_vec(), vec![2, 1, 1, 1, 2, 2, 2, 3, 3, 4, 5]);
    rle.set(2, 2);
    assert_eq!(rle.to_vec(), vec![2, 1, 2, 1, 2, 2, 2, 3, 3, 4, 5]);
    rle.set(4, 3);
    assert_eq!(rle.to_vec(), vec![2, 1, 2, 1, 3, 2, 2, 3, 3, 4, 5]);
    rle.set(8, 7);
    assert_eq!(rle.to_vec(), vec![2, 1, 2, 1, 3, 2, 2, 3, 7, 4, 5]);
    //run size == 1
    rle.set(0, 3);
    assert_eq!(rle.to_vec(), vec![3, 1, 2, 1, 3, 2, 2, 3, 7, 4, 5]);
    rle.set(3, 4);
    assert_eq!(rle.to_vec(), vec![3, 1, 2, 4, 3, 2, 2, 3, 7, 4, 5]);
    rle.set(10, 7);
    assert_eq!(rle.to_vec(), vec![3, 1, 2, 4, 3, 2, 2, 3, 7, 4, 7]);
    assert_eq!(rle.runs_len(), 10);

    //set change, with join
    rle.set(0, 1);
    assert_eq!(rle.to_vec(), vec![1, 1, 2, 4, 3, 2, 2, 3, 7, 4, 7]);
    assert_eq!(rle.runs_len(), 9);
    rle.set(5, 3);
    assert_eq!(rle.runs_len(), 9);
    rle.set(6, 3);
    assert_eq!(rle.to_vec(), vec![1, 1, 2, 4, 3, 3, 3, 3, 7, 4, 7]);
    assert_eq!(rle.runs_len(), 7);
    rle.set(10, 4);
    assert_eq!(rle.to_vec(), vec![1, 1, 2, 4, 3, 3, 3, 3, 7, 4, 4]);
    assert_eq!(rle.runs_len(), 6);
}

#[test]
fn set_ranges() {
    let mut rle = RleVec::from(&[0, 0, 0, 0, 0][..]);
    rle.set_range(0, 2, 0);
    assert_eq!(rle.to_vec(), vec![0, 0, 0, 0, 0]);
    assert_postconditions(&rle);

    let mut rle = RleVec::from(&[1, 1, 2, 2, 3][..]);
    rle.set_range(3, 2, 4);
    assert_eq!(rle.to_vec(), vec![1, 1, 2, 4, 4]);
    assert_postconditions(&rle);
    rle.set_range(0, 1, 0);
    assert_eq!(rle.to_vec(), vec![0, 1, 2, 4, 4]);
    assert_postconditions(&rle);
    rle.set_range(0, 2, 2);
    assert_eq!(rle.to_vec(), vec![2, 2, 2, 4, 4]);
    assert_postconditions(&rle);
    rle.set_range(0, 2, 1);
    assert_eq!(rle.to_vec(), vec![1, 1, 2, 4, 4]);
    assert_postconditions(&rle);
    rle.set_range(2, 2, 3);
    assert_eq!(rle.to_vec(), vec![1, 1, 3, 3, 4]);
    assert_postconditions(&rle);
    rle.set_range(4, 1, 3);
    assert_eq!(rle.to_vec(), vec![1, 1, 3, 3, 3]);
    assert_postconditions(&rle);
    rle.set_range(0, 5, 0);
    assert_eq!(rle.to_vec(), vec![0, 0, 0, 0, 0]);
    assert_postconditions(&rle);
    rle.set_range(1, 2, 1);
    assert_eq!(rle.to_vec(), vec![0, 1, 1, 0, 0]);
    assert_postconditions(&rle);
    rle.set_range(4, 1, 2);
    assert_eq!(rle.to_vec(), vec![0, 1, 1, 0, 2]);
    assert_postconditions(&rle);
    rle.set_range(1, 2, 0);
    assert_eq!(rle.to_vec(), vec![0, 0, 0, 0, 2]);
    assert_postconditions(&rle);
    rle.set_range(4, 1, 0);
    assert_eq!(rle.to_vec(), vec![0, 0, 0, 0, 0]);
    assert_postconditions(&rle);

    let mut rle2 = RleVec::from(&[0, 1, 2, 3, 3][..]);
    rle2.set_range(3, 2, 2);
    assert_eq!(rle2.to_vec(), vec![0, 1, 2, 2, 2]);
    assert_postconditions(&rle2);
    rle2.set_range(2, 3, 3);
    assert_eq!(rle2.to_vec(), vec![0, 1, 3, 3, 3]);
    assert_postconditions(&rle2);
    rle2.set_range(3, 2, 4);
    assert_eq!(rle2.to_vec(), vec![0, 1, 3, 4, 4]);
    assert_postconditions(&rle2);
}

#[test]
fn set_single_value_range_matches_set() {
    let rle = RleVec::from(&[1, 1, 2, 2, 3][..]);
    for i in 0..rle.len() {
        let mut rle2 = rle.clone();
        let mut rle3 = rle.clone();
        rle2.set_range(u32::try_from(i).unwrap(), 1, 4);
        rle3.set(i, 4);
        assert_eq!(rle2.to_vec(), rle3.to_vec());
    }
}

#[test]
fn removing_values() {
    let mut rle = RleVec::from(&[1, 1, 1, 1, 1, 2, 1, 1, 1, 4, 4, 3, 3][..]);
    assert_eq!(rle.len(), 13);
    assert_eq!(rle.runs_len(), 5);

    let value = rle.remove(5);
    assert_eq!(value, 2);
    assert_eq!(rle.len(), 12);
    assert_eq!(rle.runs_len(), 3);
    assert_eq!(rle.to_vec(), vec![1, 1, 1, 1, 1, 1, 1, 1, 4, 4, 3, 3]);

    let value = rle.remove(7);
    assert_eq!(value, 1);
    assert_eq!(rle.len(), 11);
    assert_eq!(rle.runs_len(), 3);
    assert_eq!(rle.to_vec(), vec![1, 1, 1, 1, 1, 1, 1, 4, 4, 3, 3]);

    let value = rle.remove(10);
    assert_eq!(value, 3);
    assert_eq!(rle.len(), 10);
    assert_eq!(rle.runs_len(), 3);
    assert_eq!(rle.to_vec(), vec![1, 1, 1, 1, 1, 1, 1, 4, 4, 3]);
}

#[test]
fn inserting_values() {
    let mut v = vec![0, 0, 0, 1, 1, 1, 1, 1, 1, 1, 3, 3, 1, 0, 99, 99, 9];
    let mut rle = RleVec::from(&v[..]);
    rle.insert(0, 1);
    v.insert(0, 1);
    assert_eq!((0..rle.len()).map(|i| rle[i]).collect::<Vec<_>>(), v);
    assert_eq!(rle.len(), 18);
    rle.insert(18, 9);
    v.insert(18, 9);
    assert_eq!((0..rle.len()).map(|i| rle[i]).collect::<Vec<_>>(), v);
    rle.insert(19, 10);
    v.insert(19, 10);
    assert_eq!((0..rle.len()).map(|i| rle[i]).collect::<Vec<_>>(), v);

    rle.insert(2, 0);
    v.insert(2, 0);
    assert_eq!((0..rle.len()).map(|i| rle[i]).collect::<Vec<_>>(), v);
    assert_eq!(rle.runs_len(), 9);

    rle.insert(8, 0);
    v.insert(8, 0);
    assert_eq!((0..rle.len()).map(|i| rle[i]).collect::<Vec<_>>(), v);
    assert_eq!(rle.runs_len(), 11);

    rle.insert(13, 4);
    v.insert(13, 4);
    assert_eq!((0..rle.len()).map(|i| rle[i]).collect::<Vec<_>>(), v);
    assert_eq!(rle.runs_len(), 12);

    let v = vec![0, 0, 0, 1, 1, 1, 1, 2, 2, 3];
    let mut rle: RleVec<_> = RleVec::from_iter(v.into_iter());
    rle.set(1, 2);
    assert_eq!(rle.iter().cloned().collect::<Vec<_>>(), vec![0, 2, 0, 1, 1, 1, 1, 2, 2, 3]);
    rle.insert(4, 4);
    assert_eq!(rle.iter().cloned().collect::<Vec<_>>(), vec![0, 2, 0, 1, 4, 1, 1, 1, 2, 2, 3]);
    rle.insert(7, 1);
    assert_eq!(
        rle.iter().cloned().collect::<Vec<_>>(),
        vec![0, 2, 0, 1, 4, 1, 1, 1, 1, 2, 2, 3]
    );
    rle.insert(8, 8);
    assert_eq!(
        rle.iter().cloned().collect::<Vec<_>>(),
        vec![0, 2, 0, 1, 4, 1, 1, 1, 8, 1, 2, 2, 3]
    );
}

#[test]
fn from_slice() {
    let v = vec![0, 0, 0, 1, 1, 1, 1, 1, 1, 1, 3, 3, 1, 0, 99, 99, 9];
    let rle = RleVec::from(&v[..]);
    assert_eq!((0..v.len()).map(|i| rle[i]).collect::<Vec<_>>(), v);
    assert_eq!(rle.len(), 17);

    let v2: Vec<_> = rle.into();
    assert_eq!(v2, v);
}

#[test]
fn iterators() {
    let v = vec![0, 0, 0, 1, 1, 1, 1, 1, 1, 1, 3, 3, 123, 0, 90, 90, 99];
    let rle = RleVec::from_iter(v.iter().cloned());
    assert_eq!((0..v.len()).map(|i| rle[i]).collect::<Vec<_>>(), v);
    assert_eq!(rle.len(), 17);

    assert_eq!(rle.iter().cloned().collect::<Vec<_>>(), v);
    assert_eq!(RleVec::<i64>::new().iter().next(), None);

    let v2 = (0..100).collect::<Vec<usize>>();
    let rle2 = RleVec::from_iter(v2.iter().cloned());
    assert_eq!(rle2.iter().cloned().collect::<Vec<_>>(), v2);
    assert_eq!(rle2.iter().skip(0).cloned().collect::<Vec<_>>(), v2);

    assert_eq!(rle2.iter().nth(0), Some(&0));
    assert_eq!(rle2.iter().nth(5), Some(&5));
    assert_eq!(rle2.iter().nth(99), Some(&99));
    assert_eq!(rle2.iter().nth(100), None);
    let mut it = rle2.iter();
    it.nth(0);
    assert_eq!(it.nth(0), Some(&1));

    assert_eq!(rle.iter().nth(3), Some(&1));
    assert_eq!(rle.iter().nth(14), Some(&90));
    assert_eq!(rle.iter().nth(15), Some(&90));

    assert_eq!(rle.iter().skip(2).next(), Some(&0));
    assert_eq!(rle.iter().skip(3).next(), Some(&1));

    assert_eq!(rle.iter().max(), Some(&123));
    assert_eq!(rle.iter().min(), Some(&0));
    assert_eq!(rle.iter().skip(13).max(), Some(&99));
    assert_eq!(rle.iter().skip(13).min(), Some(&0));
    assert_eq!(rle.iter().skip(13).take(2).max(), Some(&90));
    assert_eq!(rle.iter().skip(13).take(2).min(), Some(&0));

    assert_eq!(rle.iter().count(), 17);
    assert_eq!(rle.iter().skip(10).last(), Some(&99));
    assert_eq!(rle.iter().skip(30).last(), None);

    //runiters
    assert_eq!(
        rle.runs().map(|r| r.value).collect::<Vec<_>>(),
        vec![&0, &1, &3, &123, &0, &90, &99]
    );
    assert_eq!(rle.runs().map(|r| r.len).collect::<Vec<_>>(), vec![3, 7, 2, 1, 1, 2, 1]);

    let mut copy = RleVec::new();
    for r in rle.runs() {
        copy.push_n(r.len, r.value.clone());
    }
    assert_eq!(copy.iter().cloned().collect::<Vec<_>>(), v);
    let copy2: RleVec<i32> = RleVec::from_runs(
        rle.runs().map(|r| Run { start: r.start, value: r.value.clone(), len: r.len }),
    );
    assert_eq!(copy2.iter().cloned().collect::<Vec<_>>(), v);
}

#[test]
fn back_iterators() {
    let rle = RleVec::from(&[0, 1, 1, 3, 3, 9, 99][..]);

    // only next_back()
    let mut iter = rle.iter();
    assert_eq!(iter.next_back(), Some(&99));
    assert_eq!(iter.next_back(), Some(&9));
    assert_eq!(iter.next_back(), Some(&3));
    assert_eq!(iter.next_back(), Some(&3));
    assert_eq!(iter.next_back(), Some(&1));
    assert_eq!(iter.next_back(), Some(&1));
    assert_eq!(iter.next_back(), Some(&0));
    assert_eq!(iter.next_back(), None);

    // next_back() combine with next()
    let mut iter = rle.iter();
    assert_eq!(iter.next_back(), Some(&99));
    assert_eq!(iter.next(), Some(&0));
    assert_eq!(iter.next(), Some(&1));
    assert_eq!(iter.next_back(), Some(&9));
    assert_eq!(iter.next_back(), Some(&3));
    assert_eq!(iter.next_back(), Some(&3));
    assert_eq!(iter.next(), Some(&1));
    assert_eq!(iter.next_back(), None);
    assert_eq!(iter.next(), None);

    // rare usages of next_back() combine with next()
    let rle = RleVec::from(&[0][..]);
    let mut iter = rle.iter();
    assert_eq!(iter.next_back(), Some(&0));
    assert_eq!(iter.next(), None);

    let rle = RleVec::<i32>::from(&[][..]);
    let mut iter = rle.iter();
    assert_eq!(iter.next_back(), None);
    assert_eq!(iter.next(), None);
}

#[test]
fn run_iters() {
    let rle = RleVec::from(&[1, 1, 1, 1, 1, 2, 2, 2, 2, 3, 3, 3, 5, 5, 5, 5][..]);

    let mut iterator = rle.runs();

    assert_eq!(iterator.next(), Some(Run { start: 0, len: 5, value: &1 }));
    assert_eq!(iterator.next(), Some(Run { start: 5, len: 4, value: &2 }));
    assert_eq!(iterator.next(), Some(Run { start: 9, len: 3, value: &3 }));
    assert_eq!(iterator.next(), Some(Run { start: 12, len: 4, value: &5 }));
    assert_eq!(iterator.next(), None);
    assert_eq!(iterator.next(), None);

    let mut iterator = rle.runs();

    assert_eq!(iterator.nth(0), Some(Run { start: 0, len: 5, value: &1 }));
    assert_eq!(iterator.nth(0), Some(Run { start: 5, len: 4, value: &2 }));
    assert_eq!(iterator.nth(0), Some(Run { start: 9, len: 3, value: &3 }));
    assert_eq!(iterator.nth(0), Some(Run { start: 12, len: 4, value: &5 }));
    assert_eq!(iterator.nth(0), None);

    let mut iterator = rle.runs();

    assert_eq!(iterator.nth(0), Some(Run { start: 0, len: 5, value: &1 }));
    assert_eq!(iterator.nth(1), Some(Run { start: 9, len: 3, value: &3 }));
    assert_eq!(iterator.nth(0), Some(Run { start: 12, len: 4, value: &5 }));
    assert_eq!(iterator.nth(0), None);

    assert_eq!(rle.runs().count(), 4);
    assert_eq!(rle.runs().last(), Some(Run { start: 12, len: 4, value: &5 }));
    assert_eq!(rle.runs().skip(10).last(), None);
}

#[test]
fn starts_ends() {
    let v = vec![0, 0, 0, 1, 1, 1, 1, 1, 1, 1, 3, 3, 1, 0, 99, 99, 9];
    let rle = RleVec::from_iter(v.iter().cloned());
    assert_eq!(rle.starts(), vec![0, 3, 10, 12, 13, 14, 16]);
    assert_eq!(rle.ends(), vec![2, 9, 11, 12, 13, 15, 16]);

    let rle = RleVec::<i64>::new();
    assert!(rle.starts().is_empty());
    assert!(rle.ends().is_empty());
}

#[test]
fn write_trait() {
    let data_in = vec![1, 1, 1, 1, 1, 2, 2, 2, 3, 3, 3];
    let mut rle = RleVec::new();
    rle.write_all(data_in.as_slice());
    assert_eq!(rle.runs_len(), 3);
    assert_eq!(rle.len(), 11);

    rle.write(&data_in[6..]);
    assert_eq!(rle.runs_len(), 5);
    assert_eq!(rle.len(), 16);

    rle.write(&[3, 3, 3]);
    assert_eq!(rle.runs_len(), 5);
    assert_eq!(rle.len(), 19);
}
