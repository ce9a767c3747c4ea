use ndarray_select::select::{partition_range, select_range, select_range_with};
use ndarray_select::{IntArray1, Sort1dExt};
use rand::Rng;

fn sorted(v: &[i64]) -> Vec<i64> {
    let mut w = v.to_vec();
    w.sort();
    w
}

fn random_vec(rng: &mut rand::rngs::ThreadRng, len: usize, spread: i64) -> Vec<i64> {
    (0..len).map(|_| rng.gen_range(-spread, spread + 1)).collect()
}

#[test]
fn third_smallest_of_six() {
    let mut a = IntArray1::from_vec(vec![5, 3, 8, 1, 9, 2]);
    let r = a.sorted_get_mut(2);
    assert_eq!(r, 3);
    let after = a.to_vec();
    let mut head = after[..2].to_vec();
    head.sort();
    assert_eq!(head, vec![1, 2]);
    assert_eq!(after[2], 3);
    assert!(after[3..].iter().all(|&x| x >= 3));
    assert_eq!(sorted(&after), vec![1, 2, 3, 5, 8, 9]);
}

#[test]
fn partition_all_equal_terminates() {
    let mut a = IntArray1::from_vec(vec![4, 4, 4]);
    let q = a.partition_mut(1);
    assert!(q < 3);
    assert_eq!(a.to_vec(), vec![4, 4, 4]);
}

#[test]
fn singleton_select() {
    let mut a = IntArray1::from_vec(vec![7]);
    assert_eq!(a.sorted_get_mut(0), 7);
    assert_eq!(a.to_vec(), vec![7]);
}

#[test]
fn singleton_partition() {
    let mut a = IntArray1::from_vec(vec![-3]);
    assert_eq!(a.partition_mut(0), 0);
    assert_eq!(a.to_vec(), vec![-3]);
}

#[test]
fn partition_reports_pivot_position() {
    let mut a = IntArray1::from_vec(vec![6, 2, 9, 4, 7, 1]);
    let q = a.partition_mut(3);
    assert_eq!(q, 2);
    let after = a.to_vec();
    assert_eq!(after[2], 4);
    assert!(after[..2].iter().all(|&x| x < 4));
    assert!(after[2..].iter().all(|&x| x >= 4));
    assert_eq!(sorted(&after), vec![1, 2, 4, 6, 7, 9]);
}

#[test]
fn partition_invariant_on_random_arrays() {
    let mut rng = rand::thread_rng();
    for len in 1..40usize {
        for _ in 0..5 {
            let v = random_vec(&mut rng, len, 6);
            let p = rng.gen_range(0, len);
            let mut a = IntArray1::from_vec(v.clone());
            let q = a.partition_mut(p);
            let after = a.to_vec();
            assert!(q < len);
            assert_eq!(after[q], v[p]);
            assert!(after[..q].iter().all(|&x| x < after[q]));
            assert!(after[q..].iter().all(|&x| x >= after[q]));
            assert_eq!(sorted(&after), sorted(&v));
        }
    }
}

#[test]
fn selection_matches_sorting_on_random_arrays() {
    let mut rng = rand::thread_rng();
    for len in 1..30usize {
        for _ in 0..3 {
            let v = random_vec(&mut rng, len, 10);
            let reference = sorted(&v);
            for i in 0..len {
                let mut a = IntArray1::from_vec(v.clone());
                let r = a.sorted_get_mut(i);
                let after = a.to_vec();
                assert_eq!(r, reference[i]);
                assert_eq!(after[i], r);
                assert!(after[..i].iter().all(|&x| x <= r));
                assert!(after[i + 1..].iter().all(|&x| x >= r));
                if i == 0 || reference[i - 1] < reference[i] {
                    assert!(after[..i].iter().all(|&x| x < r));
                }
                assert_eq!(sorted(&after), reference);
            }
        }
    }
}

#[test]
fn selection_with_duplicates_of_the_result() {
    let mut a = IntArray1::from_vec(vec![4, 4]);
    assert_eq!(a.sorted_get_mut(1), 4);
    let mut b = IntArray1::from_vec(vec![2, 5, 5, 5, 1]);
    assert_eq!(b.sorted_get_mut(3), 5);
    assert_eq!(sorted(&b.to_vec()), vec![1, 2, 5, 5, 5]);
}

#[test]
fn extremes_of_the_integer_range() {
    let v = vec![i64::MAX, 0, i64::MIN, -1, i64::MAX];
    let mut a = IntArray1::from_vec(v.clone());
    assert_eq!(a.sorted_get_mut(0), i64::MIN);
    let mut b = IntArray1::from_vec(v);
    assert_eq!(b.sorted_get_mut(4), i64::MAX);
}

#[test]
fn select_with_first_and_last_pivots() {
    let v = vec![10, 40, 30, 20, 50, 0, 60];
    for i in 0..v.len() {
        let mut a = IntArray1::from_vec(v.clone());
        assert_eq!(select_range_with(&mut a, 0, v.len(), i, &|_n: usize| 0), sorted(&v)[i]);
        let mut b = IntArray1::from_vec(v.clone());
        assert_eq!(select_range_with(&mut b, 0, v.len(), i, &|n: usize| n - 1), sorted(&v)[i]);
    }
}

#[test]
fn range_operations_leave_outside_untouched() {
    let mut a = IntArray1::from_vec(vec![9, 8, 7, 6, 5, 4, 3]);
    let q = partition_range(&mut a, 2, 6, 3);
    let after = a.to_vec();
    assert_eq!(q, 4);
    assert_eq!(&after[..2], &[9, 8]);
    assert_eq!(after[6], 3);
    assert_eq!(after[4], 6);
    let mut b = IntArray1::from_vec(vec![9, 8, 7, 6, 5, 4, 3]);
    assert_eq!(select_range(&mut b, 1, 5, 1), 5);
    let after = b.to_vec();
    assert_eq!(after[0], 9);
    assert_eq!(&after[5..], &[4, 3]);
}

#[test]
fn vector_round_trip() {
    let a = IntArray1::from_vec(vec![3, -1, 2]);
    assert_eq!(a.to_vec(), vec![3, -1, 2]);
    let e = IntArray1::from_vec(vec![]);
    assert_eq!(e.to_vec(), Vec::<i64>::new());
}
