use sorting::quicksort;

fn assert_vec_eq<T: PartialEq>(vec1: Vec<T>, vec2: Vec<T>) {
    if vec1.len() != vec2.len() {
        assert!(false);
    }

    for i in 0..vec1.len() {
        assert!(vec1[i] == vec2[i]);
    }
}

#[test]
fn quicksort_already_sorted() {
    let mut v = vec![0, 1, 2, 3, 4, 5, 6, 7, 8, 9, 10];

    let v_len = v.len();

    quicksort(v.as_mut(), 0, v_len - 1);

    assert_vec_eq(v, vec![0, 1, 2, 3, 4, 5, 6, 7, 8, 9, 10]);
}

#[test]
fn quicksort_single_element() {
    let mut v = vec![1];

    let v_len = v.len();

    quicksort(v.as_mut(), 0, v_len - 1);

    assert_vec_eq(v, vec![1]);
}

#[test]
fn empty_vector() {
    let mut v: Vec<i32> = vec![];

    let v_len = v.len();

    quicksort(v.as_mut(), 0, v_len);

    assert_vec_eq(v, vec![]);
}

#[test]
fn random_order() {
    let mut v = vec![3, 6, 8, 10, 1, 2, 1];

    let v_len = v.len();

    quicksort(v.as_mut(), 0, v_len - 1);

    assert_vec_eq(v, vec![1, 1, 2, 3, 6, 8, 10]);
}

#[test]
fn descending_to_ascending() {
    let mut v = vec![10, 9, 8, 7, 6, 5, 4, 3, 2, 1, 0];

    let v_len = v.len();

    quicksort(v.as_mut(), 0, v_len - 1);

    assert_vec_eq(v, vec![0, 1, 2, 3, 4, 5, 6, 7, 8, 9, 10]);
}

#[test]
fn quicksort_subrange_leaves_rest_untouched() {
    let mut v = vec![9, 5, 4, 3, 8, 0];
    quicksort(v.as_mut_slice(), 1, 4);
    assert_eq!(v, vec![9, 3, 4, 5, 8, 0]);
}

#[test]
fn quicksort_low_not_below_high_is_no_op() {
    let mut v = vec![3, 2, 1];
    quicksort(v.as_mut_slice(), 2, 1);
    assert_eq!(v, vec![3, 2, 1]);
    quicksort(v.as_mut_slice(), 1, 1);
    assert_eq!(v, vec![3, 2, 1]);
}

#[test]
fn quicksort_duplicates_and_extremes() {
    let mut v = vec![i32::MAX, 0, i32::MIN, 0, -7, i32::MAX, 2];
    let n = v.len();
    quicksort(v.as_mut_slice(), 0, n - 1);
    assert_eq!(v, vec![i32::MIN, -7, 0, 0, 2, i32::MAX, i32::MAX]);
}

#[test]
fn quicksort_twice_is_unchanged() {
    let mut v = vec![4, -2, 7, 4, 1];
    let n = v.len();
    quicksort(v.as_mut_slice(), 0, n - 1);
    let once = v.clone();
    quicksort(v.as_mut_slice(), 0, n - 1);
    assert_eq!(v, once);
    assert_eq!(v, vec![-2, 1, 4, 4, 7]);
}

#[test]
fn quicksort_output_is_ordered_permutation() {
    let input = vec![9, 3, 3, -8, 12, 0, 7, -8, 1];
    let mut v = input.clone();
    let n = v.len();
    quicksort(v.as_mut_slice(), 0, n - 1);
    for k in 0..n - 1 {
        assert!(v[k] <= v[k + 1]);
    }
    let mut a = input.clone();
    a.sort();
    assert_eq!(v, a);
}

#[test]
fn quicksort_all_equal() {
    let mut v = vec![5, 5, 5, 5];
    quicksort(v.as_mut_slice(), 0, 3);
    assert_eq!(v, vec![5, 5, 5, 5]);
}
