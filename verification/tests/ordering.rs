use spline_relu::ordering::{descending_order, gather};

#[test]
fn orders_by_descending_key() {
    assert_eq!(descending_order(&vec![3, 9, 1, 5]), vec![1, 3, 0, 2]);
}

#[test]
fn ties_keep_index_order() {
    assert_eq!(descending_order(&vec![4, 7, 4, 7, 4]), vec![1, 3, 0, 2, 4]);
    assert_eq!(descending_order(&vec![2, 2, 2]), vec![0, 1, 2]);
}

#[test]
fn empty_and_single() {
    assert_eq!(descending_order(&vec![]), Vec::<usize>::new());
    assert_eq!(descending_order(&vec![u64::MAX]), vec![0]);
}

#[test]
fn float_bits_order_like_values() {
    let sigmas = [0.5f64, 2.0, 0.0, 1.0e-300, 2.0, 1.5];
    let keys: Vec<u64> = sigmas.iter().map(|s| s.to_bits()).collect();
    let order = descending_order(&keys);
    assert_eq!(order, vec![1, 4, 5, 0, 3, 2]);
    let sorted = gather(&sigmas.to_vec(), &order);
    assert_eq!(sorted, vec![2.0, 2.0, 1.5, 0.5, 1.0e-300, 0.0]);
}

#[test]
fn gather_picks_entries() {
    assert_eq!(gather(&vec![10, 20, 30], &vec![2, 2, 0]), vec![30, 30, 10]);
    assert_eq!(gather(&vec![10, 20, 30], &vec![]), Vec::<i32>::new());
}
