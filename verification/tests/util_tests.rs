use adventure_island::util::vec_equals;

#[test]
fn equals() {
    let vec_a = vec![1, 2, 3, 4, 5];
    let vec_b = vec![5, 4, 3, 2, 1];

    assert_eq!(vec_equals(&vec_a, &vec_b), true);
}

#[test]
fn not_equals() {
    let vec_a = vec![1, 2, 3, 4, 5];
    let vec_b = vec![5, 4, 3, 2, 42];

    assert_eq!(vec_equals(&vec_a, &vec_b), false);
}

#[test]
fn flat_len_counts_all_cells() {
    let vec: Vec<Vec<i32>> = vec![vec![1, 0, 0], vec![2, 3, 4]];
    assert_eq!(6, adventure_island::flat_2dvec::flat_len(&vec));
    let empty: Vec<Vec<i32>> = Vec::new();
    assert_eq!(0, adventure_island::flat_2dvec::flat_len(&empty));
}
