use nonogram_bits::encode::{row_as_nums, row_diff};

#[test]
fn row_as_nums_test() {
    assert_eq!(row_as_nums(&vec![]), Vec::<usize>::new());
    assert_eq!(row_as_nums(&vec![true]), vec![1]);
    assert_eq!(row_as_nums(&vec![false, false, false]), Vec::<usize>::new());
    assert_eq!(row_as_nums(&vec![true, false, true]), vec![1, 1]);
    assert_eq!(row_as_nums(&vec![false, true, false]), vec![1]);
    assert_eq!(row_as_nums(&vec![true, false, false]), vec![1]);
    assert_eq!(row_as_nums(&vec![false, false, true]), vec![1]);
    assert_eq!(row_as_nums(&vec![false, true, true]), vec![2]);
    assert_eq!(row_as_nums(&vec![true, true, false]), vec![2]);
}

#[test]
fn runs_of_mixed_lengths() {
    let row = vec![true, true, true, false, false, true, false, true, true];
    assert_eq!(row_as_nums(&row), vec![3, 1, 2]);
    assert_eq!(row_as_nums(&vec![true, true, true, true]), vec![4]);
}

#[test]
fn penalty_zero_on_exact_match() {
    assert_eq!(row_diff(&vec![true, false, true, true], &vec![1, 2]), 0);
    assert_eq!(row_diff(&vec![false, false], &vec![]), 0);
    assert_eq!(row_diff(&vec![], &vec![]), 0);
}

#[test]
fn penalty_squares_paired_differences() {
    // runs [3] against [1]: (3 - 1)^2
    assert_eq!(row_diff(&vec![true, true, true], &vec![1]), 4);
    // runs [1, 1] against [2, 3]: 1 + 4
    assert_eq!(row_diff(&vec![true, false, true], &vec![2, 3]), 5);
}

#[test]
fn penalty_counts_missing_entries_as_zero() {
    // no runs against [2, 3]: 4 + 9
    assert_eq!(row_diff(&vec![false, false, false], &vec![2, 3]), 13);
    // runs [1, 2] against nothing: 1 + 4
    assert_eq!(row_diff(&vec![true, false, true, true], &vec![]), 5);
    // runs [1, 1, 1] against [1]: 0 + 1 + 1
    assert_eq!(row_diff(&vec![true, false, true, false, true], &vec![1]), 2);
}

#[test]
fn penalty_nonzero_when_lengths_differ() {
    assert!(row_diff(&vec![true, false, true], &vec![1]) > 0);
    assert!(row_diff(&vec![true], &vec![1, 1]) > 0);
}
