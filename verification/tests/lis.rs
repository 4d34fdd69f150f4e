use rue_core::node::children::{longest_increasing_subsequence, longest_increasing_subsequence_filtered};

#[test]
fn test_lis_empty() {
    assert_eq!(longest_increasing_subsequence(&[]), Vec::<usize>::new());
}

#[test]
fn test_lis_single() {
    assert_eq!(longest_increasing_subsequence(&[5]), vec![0]);
}

#[test]
fn test_lis_increasing() {
    assert_eq!(longest_increasing_subsequence(&[1, 2, 3, 4]), vec![0, 1, 2, 3]);
}

#[test]
fn test_lis_decreasing() {
    let result = longest_increasing_subsequence(&[4, 3, 2, 1]);
    // Any single element is a valid LIS of length 1
    assert_eq!(result.len(), 1);
}

#[test]
fn test_lis_mixed() {
    // 0, 8, 4, 12, 2, 10, 6, 14, 1, 9, 5, 13, 3, 11, 7, 15
    // LIS: 0, 2, 6, 9, 11, 15 (values), or 0, 4, 6, 9, 13, 15 (indices)
    let arr = [0, 8, 4, 12, 2, 10, 6, 14, 1, 9, 5, 13, 3, 11, 7, 15];
    let result = longest_increasing_subsequence(&arr);
    // Verify it's increasing
    for w in result.windows(2) {
        assert!(arr[w[0]] < arr[w[1]], "LIS should be increasing");
    }
    // The known LIS length is 6
    assert_eq!(result.len(), 6);
}

#[test]
fn test_lis_filtered() {
    let arr = vec![Some(0), None, Some(1), None, Some(2)];
    let result = longest_increasing_subsequence_filtered(&arr);
    assert_eq!(result, vec![0, 2, 4]);
}

#[test]
fn test_lis_filtered_out_of_order() {
    let arr = vec![Some(2), None, Some(0), Some(1)];
    let result = longest_increasing_subsequence_filtered(&arr);
    assert_eq!(result.len(), 2);
    // Should be indices 2, 3 (values 0, 1)
    assert!(result.contains(&2));
    assert!(result.contains(&3));
}

/// Checks that `result` indexes a strictly increasing subsequence of `arr`.
fn assert_increasing_indices(arr: &[usize], result: &[usize]) {
    for w in result.windows(2) {
        assert!(w[0] < w[1]);
        assert!(arr[w[0]] < arr[w[1]]);
    }
    for &i in result {
        assert!(i < arr.len());
    }
}

#[test]
fn lis_mixed_exact_indices() {
    // Patience sorting with predecessor links picks this subsequence.
    let arr = [0, 8, 4, 12, 2, 10, 6, 14, 1, 9, 5, 13, 3, 11, 7, 15];
    let result = longest_increasing_subsequence(&arr);
    assert_eq!(result, vec![0, 4, 6, 9, 13, 15]);
}

#[test]
fn lis_equal_values_are_not_increasing() {
    let arr = [3, 3, 3];
    let result = longest_increasing_subsequence(&arr);
    assert_eq!(result.len(), 1);
    assert_increasing_indices(&arr, &result);
}

#[test]
fn lis_keeps_the_later_tie() {
    // 2 then 1 both end a subsequence of length one; the later, smaller
    // value replaces the earlier one, so the subsequence ends ..., 1, 5.
    let arr = [2, 1, 5];
    assert_eq!(longest_increasing_subsequence(&arr), vec![1, 2]);
}

#[test]
fn lis_various_lengths_are_longest() {
    let cases: Vec<(Vec<usize>, usize)> = vec![
        (vec![10, 9, 2, 5, 3, 7, 101, 18], 4),
        (vec![0, 1, 0, 3, 2, 3], 4),
        (vec![7, 7, 7, 7], 1),
        (vec![1, 3, 6, 7, 9, 4, 10, 5, 6], 6),
        (vec![5, 4, 3, 2, 1, 6], 2),
    ];
    for (arr, len) in cases {
        let result = longest_increasing_subsequence(&arr);
        assert_eq!(result.len(), len);
        assert_increasing_indices(&arr, &result);
    }
}

#[test]
fn lis_filtered_all_absent() {
    let arr: Vec<Option<usize>> = vec![None, None, None];
    assert_eq!(longest_increasing_subsequence_filtered(&arr), Vec::<usize>::new());
}

#[test]
fn lis_filtered_empty() {
    let arr: Vec<Option<usize>> = vec![];
    assert_eq!(longest_increasing_subsequence_filtered(&arr), Vec::<usize>::new());
}

#[test]
fn lis_filtered_maps_back_to_input_positions() {
    let arr = vec![None, Some(5), Some(1), None, Some(2), Some(9)];
    let result = longest_increasing_subsequence_filtered(&arr);
    assert_eq!(result, vec![2, 4, 5]);
}
