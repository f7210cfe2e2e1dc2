use snippets::bubble_sort;
use snippets::bucket_sort;
use snippets::counting_sort;
use snippets::heap_sort;
use snippets::insertion_sort;
use snippets::merge::merge;
use snippets::merge_sort;
use snippets::quick_sort;
use snippets::radix_sort;
use snippets::selection_sort;
use snippets::shell_sort;

fn all_sorts(input: &Vec<i32>) -> Vec<Vec<i32>> {
    vec![
        bubble_sort(input),
        selection_sort(input),
        insertion_sort(input),
        shell_sort(input),
        merge_sort(input),
        quick_sort(input),
        heap_sort(input),
        counting_sort(input),
        radix_sort(input),
        bucket_sort(input, 5),
    ]
}

#[test]
fn classic_sequence_every_algorithm() {
    let input = vec![64, 34, 25, 12, 22, 11, 90];
    let expected = vec![11, 12, 22, 25, 34, 64, 90];
    for result in all_sorts(&input) {
        assert_eq!(result, expected);
    }
}

#[test]
fn empty_input_every_algorithm() {
    let input: Vec<i32> = vec![];
    let expected: Vec<i32> = vec![];
    for result in all_sorts(&input) {
        assert_eq!(result, expected);
    }
}

#[test]
fn single_element_every_algorithm() {
    let input = vec![5];
    let expected = vec![5];
    for result in all_sorts(&input) {
        assert_eq!(result, expected);
    }
}

#[test]
fn all_equal_every_algorithm() {
    let input = vec![3, 3, 3];
    let expected = vec![3, 3, 3];
    for result in all_sorts(&input) {
        assert_eq!(result, expected);
    }
}

#[test]
fn mixed_signs_every_algorithm() {
    let input = vec![0, -7, 19, -7, 3, 0, -120, 44];
    let expected = vec![-120, -7, -7, 0, 0, 3, 19, 44];
    for result in all_sorts(&input) {
        assert_eq!(result, expected);
    }
}

#[test]
fn reverse_sorted_every_algorithm() {
    let input = vec![9, 7, 5, 3, 1, 0, -2];
    let expected = vec![-2, 0, 1, 3, 5, 7, 9];
    for result in all_sorts(&input) {
        assert_eq!(result, expected);
    }
}

#[test]
fn already_sorted_returns_input_unchanged() {
    let input = vec![-4, -1, 0, 0, 2, 8, 8, 50];
    for result in all_sorts(&input) {
        assert_eq!(result, input);
    }
}

#[test]
fn algorithms_agree_on_larger_input() {
    let mut input: Vec<i32> = Vec::new();
    let mut x: i64 = 37;
    for _ in 0..200 {
        x = (x * 1103515245 + 12345) % 2017;
        input.push((x - 1008) as i32);
    }
    let reference = merge_sort(&input);
    for result in all_sorts(&input) {
        assert_eq!(result, reference);
    }
}

#[test]
fn radix_negative_mix() {
    assert_eq!(radix_sort(&vec![-5, 3, -1, 0, 2, -8]), vec![-8, -5, -1, 0, 2, 3]);
}

#[test]
fn radix_all_negative() {
    assert_eq!(radix_sort(&vec![-2, -1, -3]), vec![-3, -2, -1]);
}

#[test]
fn radix_multi_digit() {
    assert_eq!(
        radix_sort(&vec![170, 45, 75, 90, 802, 24, 2, 66]),
        vec![2, 24, 45, 66, 75, 90, 170, 802]
    );
}

#[test]
fn extreme_values_without_counting_sort() {
    let input = vec![i32::MAX, i32::MIN, 0, -1, 1, i32::MIN, i32::MAX - 1];
    let expected = vec![i32::MIN, i32::MIN, -1, 0, 1, i32::MAX - 1, i32::MAX];
    assert_eq!(bubble_sort(&input), expected);
    assert_eq!(selection_sort(&input), expected);
    assert_eq!(insertion_sort(&input), expected);
    assert_eq!(shell_sort(&input), expected);
    assert_eq!(merge_sort(&input), expected);
    assert_eq!(quick_sort(&input), expected);
    assert_eq!(heap_sort(&input), expected);
    assert_eq!(radix_sort(&input), expected);
    assert_eq!(bucket_sort(&input, 3), expected);
}

#[test]
fn counting_sort_tight_range() {
    assert_eq!(counting_sort(&vec![4, 2, 2, 8, 3, 3, 1]), vec![1, 2, 2, 3, 3, 4, 8]);
}

#[test]
fn counting_sort_negative_range() {
    assert_eq!(counting_sort(&vec![-3, 7, -3, 0, -5]), vec![-5, -3, -3, 0, 7]);
}

#[test]
fn bucket_two_buckets() {
    assert_eq!(bucket_sort(&vec![7, 1, 9, 3], 2), vec![1, 3, 7, 9]);
}

#[test]
fn bucket_single_bucket_matches_insertion_sort() {
    let cases = vec![
        vec![7, 1, 9, 3],
        vec![],
        vec![5],
        vec![3, 3, 3],
        vec![-5, 3, -1, 0, 2, -8],
        vec![64, 34, 25, 12, 22, 11, 90],
    ];
    for case in cases {
        assert_eq!(bucket_sort(&case, 1), insertion_sort(&case));
    }
}

#[test]
fn bucket_more_buckets_than_values() {
    assert_eq!(bucket_sort(&vec![2, -9, 4], 100), vec![-9, 2, 4]);
}

#[test]
fn merge_step_takes_left_half_first_on_ties() {
    let left = vec![1, 3, 3];
    let right = vec![2, 3, 4];
    assert_eq!(merge(&left, &right), vec![1, 2, 3, 3, 3, 4]);
}

#[test]
fn merge_step_exhausts_either_side() {
    assert_eq!(merge(&vec![], &vec![1, 2]), vec![1, 2]);
    assert_eq!(merge(&vec![1, 2], &vec![]), vec![1, 2]);
    assert_eq!(merge(&vec![5, 6], &vec![1, 2]), vec![1, 2, 5, 6]);
}
