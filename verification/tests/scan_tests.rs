use crumble::scan::{find_crumble, MINE_SCALE};

#[test]
fn classic_preamble_with_reachable_successor() {
    // 26 = 1 + 25 from two distinct window positions, so the scan accepts it
    let mut numbers: Vec<u128> = (1..=25).collect();
    numbers.push(26);
    assert_eq!(find_crumble(&numbers, 25), None);
}

#[test]
fn classic_preamble_with_unreachable_successor() {
    // the largest window pair is 24 + 25 = 49, so 51 has no decomposition
    let mut numbers: Vec<u128> = (1..=25).collect();
    numbers.push(51);
    assert_eq!(find_crumble(&numbers, 25), Some(51));
}

#[test]
fn repeated_value_decomposes_its_double() {
    // window [5, 5]: 10 = 5 + 5 from two distinct positions
    let numbers: Vec<u128> = vec![5, 5, 10];
    assert_eq!(find_crumble(&numbers, 2), None);
}

#[test]
fn single_value_does_not_decompose_its_double() {
    // window [5]: the only split of 10 would use position 0 twice
    let numbers: Vec<u128> = vec![5, 10];
    assert_eq!(find_crumble(&numbers, 1), Some(10));
}

#[test]
fn target_below_every_window_element_fails() {
    // every difference would underflow, so no pair exists
    let numbers: Vec<u128> = vec![10, 20, 5];
    assert_eq!(find_crumble(&numbers, 2), Some(5));
}

#[test]
fn empty_input_finds_nothing() {
    let numbers: Vec<u128> = Vec::new();
    assert_eq!(find_crumble(&numbers, 3), None);
}

#[test]
fn input_no_longer_than_window_finds_nothing() {
    let numbers: Vec<u128> = vec![1, 2, 3];
    assert_eq!(find_crumble(&numbers, 3), None);
}

#[test]
fn all_zero_tail_decomposes() {
    // 0 = 0 + 0 from two distinct window positions
    let numbers: Vec<u128> = vec![0, 0, 0, 0, 0];
    assert_eq!(find_crumble(&numbers, 2), None);
}

#[test]
fn worked_example_window_five() {
    let numbers: Vec<u128> = vec![
        35, 20, 15, 25, 47, 40, 62, 55, 65, 95, 102, 117, 150, 182, 127, 219, 299, 277, 309, 576,
    ];
    assert_eq!(find_crumble(&numbers, 5), Some(127));
}

#[test]
fn first_failing_index_wins() {
    // both 40 and 41 fail the test; the scan stops at 40
    let numbers: Vec<u128> = vec![1, 2, 40, 41];
    assert_eq!(find_crumble(&numbers, 2), Some(40));
}

#[test]
fn zero_window_rejects_first_element() {
    // an empty window decomposes nothing
    let numbers: Vec<u128> = vec![7, 8];
    assert_eq!(find_crumble(&numbers, 0), Some(7));
}

#[test]
fn values_beyond_sixty_four_bits() {
    let big: u128 = 1 << 100;
    let numbers: Vec<u128> = vec![big, 3, big + 4];
    assert_eq!(find_crumble(&numbers, 2), Some(big + 4));
    let pair: Vec<u128> = vec![big, big + 3, 2 * big + 3];
    assert_eq!(find_crumble(&pair, 2), None);
}

#[test]
fn default_window_size_scan() {
    let mut numbers: Vec<u128> = vec![1; MINE_SCALE];
    numbers.extend([2u128, 3, 4, 5]);
    assert_eq!(find_crumble(&numbers, MINE_SCALE), None);
}

#[test]
fn default_window_size_failure() {
    // the only window sum is 1 + 1 = 2, which 3 is not
    let mut numbers: Vec<u128> = vec![1; MINE_SCALE];
    numbers.push(3);
    assert_eq!(find_crumble(&numbers, MINE_SCALE), Some(3));
}
