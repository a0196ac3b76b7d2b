use stract::positions::{intersection_with_slop, perform_pattern_match, SmallPatternPart};

fn aux_intersection(left: &[u32], right: &[u32], expected: &[u32], slop: u32) {
    let mut out = vec![0; left.len().max(right.len())];

    let intersection_size = intersection_with_slop(left, right, &mut out, slop);

    assert_eq!(&out[..intersection_size], expected);
}

#[test]
fn test_intersection_with_slop() {
    aux_intersection(&[20, 75, 77], &[18, 21, 60], &[21, 60], u32::MAX);
    aux_intersection(&[21, 60], &[50, 61], &[61], 1);

    aux_intersection(&[1, 2, 3], &[], &[], 1);
    aux_intersection(&[], &[1, 2, 3], &[], 1);

    aux_intersection(&[1, 2, 3], &[4, 5, 6], &[4], 1);
    aux_intersection(&[1, 2, 3], &[4, 5, 6], &[4, 5, 6], u32::MAX);

    aux_intersection(&[20, 75, 77], &[18, 21, 60], &[21, 60], u32::MAX);
    aux_intersection(&[21, 60], &[61, 62], &[61, 62], 2);

    aux_intersection(&[60], &[61, 62], &[61, 62], 2);
}

#[test]
fn intersection_keeps_rest_of_out() {
    let mut out = vec![7, 8, 9];
    let n = intersection_with_slop(&[5], &[1, 5, 9], &mut out, 0);
    assert_eq!(n, 1);
    assert_eq!(out, vec![5, 8, 9]);
}

#[test]
fn intersection_with_zero_slop_is_plain_intersection() {
    aux_intersection(&[1, 3, 5, 7], &[2, 3, 4, 7, 8], &[3, 7], 0);
}

#[test]
fn intersection_window_reaches_zero() {
    aux_intersection(&[0], &[0, 1, 2, 3], &[0, 1, 2], 2);
}

#[test]
fn intersection_repeated_positions() {
    aux_intersection(&[4, 4], &[5, 5, 6], &[5, 5], 1);
}

fn term() -> SmallPatternPart {
    SmallPatternPart::Term
}

fn wildcard() -> SmallPatternPart {
    SmallPatternPart::Wildcard
}

fn anchor() -> SmallPatternPart {
    SmallPatternPart::Anchor
}

#[test]
fn pattern_of_one_term_counts_its_positions() {
    assert_eq!(perform_pattern_match(&vec![term()], &vec![vec![3, 8, 9]], 20), 3);
    assert_eq!(perform_pattern_match(&vec![term()], &vec![vec![]], 20), 0);
    assert_eq!(perform_pattern_match(&vec![], &vec![vec![1, 2]], 20), 2);
}

#[test]
fn pattern_of_adjacent_terms() {
    // the second term one position behind the first
    assert_eq!(perform_pattern_match(&vec![term(), term()], &vec![vec![1, 5], vec![2, 9]], 20), 1);
    assert_eq!(perform_pattern_match(&vec![term(), term()], &vec![vec![1, 5], vec![3, 9]], 20), 0);
    assert_eq!(
        perform_pattern_match(
            &vec![term(), term(), term()],
            &vec![vec![1, 5], vec![2, 6], vec![7, 30]],
            40
        ),
        1
    );
}

#[test]
fn pattern_with_wildcard_allows_any_gap() {
    assert_eq!(
        perform_pattern_match(&vec![term(), wildcard(), term()], &vec![vec![4], vec![2, 9, 30]], 40),
        2
    );
    // the gap is open for the next term only
    assert_eq!(
        perform_pattern_match(
            &vec![term(), wildcard(), term(), term()],
            &vec![vec![4], vec![9, 30], vec![12, 31]],
            40
        ),
        1
    );
}

#[test]
fn pattern_with_anchors() {
    assert_eq!(perform_pattern_match(&vec![anchor(), term()], &vec![vec![0, 3]], 10), 2);
    assert_eq!(perform_pattern_match(&vec![anchor(), term()], &vec![vec![1, 3]], 10), 0);
    assert_eq!(perform_pattern_match(&vec![term(), anchor()], &vec![vec![1, 4]], 5), 2);
    assert_eq!(perform_pattern_match(&vec![term(), anchor()], &vec![vec![1, 4]], 6), 0);
    assert_eq!(
        perform_pattern_match(&vec![anchor(), term(), term(), anchor()], &vec![vec![0], vec![1]], 2),
        1
    );
    assert_eq!(
        perform_pattern_match(&vec![anchor(), term(), term(), anchor()], &vec![vec![0], vec![1]], 3),
        0
    );
    // an anchor in the middle asks nothing
    assert_eq!(
        perform_pattern_match(&vec![term(), anchor(), term()], &vec![vec![5], vec![6]], 9),
        1
    );
    assert_eq!(perform_pattern_match(&vec![anchor()], &vec![vec![7]], 0), 0);
    assert_eq!(perform_pattern_match(&vec![anchor()], &vec![vec![0]], 0), 1);
}
