use fj_contracting::hrg::influencer_count;

#[test]
fn test_influencer_count() {
    assert_eq!(influencer_count(1, 4, 5), 1); // a = 1, b = 4, log(n) = 5 ... => a * log(n) - b = 1
    assert_eq!(influencer_count(2, 3, 6), 9); // a = 2, b = 3, log(n) = 6 ... => a * log(n) - b = 9
}

#[test]
fn influencer_count_zero() {
    assert_eq!(influencer_count(1, 8, 8), 0);
}
