use graph_centrality::score::Score;

#[test]
fn score_comparisons_are_exact() {
    let third = Score::ratio(1, 3);
    let half = Score::ratio(1, 2);
    assert!(third.lt(&half));
    assert!(third.le(&half));
    assert!(!half.lt(&third));
    assert!(half.le(&Score::ratio(2, 4)));
    assert!(half.value_eq(&Score::ratio(2, 4)));
    assert!(!half.value_eq(&third));

    // Values near the 64-bit limit compare without overflow or rounding.
    let big = Score::ratio(u64::MAX, u64::MAX - 1);
    let one = Score::one();
    assert!(one.lt(&big));
    assert!(!big.le(&one));
    assert!(big.value_eq(&big));
}
