use graph_centrality::maps::MetricMap;
use graph_centrality::normalize::{normalize_centrality_values, NormalizeError};
use graph_centrality::score::Score;

#[test]
fn test_normalization() {
    let mut centrality = MetricMap::new();
    centrality.insert(0, Score::from_count(100));
    centrality.insert(1, Score::from_count(200));
    centrality.insert(2, Score::from_count(50));

    let normalized = normalize_centrality_values(&centrality).unwrap();

    // The max centrality is 200, so normalized values are 100/200, 1, 50/200.
    assert!(normalized.get(0).unwrap().value_eq(&Score::ratio(1, 2)));
    assert!(normalized.get(1).unwrap().value_eq(&Score::one()));
    assert!(normalized.get(2).unwrap().value_eq(&Score::ratio(1, 4)));
}

// The entry holding the maximum score normalizes to exactly one, and every
// normalized value stays within [0, 1].
#[test]
fn normalization_max_entry_is_one() {
    let mut m = MetricMap::new();
    m.insert(7, Score::ratio(3, 4));
    m.insert(8, Score::ratio(9, 2));
    m.insert(9, Score::ratio(1, 3));

    let normalized = normalize_centrality_values(&m).unwrap();
    assert_eq!(normalized.get(8), Some(Score::one()));
    for (_, score) in normalized.entries() {
        assert!(score.num <= score.den);
    }
    // Round trip for the non-maximal entries: value * max == input value.
    // (3/4) / (9/2) == 6/36; (1/3) / (9/2) == 2/27.
    assert!(normalized.get(7).unwrap().value_eq(&Score::ratio(6, 36)));
    assert!(normalized.get(9).unwrap().value_eq(&Score::ratio(2, 27)));
}

#[test]
fn normalization_rejects_empty_map() {
    let empty = MetricMap::new();
    assert!(matches!(
        normalize_centrality_values(&empty),
        Err(NormalizeError::ZeroMax)
    ));
}

#[test]
fn normalization_rejects_all_zero_map() {
    let mut m = MetricMap::new();
    m.insert(0, Score::zero());
    m.insert(1, Score::ratio(0, 5));
    assert!(matches!(
        normalize_centrality_values(&m),
        Err(NormalizeError::ZeroMax)
    ));
}

#[test]
fn normalization_reports_unrepresentable_quotients() {
    let mut m = MetricMap::new();
    m.insert(0, Score::ratio(1, u64::MAX));
    m.insert(1, Score::ratio(u64::MAX, 1));
    assert!(matches!(
        normalize_centrality_values(&m),
        Err(NormalizeError::Unrepresentable)
    ));
}
