use digraph_rs::analyzer::min_weight::{MinWeight, Score};

#[test]
fn score_order_is_total() {
    // Zero < Value(a) < Inf, for small and large raw values alike
    assert!(Score::Zero < Score::Value(0));
    assert!(Score::Zero < Score::Value(u64::MAX));
    assert!(Score::Value(0) < Score::Inf);
    assert!(Score::Value(u64::MAX) < Score::Inf);
    assert!(Score::Zero < Score::Inf);
    assert!(Score::Value(1) < Score::Value(2));
    assert_eq!(
        Score::Value(3).partial_cmp(&Score::Value(3)),
        Some(std::cmp::Ordering::Equal)
    );
}

#[test]
fn score_addition_laws() {
    // Inf absorbs, Zero promotes the raw weight
    assert_eq!(Score::Inf.add_score_v(5), Score::Inf);
    assert_eq!(Score::Zero.add_score_v(5), Score::Value(5));
    assert_eq!(Score::Value(2).add_score_v(5), Score::Value(7));
    assert_eq!(Score::Inf.add(5), Score::Inf);
    assert_eq!(Score::Zero.add(5), Score::Value(5));
    assert_eq!(Score::Value(2).add(3), Score::Value(5));
}

#[test]
fn min_weight_ignores_the_node() {
    let a = MinWeight(1u64, Score::Value(2));
    let b = MinWeight(9u64, Score::Value(2));
    assert_eq!(a, b);
    let c = MinWeight(1u64, Score::Value(3));
    // the reverse order: the smaller score compares greater
    assert_eq!(a.partial_cmp(&c), Some(std::cmp::Ordering::Greater));
    assert_eq!(c.partial_cmp(&a), Some(std::cmp::Ordering::Less));
    let z = MinWeight(4u64, Score::Zero);
    let i = MinWeight(4u64, Score::Inf);
    assert_eq!(z.partial_cmp(&i), Some(std::cmp::Ordering::Greater));
}
