use naive_bayes::classifier::{LabelScore, NaiveBayesClassifier};
use naive_bayes::selection::select_label;

fn terms(words: &[&str]) -> Vec<String> {
    words.iter().map(|w| w.to_string()).collect()
}

/// The probability of a label as a float, summed one matched term at a
/// time, and handed over as its bit pattern (which orders like the value,
/// since it is never negative).
fn weigh(distinct: usize, matched: usize, total: u64) -> u32 {
    let mut probability = 0.0f32;
    for _ in 0..matched {
        probability += (1.0 / distinct as f32).ln();
    }
    (distinct as f32 * probability.abs() / total as f32).to_bits()
}

fn sports_and_finance() -> NaiveBayesClassifier {
    let mut model = NaiveBayesClassifier::new();
    model.train(&terms(&["the", "team", "score", "a", "goal"]), "sports");
    model.train(&terms(&["stock", "rose", "on", "the", "market", "todai"]), "finance");
    model
}

#[test]
fn new_model_is_empty() {
    let model = NaiveBayesClassifier::new();
    assert_eq!(model.training_count(), 0);
    assert_eq!(model.label_count(), 0);
    assert_eq!(model.term_count("sports", "goal"), None);
}

#[test]
fn training_count_counts_every_call() {
    let mut model = NaiveBayesClassifier::new();
    model.train(&terms(&["a", "b"]), "x");
    model.train(&terms(&[]), "y");
    model.train(&terms(&["c"]), "x");
    model.train(&terms(&[]), "");
    model.train(&terms(&["a"]), "z");
    assert_eq!(model.training_count(), 5);
    assert_eq!(model.label_count(), 4);
}

#[test]
fn guess_on_empty_model_is_empty_string() {
    let model = NaiveBayesClassifier::new();
    assert_eq!(model.guess(&terms(&["anything", "at", "all"]), weigh), "");
    assert_eq!(model.guess(&terms(&[]), weigh), "");
}

#[test]
fn guess_is_stable() {
    let model = sports_and_finance();
    let q = terms(&["the", "market", "goal"]);
    let first = model.guess(&q, weigh);
    let second = model.guess(&q, weigh);
    assert_eq!(first, second);
}

#[test]
fn separation_of_two_labels() {
    let model = sports_and_finance();
    assert_eq!(model.guess(&terms(&["the", "team", "won", "the", "goal"]), weigh), "sports");
    assert_eq!(model.guess(&terms(&["stock", "and", "the", "market"]), weigh), "finance");
}

#[test]
fn unmatched_label_loses_to_matched_one() {
    let mut model = NaiveBayesClassifier::new();
    model.train(&terms(&["apple", "pear"]), "fruit");
    model.train(&terms(&["car", "bus"]), "vehicle");
    assert_eq!(model.guess(&terms(&["apple"]), weigh), "fruit");
    assert_eq!(model.guess(&terms(&["bus"]), weigh), "vehicle");
    let scores = model.label_scores(&terms(&["bus"]));
    assert_eq!(scores[0].matched_terms, 0);
    assert!(scores[0].is_zero());
    assert!(!scores[1].is_zero());
}

#[test]
fn first_sight_stores_one_then_increments() {
    let mut model = NaiveBayesClassifier::new();
    model.train(&terms(&["goal"]), "sports");
    assert_eq!(model.term_count("sports", "goal"), Some(1));
    model.train(&terms(&["goal"]), "sports");
    assert_eq!(model.term_count("sports", "goal"), Some(2));
    assert_eq!(model.term_count("sports", "team"), None);
    assert_eq!(model.term_count("finance", "goal"), None);
}

#[test]
fn repeated_term_in_one_text_counts_each_occurrence() {
    let mut model = NaiveBayesClassifier::new();
    model.train(&terms(&["go", "go", "go", "stop"]), "traffic");
    assert_eq!(model.term_count("traffic", "go"), Some(3));
    assert_eq!(model.term_count("traffic", "stop"), Some(1));
}

#[test]
fn empty_table_is_never_weighed() {
    let mut model = NaiveBayesClassifier::new();
    model.train(&terms(&[]), "empty");
    let guarded = |d: usize, m: usize, t: u64| -> u32 {
        assert!(d >= 2 && m >= 1 && t >= 1);
        weigh(d, m, t)
    };
    // The only label scores zero, so no label is taken.
    assert_eq!(model.guess(&terms(&["x"]), guarded), "");
    model.train(&terms(&["x", "y"]), "full");
    assert_eq!(model.guess(&terms(&["x"]), guarded), "full");
    let scores = model.label_scores(&terms(&["x"]));
    assert_eq!(scores[0].distinct_terms, 0);
    assert!(scores[0].is_zero());
}

#[test]
fn single_term_table_scores_zero() {
    let mut model = NaiveBayesClassifier::new();
    model.train(&terms(&["x", "y"]), "two");
    model.train(&terms(&["x"]), "one");
    let scores = model.label_scores(&terms(&["x"]));
    assert_eq!(scores[1].distinct_terms, 1);
    assert_eq!(scores[1].matched_terms, 1);
    assert!(scores[1].is_zero());
    assert_eq!(model.guess(&terms(&["x"]), weigh), "two");
}

#[test]
fn all_zero_scores_give_empty_string() {
    let mut model = NaiveBayesClassifier::new();
    model.train(&terms(&["a", "b"]), "first");
    model.train(&terms(&["c", "d"]), "second");
    assert_eq!(model.guess(&terms(&["zzz"]), weigh), "");
    assert_eq!(model.guess(&terms(&[]), weigh), "");
}

#[test]
fn label_scores_report_sizes_and_matches() {
    let model = sports_and_finance();
    let scores = model.label_scores(&terms(&["the", "team", "won", "the", "goal"]));
    assert_eq!(scores.len(), 2);
    assert_eq!(scores[0].label, "sports");
    assert_eq!(scores[0].distinct_terms, 5);
    assert_eq!(scores[0].matched_terms, 4);
    assert_eq!(scores[1].label, "finance");
    assert_eq!(scores[1].distinct_terms, 6);
    assert_eq!(scores[1].matched_terms, 2);
}

#[test]
fn weight_of_a_known_probability() {
    // Five terms, four matched, two training calls: 5 * 4 * ln 5 / 2.
    let w = f32::from_bits(weigh(5, 4, 2));
    assert!((w - 16.094_379).abs() < 1e-3);
}

fn score(label: &str, distinct_terms: usize, matched_terms: usize) -> LabelScore {
    LabelScore { label: label.to_string(), distinct_terms, matched_terms }
}

#[test]
fn select_label_on_nothing_is_empty() {
    assert_eq!(select_label(&vec![], &vec![]), "");
}

#[test]
fn select_label_takes_the_largest_key() {
    let scores = vec![score("a", 3, 1), score("b", 3, 2), score("c", 3, 1)];
    assert_eq!(select_label(&scores, &vec![10, 30, 20]), "b");
}

#[test]
fn select_label_on_equal_keys_takes_the_last() {
    let scores = vec![score("a", 3, 1), score("b", 3, 1), score("c", 3, 1)];
    assert_eq!(select_label(&scores, &vec![7, 7, 5]), "b");
}

#[test]
fn select_label_ignores_weights_of_zero_scores() {
    let scores = vec![score("a", 3, 0), score("b", 1, 4), score("c", 2, 1)];
    assert_eq!(select_label(&scores, &vec![1000, 1000, 1]), "c");
}

#[test]
fn select_label_with_no_positive_key_is_empty() {
    let scores = vec![score("a", 3, 0), score("b", 1, 2), score("c", 4, 2)];
    assert_eq!(select_label(&scores, &vec![9, 9, 0]), "");
}
