use fuzzywuzzy::fuzzywuzzy_compatible::fuzz::wratio;
use fuzzywuzzy::fuzzywuzzy_compatible::process::{
    dedupe, default_processor, default_scorer, extract_without_order as extract_default,
    extract_without_order_full,
};
use fuzzywuzzy::fuzzywuzzy_compatible::utils::full_process;
use fuzzywuzzy::primitives::{Match, Score};
use fuzzywuzzy::process::{extract_one, extract_without_order, Score as Scored};

const CHOICES: [&str; 4] = [
    "new york mets vs chicago cubs",
    "chicago cubs vs chicago white sox",
    "philladelphia phillies vs atlanta braves",
    "braves vs mets",
];

#[test]
fn extract_without_order_keeps_all_with_zero_cutoff() {
    let results = extract_without_order("brave new cubs", &CHOICES, |s, _| s.into(), &wratio, 0);
    let expected = vec![
        Scored::new("new york mets vs chicago cubs", 86),
        Scored::new("chicago cubs vs chicago white sox", 86),
        Scored::new("philladelphia phillies vs atlanta braves", 54),
        Scored::new("braves vs mets", 57),
    ];
    assert_eq!(results, expected);
}

#[test]
fn extract_without_order_applies_cutoff() {
    let results = extract_without_order("brave new cubs", &CHOICES, |s, _| s.into(), &wratio, 57);
    let texts: Vec<&str> = results.iter().map(|s| s.text()).collect();
    assert_eq!(
        texts,
        vec!["new york mets vs chicago cubs", "chicago cubs vs chicago white sox", "braves vs mets"]
    );
    assert!(extract_without_order("brave new cubs", &CHOICES, |s, _| s.into(), &wratio, 90).is_empty());
}

#[test]
fn extract_one_examples() {
    let cases = [
        ("brave new cubs", 0),
        ("new york mets at atlanta braves", 3),
        ("philadelphia phillies at atlanta braves", 2),
        ("atlanta braves at philadelphia phillies", 2),
        ("chicago cubs vs new york mets", 0),
    ];
    for (query, index) in cases.iter() {
        let best = extract_one(query, &CHOICES, &full_process, &wratio, 0).unwrap();
        assert_eq!(best.text(), CHOICES[*index]);
    }
    assert!(extract_one("brave new cubs", &CHOICES, &full_process, &wratio, 99).is_none());
    assert!(extract_one("brave new cubs", &[], &full_process, &wratio, 0).is_none());
}

#[test]
fn extract_one_prefers_first_of_equal_scores() {
    let best = extract_one(
        "atlanta braves at philadelphia phillies",
        &CHOICES,
        &full_process,
        &wratio,
        0,
    )
    .unwrap();
    assert_eq!(best.score(), 86);
    assert_eq!(best.text(), CHOICES[2]);
}

#[test]
fn default_processor_and_scorer() {
    assert_eq!(default_processor(&"  New York METS! "), "new york mets");
    assert_eq!(default_scorer(&"hello world", "world hello".to_string()).score(), 95);
}

#[test]
fn compat_extract_without_order_scores_processed_choices() {
    let results = extract_default("brave new cubs", &CHOICES);
    let scores: Vec<u8> = results.iter().map(|m| m.score.score()).collect();
    assert_eq!(scores, vec![86, 86, 54, 57]);
    let items: Vec<&str> = results.iter().map(|m| m.item).collect();
    assert_eq!(items, CHOICES.to_vec());
}

#[test]
fn extract_without_order_full_with_cutoff() {
    let choices = vec!["abc".to_string(), "abd".to_string(), "xyz".to_string()];
    let results = extract_without_order_full(
        "abc",
        &choices,
        |c: &String| c.clone(),
        |q: &&str, c: String| Score::new(wratio(q, &c, true, true)).unwrap(),
        Score::new(60).unwrap(),
    );
    assert_eq!(
        results,
        vec![
            Match { item: &choices[0], score: Score::new(100).unwrap() },
            Match { item: &choices[1], score: Score::new(71).unwrap() },
        ]
    );
}

#[test]
fn dedupe_examples() {
    let items = [
        "Frodo Baggins",
        "Tom Sawyer",
        "Bilbo Baggin",
        "Samuel L. Jackson",
        "F. Baggins",
        "Frody Baggins",
        "Bilbo Baggins",
    ];
    assert_eq!(
        dedupe(&items, Score::new(70).unwrap()),
        vec!["Frody Baggins", "Tom Sawyer", "Bilbo Baggins", "Samuel L. Jackson"]
    );
    assert_eq!(dedupe(&items, Score::new(100).unwrap()), items.to_vec());
    assert_eq!(
        dedupe(&["abc", "abd", "xyz", "abc"], Score::new(70).unwrap()),
        vec!["abd", "xyz"]
    );
    assert!(dedupe(&[], Score::new(70).unwrap()).is_empty());
}

#[test]
fn scored_text_accessors() {
    let s = Scored::new("text", 42);
    assert_eq!(s.text(), "text");
    assert_eq!(s.score(), 42);
}
