use spam_filter::document::{ProcessedText, NOT_SPAM, SPAM};
use spam_filter::probability::ProbabilityTable;
use spam_filter::table::WordTable;
use spam_filter::word_classifier::WordClassifier;

fn word(s: &str) -> String {
    s.to_string()
}

fn email(words: &[&str], label: u8) -> ProcessedText {
    ProcessedText { text: words.iter().map(|w| w.to_string()).collect(), spam_or_not: label }
}

#[test]
fn table_set_get_and_len() {
    let mut table = WordTable::new();
    assert_eq!(table.len(), 0);
    assert_eq!(table.get(&word("free")), None);
    table.set(&word("free"), 3);
    table.set(&word("money"), 0);
    assert_eq!(table.get(&word("free")), Some(3));
    assert_eq!(table.get(&word("money")), Some(0));
    assert_eq!(table.len(), 2);
    table.set(&word("free"), 0);
    assert_eq!(table.get(&word("free")), Some(0));
    assert_eq!(table.len(), 2);
}

#[test]
fn table_increment_counts_from_zero() {
    let mut table = WordTable::new();
    table.increment(&word("free"));
    table.increment(&word("free"));
    table.increment(&word("money"));
    assert_eq!(table.get(&word("free")), Some(2));
    assert_eq!(table.get(&word("money")), Some(1));
    assert_eq!(table.get(&word("now")), None);
}

#[test]
fn table_add_one_to_all_and_duplicate() {
    let mut table = WordTable::new();
    table.set(&word("free"), 2);
    table.set(&word("now"), 0);
    let copy = table.duplicate();
    table.add_one_to_all();
    assert_eq!(table.get(&word("free")), Some(3));
    assert_eq!(table.get(&word("now")), Some(1));
    assert_eq!(copy.get(&word("free")), Some(2));
    assert_eq!(copy.get(&word("now")), Some(0));
    assert_eq!(copy.len(), 2);
}

#[test]
fn probability_table_gives_unseen_words_one_share() {
    let mut counts = WordTable::new();
    counts.set(&word("free"), 3);
    counts.set(&word("money"), 2);
    let table = ProbabilityTable::from_counts(counts, 11);
    assert_eq!(table.len(), 2);
    let free = table.probability(&word("free"));
    assert_eq!((free.numerator, free.denominator), (3, 11));
    let zebra = table.probability(&word("zebra"));
    assert_eq!((zebra.numerator, zebra.denominator), (1, 11));
    assert_eq!(ProbabilityTable::empty().len(), 0);
}

#[test]
fn word_classifier_goes_through_its_passes() {
    let data = vec![
        email(&["free", "money", "now"], SPAM),
        email(&["meet", "agenda", "tomorrow"], NOT_SPAM),
        email(&["win", "free", "prize"], SPAM),
    ];
    let mut classifier = WordClassifier::new(&data);
    assert_eq!(classifier.distinct_words(true), 5);
    assert_eq!(classifier.distinct_words(false), 3);
    assert_eq!(classifier.word_count(true, &word("free")), Some(0));
    assert_eq!(classifier.word_count(false, &word("free")), None);
    assert_eq!(classifier.total_words(true), 0);

    for document in &data {
        classifier.word_specifier(document);
    }
    assert_eq!(classifier.word_count(true, &word("free")), Some(2));
    assert_eq!(classifier.word_count(true, &word("win")), Some(1));
    assert_eq!(classifier.word_count(false, &word("meet")), Some(1));
    assert_eq!(classifier.total_words(true), 6);
    assert_eq!(classifier.total_words(false), 3);

    classifier.update_classification();
    assert_eq!(classifier.word_count(true, &word("free")), Some(3));
    assert_eq!(classifier.word_count(false, &word("meet")), Some(2));
    assert_eq!(classifier.total_words(true), 6);
    let free = classifier.probability_table(true).probability(&word("free"));
    assert_eq!((free.numerator, free.denominator), (3, 11));
    let meet = classifier.probability_table(false).probability(&word("meet"));
    assert_eq!((meet.numerator, meet.denominator), (2, 6));
    let unseen = classifier.probability_table(false).probability(&word("free"));
    assert_eq!((unseen.numerator, unseen.denominator), (1, 6));
}

#[test]
fn word_specifier_takes_a_word_it_has_not_met() {
    let mut classifier = WordClassifier::new(&Vec::new());
    classifier.word_specifier(&email(&["free", "free"], SPAM));
    classifier.word_specifier(&email(&["free"], 7));
    assert_eq!(classifier.word_count(true, &word("free")), Some(2));
    assert_eq!(classifier.word_count(false, &word("free")), Some(1));
    assert_eq!(classifier.total_words(true), 2);
    assert_eq!(classifier.total_words(false), 1);
}

#[test]
fn update_words_adds_one_to_each_count() {
    let data = vec![email(&["free", "money"], SPAM), email(&["meet"], NOT_SPAM)];
    let mut classifier = WordClassifier::new(&data);
    classifier.update_words();
    assert_eq!(classifier.word_count(true, &word("free")), Some(1));
    assert_eq!(classifier.word_count(true, &word("money")), Some(1));
    assert_eq!(classifier.word_count(false, &word("meet")), Some(1));
    assert_eq!(classifier.total_words(true), 0);
}

#[test]
fn table_keeps_many_words_apart() {
    let mut table = WordTable::new();
    let words: Vec<String> = (0..20_000u32).map(|i| format!("w{}x{}", i, i % 7)).collect();
    for (i, w) in words.iter().enumerate() {
        table.set(w, i as u128);
    }
    assert_eq!(table.len(), words.len());
    for (i, w) in words.iter().enumerate() {
        assert_eq!(table.get(w), Some(i as u128));
    }
    for w in words.iter().step_by(3) {
        table.increment(w);
    }
    for (i, w) in words.iter().enumerate() {
        let bump = if i % 3 == 0 { 1 } else { 0 };
        assert_eq!(table.get(w), Some(i as u128 + bump));
    }
    assert_eq!(table.get(&word("w1x2")), None);
    assert_eq!(table.get(&word("")), None);
    let copy = table.duplicate();
    assert_eq!(copy.len(), words.len());
    assert_eq!(copy.get(&words[19_999]), Some(19_999));
}

#[test]
fn table_takes_words_of_any_characters() {
    let mut table = WordTable::new();
    for w in ["", " ", "\u{10ffff}", "caf\u{e9}", "\u{0}\u{0}", "\u{0}"] {
        table.increment(&word(w));
        table.increment(&word(w));
    }
    assert_eq!(table.len(), 6);
    for w in ["", " ", "\u{10ffff}", "caf\u{e9}", "\u{0}\u{0}", "\u{0}"] {
        assert_eq!(table.get(&word(w)), Some(2));
    }
}
