use spam_filter::bignat::BigNat;
use spam_filter::document::{ProcessedText, UnprocessedText, NOT_SPAM, SPAM};
use spam_filter::text::try_normalize;
use spam_filter::email_classifier::{estimate_priors, train, EmailClassifier, TrainingError};

fn document(text: &str, label: u8) -> ProcessedText {
    let raw = UnprocessedText { text: text.to_string(), spam: label };
    raw.processing_text(&Vec::new())
}

fn corpus() -> Vec<ProcessedText> {
    vec![
        document("free money now", SPAM),
        document("meeting agenda tomorrow", NOT_SPAM),
        document("win free prize", SPAM),
        document("project status update", NOT_SPAM),
    ]
}

fn value(n: &BigNat) -> u128 {
    let limbs = n.as_limbs();
    assert!(limbs.iter().skip(2).all(|limb| *limb == 0));
    let low = limbs.first().copied().unwrap_or(0) as u128;
    let high = limbs.get(1).copied().unwrap_or(0) as u128;
    low + (high << 64)
}

#[test]
fn spam_like_document_is_spam() {
    let classifier = train(corpus()).unwrap();
    let mut email = document("free win prize", NOT_SPAM);
    let labelled = classifier.classify_email(&mut email);
    assert_eq!(email.spam_or_not, SPAM);
    assert_eq!(labelled.spam_or_not, SPAM);
    assert_eq!(labelled.text, email.text);
}

#[test]
fn ham_like_document_is_not_spam() {
    let classifier = train(corpus()).unwrap();
    let mut email = document("project meeting update", SPAM);
    let labelled = classifier.classify_email(&mut email);
    assert_eq!(email.spam_or_not, NOT_SPAM);
    assert_eq!(labelled.spam_or_not, NOT_SPAM);
}

#[test]
fn empty_corpus_is_insufficient() {
    assert!(matches!(train(Vec::new()), Err(TrainingError::InsufficientTrainingData)));
    assert!(matches!(estimate_priors(&Vec::new()), Err(TrainingError::InsufficientTrainingData)));
}

#[test]
fn one_class_corpus_is_insufficient() {
    let only_spam = vec![document("free money now", SPAM), document("win free prize", SPAM)];
    assert!(matches!(train(only_spam), Err(TrainingError::InsufficientTrainingData)));
    let only_ham = vec![document("meeting agenda tomorrow", NOT_SPAM)];
    assert!(matches!(train(only_ham), Err(TrainingError::InsufficientTrainingData)));
}

#[test]
fn class_without_tokens_is_insufficient() {
    let data = vec![document("free money now", SPAM), document("a b c 1 2 3", NOT_SPAM)];
    assert!(matches!(train(data), Err(TrainingError::InsufficientTrainingData)));
}

#[test]
fn failed_training_leaves_the_classifier_fresh() {
    let mut classifier = EmailClassifier::new(vec![document("free money now", SPAM)]);
    assert_eq!(
        classifier.update_training_classification(),
        Err(TrainingError::InsufficientTrainingData)
    );
    assert_eq!(classifier.training_data().len(), 1);
}

#[test]
fn priors_add_up_to_one() {
    let classifier = train(corpus()).unwrap();
    let spam = classifier.class_prior(true);
    let ham = classifier.class_prior(false);
    assert_eq!((spam.numerator, spam.denominator), (2, 4));
    assert_eq!((ham.numerator, ham.denominator), (2, 4));
    let sum = spam.numerator as f64 / spam.denominator as f64
        + ham.numerator as f64 / ham.denominator as f64;
    assert!((sum - 1.0).abs() < 1e-12);
}

#[test]
fn uneven_priors() {
    let data = vec![
        document("free money now", SPAM),
        document("meeting agenda tomorrow", NOT_SPAM),
        document("win free prize", SPAM),
        document("cheap pills online", SPAM),
        document("label seven counts as not spam", 7),
    ];
    let priors = estimate_priors(&data).unwrap();
    assert_eq!((priors.spam.numerator, priors.spam.denominator), (3, 5));
    assert_eq!((priors.not_spam.numerator, priors.not_spam.denominator), (2, 5));
}

#[test]
fn word_probabilities_are_smoothed_counts_over_smoothed_totals() {
    let classifier = train(corpus()).unwrap();
    // spam: free money now win free prize -> 6 tokens, 5 distinct.
    let free = classifier.word_probability(true, &"free".to_string());
    assert_eq!((free.numerator, free.denominator), (3, 11));
    let money = classifier.word_probability(true, &"money".to_string());
    assert_eq!((money.numerator, money.denominator), (2, 11));
    // not spam: meet agenda tomorrow project status updat -> 6 tokens, 6 distinct.
    let meet = classifier.word_probability(false, &"meet".to_string());
    assert_eq!((meet.numerator, meet.denominator), (2, 12));
}

#[test]
fn unseen_word_has_the_least_probability_above_zero() {
    let classifier = train(corpus()).unwrap();
    let in_spam = classifier.word_probability(true, &"meet".to_string());
    assert_eq!((in_spam.numerator, in_spam.denominator), (1, 11));
    let in_ham = classifier.word_probability(false, &"zebra".to_string());
    assert_eq!((in_ham.numerator, in_ham.denominator), (1, 12));
}

#[test]
fn every_probability_lies_between_zero_and_one() {
    let classifier = train(corpus()).unwrap();
    for word in ["free", "money", "now", "win", "prize", "meet", "agenda", "updat", "zebra"] {
        for spam in [true, false] {
            let p = classifier.word_probability(spam, &word.to_string());
            assert!(0 < p.numerator && p.numerator <= p.denominator);
        }
    }
}

#[test]
fn scores_are_exact_fractions() {
    let classifier = train(corpus()).unwrap();
    let email = document("free win prize", NOT_SPAM);
    let spam = classifier.email_spam_probablity(&email);
    // 2/4 * 3/11 * 2/11 * 2/11
    assert_eq!(value(&spam.numerator), 2 * 3 * 2 * 2);
    assert_eq!(value(&spam.denominator), 4 * 11 * 11 * 11);
    let ham = classifier.email_ham_probablity(&email);
    // 2/4 * 1/12 * 1/12 * 1/12
    assert_eq!(value(&ham.numerator), 2);
    assert_eq!(value(&ham.denominator), 4 * 12 * 12 * 12);
    assert!(spam.exceeds(&ham));
    assert!(!ham.exceeds(&spam));
    assert!(!spam.exceeds(&spam));
}

#[test]
fn empty_document_goes_by_the_priors_and_a_tie_is_not_spam() {
    let classifier = train(corpus()).unwrap();
    let mut email = document("", SPAM);
    classifier.classify_email(&mut email);
    assert_eq!(email.spam_or_not, NOT_SPAM);

    let more_spam = vec![
        document("free money now", SPAM),
        document("win free prize", SPAM),
        document("meeting agenda tomorrow", NOT_SPAM),
    ];
    let classifier = train(more_spam).unwrap();
    let mut email = document("", NOT_SPAM);
    classifier.classify_email(&mut email);
    assert_eq!(email.spam_or_not, SPAM);
}

#[test]
fn unseen_tokens_still_get_a_label() {
    // Both classes have 3 tokens, all distinct: the smoothed totals are equal,
    // so unseen tokens dilute both scores alike and the priors decide.
    let even = vec![
        document("free money now", SPAM),
        document("meeting agenda tomorrow", NOT_SPAM),
    ];
    let classifier = train(even).unwrap();
    let mut email = document("zebra quark zebra", SPAM);
    classifier.classify_email(&mut email);
    assert_eq!(email.spam_or_not, NOT_SPAM);

    let mostly_spam = vec![
        document("free money", SPAM),
        document("now", SPAM),
        document("meeting agenda tomorrow", NOT_SPAM),
    ];
    let classifier = train(mostly_spam).unwrap();
    let mut email = document("zebra quark zebra", NOT_SPAM);
    classifier.classify_email(&mut email);
    assert_eq!(email.spam_or_not, SPAM);
}

#[test]
fn unseen_tokens_favour_the_class_with_the_smaller_total() {
    // spam has the smoothed total 11, not spam 12: 1/11 > 1/12.
    let classifier = train(corpus()).unwrap();
    let mut email = document("zebra", NOT_SPAM);
    classifier.classify_email(&mut email);
    assert_eq!(email.spam_or_not, SPAM);
}

#[test]
fn training_twice_gives_the_same_model() {
    let first = train(corpus()).unwrap();
    let second = train(corpus()).unwrap();
    for word in ["free", "money", "now", "win", "prize", "meet", "agenda", "updat", "zebra"] {
        for spam in [true, false] {
            let p = first.word_probability(spam, &word.to_string());
            let q = second.word_probability(spam, &word.to_string());
            assert_eq!((p.numerator, p.denominator), (q.numerator, q.denominator));
        }
    }
    for text in ["free win prize", "project meeting update", "zebra", ""] {
        let mut a = document(text, NOT_SPAM);
        let mut b = document(text, NOT_SPAM);
        first.classify_email(&mut a);
        second.classify_email(&mut b);
        first.classify_email(&mut b);
        assert_eq!(a.spam_or_not, b.spam_or_not);
    }
}

#[test]
fn long_documents_do_not_underflow() {
    let classifier = train(corpus()).unwrap();
    let spammy = "free prize money win now ".repeat(400);
    let mut email = document(&spammy, NOT_SPAM);
    classifier.classify_email(&mut email);
    assert_eq!(email.spam_or_not, SPAM);
    let hammy = "project status update meeting agenda tomorrow ".repeat(300);
    let mut email = document(&hammy, SPAM);
    classifier.classify_email(&mut email);
    assert_eq!(email.spam_or_not, NOT_SPAM);
}

#[test]
fn classify_all_sorts_into_two_groups_in_order() {
    let classifier = train(corpus()).unwrap();
    let emails = vec![
        document("free win prize", NOT_SPAM),
        document("project meeting update", SPAM),
        document("win money now", NOT_SPAM),
        document("", SPAM),
        document("agenda for the status meeting", SPAM),
    ];
    let (spam, ham) = classifier.classify_all(&emails);
    let spam_texts: Vec<Vec<String>> = spam.iter().map(|e| e.text.clone()).collect();
    let ham_texts: Vec<Vec<String>> = ham.iter().map(|e| e.text.clone()).collect();
    assert_eq!(spam_texts, vec![emails[0].text.clone(), emails[2].text.clone()]);
    assert_eq!(
        ham_texts,
        vec![emails[1].text.clone(), emails[3].text.clone(), emails[4].text.clone()]
    );
    assert!(spam.iter().all(|e| e.spam_or_not == SPAM));
    assert!(ham.iter().all(|e| e.spam_or_not == NOT_SPAM));
}

#[test]
fn predict_agrees_with_classify_email() {
    let classifier = train(corpus()).unwrap();
    for text in ["free win prize", "project meeting update", "zebra", "", "free meeting"] {
        let mut email = document(text, NOT_SPAM);
        let label = classifier.predict(&email);
        classifier.classify_email(&mut email);
        assert_eq!(email.spam_or_not, label);
    }
}

#[test]
fn processing_text_keeps_the_label_and_applies_stop_words() {
    let raw = UnprocessedText { text: "The meetings are FREE today!".to_string(), spam: 1 };
    let stops = vec!["the".to_string(), "are".to_string()];
    let processed = raw.processing_text(&stops);
    assert_eq!(processed.text, vec!["meet", "free", "today"]);
    assert_eq!(processed.spam_or_not, 1);
    assert!(processed.is_spam());
    let copy = processed.duplicate();
    assert_eq!(copy.text, processed.text);
    assert_eq!(copy.spam_or_not, 1);
}

#[test]
fn try_processing_text_agrees_with_processing_text() {
    let raw = UnprocessedText { text: "Win a FREE prize now".to_string(), spam: 1 };
    let stops = vec!["now".to_string()];
    let processed = raw.try_processing_text(&stops).unwrap();
    assert_eq!(processed.text, raw.processing_text(&stops).text);
    assert_eq!(processed.text, vec!["win", "free", "prize"]);
    assert_eq!(processed.spam_or_not, 1);
}

#[test]
fn try_normalize_gives_the_tokens_of_ordinary_text() {
    let tokens = try_normalize("Meetings, agendas & prizes", &Vec::new());
    assert_eq!(tokens, Some(vec!["meet".to_string(), "agenda".to_string(), "prize".to_string()]));
}
