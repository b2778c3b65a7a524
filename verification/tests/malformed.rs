use spam_filter::document::{MalformedInputError, UnprocessedText};
use spam_filter::stemmer::MAX_WORD_LEN;

#[test]
fn a_word_beyond_the_limit_is_malformed_input() {
    let mut text = String::from("free money ");
    text.push_str(&"a".repeat(MAX_WORD_LEN + 1));
    let raw = UnprocessedText { text, spam: 0 };
    assert_eq!(raw.try_processing_text(&Vec::new()).err(), Some(MalformedInputError));
}
