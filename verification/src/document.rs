//! Documents: a raw text with its label, and the tokens that stand for it.

use crate::text::{normalize, normalized, try_normalize, words_fit, words_of};
use vstd::prelude::*;

verus! {

/// The label of a spam message.
pub const SPAM: u8 = 1;

/// The label of a message that is not spam.
pub const NOT_SPAM: u8 = 0;

/// A record that cannot be normalised: one of its words is longer than the
/// stemmer takes.
#[derive(Debug, PartialEq, Eq)]
pub struct MalformedInputError;

/// A message as it was read: its text and its label.
#[derive(Debug)]
pub struct UnprocessedText {
    pub text: String,
    pub spam: u8,
}

/// A message as the classifier sees it: its tokens in order, and its label.
#[derive(Debug)]
pub struct ProcessedText {
    pub text: Vec<String>,
    pub spam_or_not: u8,
}

/// What a processed message stands for.
pub struct Document {
    pub tokens: Seq<Seq<char>>,
    pub label: u8,
}

impl Document {
    /// Whether the document is labelled as spam. Every label but `SPAM` counts
    /// as not spam.
    pub open spec fn is_spam(self) -> bool {
        self.label == SPAM
    }
}

impl View for ProcessedText {
    type V = Document;

    open spec fn view(&self) -> Document {
        Document { tokens: words_of(self.text@), label: self.spam_or_not }
    }
}

/// The documents that a vector of processed messages stands for.
pub open spec fn documents_of(emails: Seq<ProcessedText>) -> Seq<Document> {
    Seq::new(emails.len(), |i: int| emails[i]@)
}

impl UnprocessedText {
    /// Normalises the text into tokens and keeps the label.
    pub fn processing_text(&self, stop_words: &Vec<String>) -> (processed: ProcessedText)
        requires
            words_fit(self.text@),
        ensures
            processed@ == (Document {
                tokens: normalized(self.text@, words_of(stop_words@)),
                label: self.spam,
            }),
    {
        ProcessedText { text: normalize(self.text.as_str(), stop_words), spam_or_not: self.spam }
    }
}

impl UnprocessedText {
    /// Normalises the text into tokens and keeps the label, as
    /// `processing_text` does, for a text whose words the stemmer can take;
    /// any other text is malformed input.
    pub fn try_processing_text(&self, stop_words: &Vec<String>) -> (outcome: Result<
        ProcessedText,
        MalformedInputError,
    >)
        ensures
            outcome is Ok <==> words_fit(self.text@),
            outcome matches Ok(processed) ==> processed@ == (Document {
                tokens: normalized(self.text@, words_of(stop_words@)),
                label: self.spam,
            }),
    {
        match try_normalize(self.text.as_str(), stop_words) {
            Some(text) => Ok(ProcessedText { text, spam_or_not: self.spam }),
            None => Err(MalformedInputError),
        }
    }
}

impl ProcessedText {
    /// A second message with the same tokens and label.
    pub fn duplicate(&self) -> (copy: Self)
        ensures
            copy@ == self@,
    {
        let mut text: Vec<String> = Vec::new();
        let mut i: usize = 0;
        while i < self.text.len()
            invariant
                i <= self.text.len(),
                words_of(text@) == words_of(self.text@).take(i as int),
            decreases self.text.len() - i,
        {
            let ghost before = words_of(text@);
            text.push(self.text[i].clone());
            assert(words_of(text@) =~= before.push(words_of(self.text@)[i as int]));
            assert(words_of(text@) =~= words_of(self.text@).take(i + 1));
            i = i + 1;
        }
        assert(words_of(self.text@).take(self.text.len() as int) =~= words_of(self.text@));
        ProcessedText { text, spam_or_not: self.spam_or_not }
    }

    /// Whether the message is labelled as spam.
    pub fn is_spam(&self) -> (spam: bool)
        ensures
            spam == self@.is_spam(),
    {
        self.spam_or_not == SPAM
    }
}

} // verus!
