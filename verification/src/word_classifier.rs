//! The word counts of the two classes, and the probabilities made of them.

use crate::document::{documents_of, ProcessedText};
use crate::model::{
    class_tokens, lemma_class_tokens_step, lemma_occurrences_bounds, lemma_occurrences_push,
    tally, zero_counts,
};
use crate::probability::ProbabilityTable;
use crate::table::WordTable;
use crate::text::words_of;
use vstd::prelude::*;

verus! {

/// Whether no count of the table is above `total`.
pub open spec fn within(counts: Map<Seq<char>, nat>, total: nat) -> bool {
    forall|word: Seq<char>| counts.dom().contains(word) ==> #[trigger] counts[word] <= total
}

/// The table `base` after each word of `tokens` was entered with the count
/// zero.
pub open spec fn enrolled(base: Map<Seq<char>, nat>, tokens: Seq<Seq<char>>) -> Map<
    Seq<char>,
    nat,
> {
    Map::new(
        |word: Seq<char>| base.dom().contains(word) || tokens.contains(word),
        |word: Seq<char>|
            if tokens.contains(word) {
                0nat
            } else {
                base[word]
            },
    )
}

/// The table `counts` with every count one higher.
pub open spec fn bumped(counts: Map<Seq<char>, nat>) -> Map<Seq<char>, nat> {
    Map::new(|word: Seq<char>| counts.dom().contains(word), |word: Seq<char>| counts[word] + 1)
}

/// Enters each word of `text` into `table` with the count zero.
fn enroll_words(table: &mut WordTable, text: &Vec<String>)
    requires
        old(table).wf(),
    ensures
        final(table).wf(),
        final(table)@ == enrolled(old(table)@, words_of(text@)),
{
    let ghost words = words_of(text@);
    let ghost base = table@;
    let mut i: usize = 0;
    assert(table@ =~= enrolled(base, words.take(0)));
    while i < text.len()
        invariant
            i <= text.len(),
            words == words_of(text@),
            table.wf(),
            table@ == enrolled(base, words.take(i as int)),
        decreases text.len() - i,
    {
        table.set(&text[i], 0);
        proof {
            let shorter = words.take(i as int);
            let longer = words.take(i + 1);
            assert(longer =~= shorter.push(words[i as int]));
            assert forall|word: Seq<char>| longer.contains(word) <==> (shorter.contains(word)
                || word == words[i as int]) by {
                if shorter.contains(word) {
                    let k = choose|k: int| 0 <= k < shorter.len() && shorter[k] == word;
                    assert(longer[k] == word);
                }
                if word == words[i as int] {
                    assert(longer[i as int] == word);
                }
            }
            assert(table@ =~= enrolled(base, longer));
        }
        i = i + 1;
    }
    assert(words.take(text.len() as int) =~= words);
}

/// Counts each word of `text` in `table`, and the words of `text` in `total`.
fn count_words(table: &mut WordTable, total: &mut u128, text: &Vec<String>)
    requires
        old(table).wf(),
        within(old(table)@, *old(total) as nat),
        *old(total) + text.len() <= u128::MAX,
    ensures
        final(table).wf(),
        final(table)@ == tally(old(table)@, words_of(text@)),
        *final(total) == *old(total) + text.len(),
        within(final(table)@, *final(total) as nat),
{
    let ghost words = words_of(text@);
    let ghost base = table@;
    let ghost start = *total;
    let mut i: usize = 0;
    assert(table@ =~= tally(base, words.take(0)));
    while i < text.len()
        invariant
            i <= text.len(),
            words == words_of(text@),
            start + text.len() <= u128::MAX,
            *total == start + i,
            table.wf(),
            table@ == tally(base, words.take(i as int)),
            within(table@, *total as nat),
        decreases text.len() - i,
    {
        let ghost before = table@;
        let ghost word = words[i as int];
        assert(table.count(word) <= *total);
        table.increment(&text[i]);
        *total = *total + 1;
        proof {
            let shorter = words.take(i as int);
            let longer = words.take(i + 1);
            assert(longer =~= shorter.push(word));
            assert forall|w: Seq<char>| longer.contains(w) <==> (shorter.contains(w) || w
                == word) by {
                if shorter.contains(w) {
                    let k = choose|k: int| 0 <= k < shorter.len() && shorter[k] == w;
                    assert(longer[k] == w);
                }
                if w == word {
                    assert(longer[i as int] == w);
                }
            }
            assert forall|w: Seq<char>| #[trigger]
                table@.dom().contains(w) implies table@[w] == tally(base, longer)[w] by {
                lemma_occurrences_push(shorter, word, w);
                lemma_occurrences_bounds(shorter, w);
            }
            assert(table@ =~= tally(base, longer));
            assert forall|w: Seq<char>| table@.dom().contains(w) implies #[trigger] table@[w]
                <= *total by {
                if w != word {
                    assert(before[w] <= start + i);
                }
            }
        }
        i = i + 1;
    }
    assert(words.take(text.len() as int) =~= words);
}

/// The word counts of the spam class and of the class that is not spam, the
/// number of tokens counted in each, and the probabilities made of them.
pub struct WordClassifier {
    spam_word_count: WordTable,
    ham_word_count: WordTable,
    spam_words: ProbabilityTable,
    ham_words: ProbabilityTable,
    total_spam_words: u128,
    total_ham_words: u128,
}

impl WordClassifier {
    /// The count of each word of one class.
    pub closed spec fn counts(&self, spam: bool) -> Map<Seq<char>, nat> {
        if spam {
            self.spam_word_count@
        } else {
            self.ham_word_count@
        }
    }

    /// The number of tokens counted in one class.
    pub closed spec fn total(&self, spam: bool) -> nat {
        if spam {
            self.total_spam_words as nat
        } else {
            self.total_ham_words as nat
        }
    }

    /// The probability table of one class.
    pub closed spec fn probabilities(&self, spam: bool) -> ProbabilityTable {
        if spam {
            self.spam_words
        } else {
            self.ham_words
        }
    }

    /// No table lists a word twice.
    pub closed spec fn wf(&self) -> bool {
        &&& self.spam_word_count.wf()
        &&& self.ham_word_count.wf()
        &&& self.spam_words.wf()
        &&& self.ham_words.wf()
    }

    /// The words of a class are finitely many, and fewer than a `usize` holds.
    pub proof fn lemma_finite(&self, spam: bool)
        requires
            self.wf(),
        ensures
            self.counts(spam).dom().finite(),
            self.counts(spam).dom().len() <= usize::MAX,
    {
        self.spam_word_count.lemma_domain();
        self.ham_word_count.lemma_domain();
        assert(self.spam_word_count.keys().len() <= usize::MAX) by {
            self.spam_word_count.lemma_keys_fit();
        }
        assert(self.ham_word_count.keys().len() <= usize::MAX) by {
            self.ham_word_count.lemma_keys_fit();
        }
    }

    /// The number of distinct words of one class.
    pub fn distinct_words(&self, spam: bool) -> (n: usize)
        requires
            self.wf(),
        ensures
            n == self.counts(spam).dom().len(),
    {
        if spam {
            self.spam_word_count.len()
        } else {
            self.ham_word_count.len()
        }
    }

    /// The number of tokens counted in one class.
    pub fn total_words(&self, spam: bool) -> (n: u128)
        ensures
            n == self.total(spam),
    {
        if spam {
            self.total_spam_words
        } else {
            self.total_ham_words
        }
    }

    /// The count of `word` in one class, if the class has the word.
    pub fn word_count(&self, spam: bool, word: &String) -> (found: Option<u128>)
        requires
            self.wf(),
        ensures
            found is Some <==> self.counts(spam).dom().contains(word@),
            found is Some ==> found->0 == self.counts(spam)[word@],
    {
        if spam {
            self.spam_word_count.get(word)
        } else {
            self.ham_word_count.get(word)
        }
    }

    /// The probability table of one class.
    pub fn probability_table(&self, spam: bool) -> (table: &ProbabilityTable)
        ensures
            *table == self.probabilities(spam),
    {
        if spam {
            &self.spam_words
        } else {
            &self.ham_words
        }
    }

    /// Enters every word of every document into the table of the document's
    /// class, with the count zero. Nothing is counted yet.
    pub fn new(processed_texts: &Vec<ProcessedText>) -> (classifier: Self)
        ensures
            classifier.wf(),
            classifier.counts(true) == zero_counts(
                class_tokens(documents_of(processed_texts@), true),
            ),
            classifier.counts(false) == zero_counts(
                class_tokens(documents_of(processed_texts@), false),
            ),
            classifier.total(true) == 0,
            classifier.total(false) == 0,
            classifier.probabilities(true).numerators() == Map::<Seq<char>, nat>::empty(),
            classifier.probabilities(false).numerators() == Map::<Seq<char>, nat>::empty(),
            classifier.probabilities(true).denominator() == 0,
            classifier.probabilities(false).denominator() == 0,
    {
        let ghost docs = documents_of(processed_texts@);
        let mut spam_word_count = WordTable::new();
        let mut ham_word_count = WordTable::new();
        let mut i: usize = 0;
        proof {
            assert(docs.take(0) =~= Seq::empty());
            assert(spam_word_count@ =~= zero_counts(class_tokens(docs.take(0), true)));
            assert(ham_word_count@ =~= zero_counts(class_tokens(docs.take(0), false)));
        }
        while i < processed_texts.len()
            invariant
                i <= processed_texts.len(),
                docs == documents_of(processed_texts@),
                spam_word_count.wf(),
                ham_word_count.wf(),
                spam_word_count@ == zero_counts(class_tokens(docs.take(i as int), true)),
                ham_word_count@ == zero_counts(class_tokens(docs.take(i as int), false)),
            decreases processed_texts.len() - i,
        {
            let processed_text = &processed_texts[i];
            proof {
                lemma_class_tokens_step(docs, true, i as int);
                lemma_class_tokens_step(docs, false, i as int);
                assert(docs[i as int] == processed_text@);
            }
            if processed_text.is_spam() {
                enroll_words(&mut spam_word_count, &processed_text.text);
                proof {
                    lemma_enrolled_zero_counts(
                        class_tokens(docs.take(i as int), true),
                        words_of(processed_text.text@),
                    );
                }
            } else {
                enroll_words(&mut ham_word_count, &processed_text.text);
                proof {
                    lemma_enrolled_zero_counts(
                        class_tokens(docs.take(i as int), false),
                        words_of(processed_text.text@),
                    );
                }
            }
            i = i + 1;
        }
        assert(docs.take(processed_texts.len() as int) =~= docs);
        WordClassifier {
            spam_word_count,
            ham_word_count,
            spam_words: ProbabilityTable::empty(),
            ham_words: ProbabilityTable::empty(),
            total_spam_words: 0,
            total_ham_words: 0,
        }
    }

    /// Counts the tokens of one document in the table of its class: each
    /// token adds one to the count of its word and one to the total of the
    /// class. A word that the table lacks comes in with its first count.
    pub fn word_specifier(&mut self, processed_text: &ProcessedText)
        requires
            old(self).wf(),
            within(
                old(self).counts(processed_text@.is_spam()),
                old(self).total(processed_text@.is_spam()),
            ),
            old(self).total(processed_text@.is_spam()) + processed_text.text.len() <= u128::MAX,
        ensures
            final(self).wf(),
            final(self).counts(processed_text@.is_spam()) == tally(
                old(self).counts(processed_text@.is_spam()),
                processed_text@.tokens,
            ),
            final(self).total(processed_text@.is_spam()) == old(self).total(
                processed_text@.is_spam(),
            ) + processed_text@.tokens.len(),
            within(
                final(self).counts(processed_text@.is_spam()),
                final(self).total(processed_text@.is_spam()),
            ),
            final(self).counts(!processed_text@.is_spam()) == old(self).counts(
                !processed_text@.is_spam(),
            ),
            final(self).total(!processed_text@.is_spam()) == old(self).total(
                !processed_text@.is_spam(),
            ),
            final(self).probabilities(true) == old(self).probabilities(true),
            final(self).probabilities(false) == old(self).probabilities(false),
    {
        if processed_text.is_spam() {
            count_words(&mut self.spam_word_count, &mut self.total_spam_words, &processed_text.text);
        } else {
            count_words(&mut self.ham_word_count, &mut self.total_ham_words, &processed_text.text);
        }
    }

    /// Adds one to every count of both classes, so that no word of a table is
    /// left with the count zero.
    pub fn update_words(&mut self)
        requires
            old(self).wf(),
            forall|word: Seq<char>|
                old(self).counts(true).dom().contains(word) ==> #[trigger] old(self).counts(
                    true,
                )[word] < u128::MAX,
            forall|word: Seq<char>|
                old(self).counts(false).dom().contains(word) ==> #[trigger] old(self).counts(
                    false,
                )[word] < u128::MAX,
        ensures
            final(self).wf(),
            final(self).counts(true) == bumped(old(self).counts(true)),
            final(self).counts(false) == bumped(old(self).counts(false)),
            final(self).total(true) == old(self).total(true),
            final(self).total(false) == old(self).total(false),
            final(self).probabilities(true) == old(self).probabilities(true),
            final(self).probabilities(false) == old(self).probabilities(false),
    {
        let ghost before = *self;
        proof {
            assert forall|word: Seq<char>|
                self.spam_word_count@.dom().contains(word) implies #[trigger] self.spam_word_count@[word]
                < u128::MAX by {
                assert(self.counts(true)[word] < u128::MAX);
            }
            assert forall|word: Seq<char>|
                self.ham_word_count@.dom().contains(word) implies #[trigger] self.ham_word_count@[word]
                < u128::MAX by {
                assert(self.counts(false)[word] < u128::MAX);
            }
        }
        self.spam_word_count.add_one_to_all();
        self.ham_word_count.add_one_to_all();
        assert(self.spam_word_count@ =~= bumped(before.spam_word_count@));
        assert(self.ham_word_count@ =~= bumped(before.ham_word_count@));
    }

    /// Smooths the counts, then makes the probability table of each class:
    /// the smoothed count of each word over the number of tokens counted in
    /// the class plus the number of its distinct words.
    pub fn update_classification(&mut self)
        requires
            old(self).wf(),
            within(old(self).counts(true), old(self).total(true)),
            within(old(self).counts(false), old(self).total(false)),
            old(self).total(true) + old(self).counts(true).dom().len() <= u128::MAX,
            old(self).total(false) + old(self).counts(false).dom().len() <= u128::MAX,
        ensures
            final(self).wf(),
            final(self).counts(true) == bumped(old(self).counts(true)),
            final(self).counts(false) == bumped(old(self).counts(false)),
            final(self).total(true) == old(self).total(true),
            final(self).total(false) == old(self).total(false),
            final(self).probabilities(true).wf(),
            final(self).probabilities(false).wf(),
            final(self).probabilities(true).numerators() == bumped(old(self).counts(true)),
            final(self).probabilities(false).numerators() == bumped(old(self).counts(false)),
            final(self).probabilities(true).denominator() == old(self).total(true) + old(
                self,
            ).counts(true).dom().len(),
            final(self).probabilities(false).denominator() == old(self).total(false) + old(
                self,
            ).counts(false).dom().len(),
    {
        proof {
            self.spam_word_count.lemma_domain();
            self.ham_word_count.lemma_domain();
            assert forall|word: Seq<char>| self.counts(true).dom().contains(word) implies (
            #[trigger] self.counts(true)[word]) < u128::MAX by {
                assert(self.counts(true).dom().len() != 0);
            }
            assert forall|word: Seq<char>| self.counts(false).dom().contains(word) implies (
            #[trigger] self.counts(false)[word]) < u128::MAX by {
                assert(self.counts(false).dom().len() != 0);
            }
        }
        let spam_distinct = self.spam_word_count.len();
        let ham_distinct = self.ham_word_count.len();
        self.update_words();
        self.spam_words = ProbabilityTable::from_counts(
            self.spam_word_count.duplicate(),
            self.total_spam_words + spam_distinct as u128,
        );
        self.ham_words = ProbabilityTable::from_counts(
            self.ham_word_count.duplicate(),
            self.total_ham_words + ham_distinct as u128,
        );
    }
}

/// Entering the words of `more` into the zero counts of `tokens` gives the
/// zero counts of the two together.
pub proof fn lemma_enrolled_zero_counts(tokens: Seq<Seq<char>>, more: Seq<Seq<char>>)
    ensures
        enrolled(zero_counts(tokens), more) == zero_counts(tokens + more),
{
    let both = tokens + more;
    assert forall|word: Seq<char>| both.contains(word) <==> (tokens.contains(word)
        || more.contains(word)) by {
        if tokens.contains(word) {
            let i = choose|i: int| 0 <= i < tokens.len() && tokens[i] == word;
            assert(both[i] == word);
        }
        if more.contains(word) {
            let i = choose|i: int| 0 <= i < more.len() && more[i] == word;
            assert(both[tokens.len() + i] == word);
        }
        if both.contains(word) {
            let i = choose|i: int| 0 <= i < both.len() && both[i] == word;
            if i < tokens.len() {
                assert(tokens[i] == word);
            } else {
                assert(more[i - tokens.len()] == word);
            }
        }
    }
    assert(enrolled(zero_counts(tokens), more) =~= zero_counts(both));
}

} // verus!
