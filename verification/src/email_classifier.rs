//! Training on a labelled corpus, and the decision between the two classes.

use crate::bignat::BigNat;
use crate::document::{documents_of, Document, ProcessedText, NOT_SPAM, SPAM};
use crate::model::{
    class_size, class_tokens, count_product, labelled_group, lemma_class_tokens_step,
    lemma_class_with_tokens, lemma_distinct_words, lemma_occurrences_bounds,
    lemma_priors_sum_to_one, lemma_smoothed_counts_proper, lemma_tally_concat, lemma_tally_of_zero_counts, power, predicted_label, relabelled,
    score_denominator, score_numerator, smoothed_count, smoothed_counts, smoothed_total, tally,
    trainable, zero_counts,
};
use crate::probability::{Probability, Score};
use crate::word_classifier::{bumped, within, WordClassifier};
use vstd::prelude::*;

verus! {

/// Why no model could be made of a corpus.
#[derive(Debug, PartialEq, Eq)]
pub enum TrainingError {
    /// The corpus is empty, or one of the two classes has no token in it.
    InsufficientTrainingData,
}

/// The share of each class among the documents of a corpus.
pub struct ClassPriors {
    pub spam: Probability,
    pub not_spam: Probability,
}

/// Counts the documents of each class and puts each count over the number of
/// all documents. The two priors add up to one.
pub fn estimate_priors(documents: &Vec<ProcessedText>) -> (estimate: Result<
    ClassPriors,
    TrainingError,
>)
    ensures
        estimate is Err <==> documents.len() == 0,
        estimate matches Ok(priors) ==> {
            &&& priors.spam.numerator == class_size(documents_of(documents@), true)
            &&& priors.not_spam.numerator == class_size(documents_of(documents@), false)
            &&& priors.spam.denominator == documents.len()
            &&& priors.not_spam.denominator == documents.len()
            &&& priors.spam.numerator + priors.not_spam.numerator == documents.len()
        },
{
    if documents.len() == 0 {
        return Err(TrainingError::InsufficientTrainingData);
    }
    let ghost docs = documents_of(documents@);
    let mut spam: usize = 0;
    let mut i: usize = 0;
    assert(docs.take(0) =~= Seq::empty());
    while i < documents.len()
        invariant
            i <= documents.len(),
            docs == documents_of(documents@),
            spam == class_size(docs.take(i as int), true),
            i - spam == class_size(docs.take(i as int), false),
        decreases documents.len() - i,
    {
        proof {
            lemma_class_tokens_step(docs, true, i as int);
            lemma_class_tokens_step(docs, false, i as int);
            assert(docs[i as int] == documents[i as int]@);
        }
        if documents[i].is_spam() {
            spam = spam + 1;
        }
        i = i + 1;
    }
    assert(docs.take(documents.len() as int) =~= docs);
    let total = documents.len();
    Ok(
        ClassPriors {
            spam: Probability { numerator: spam as u128, denominator: total as u128 },
            not_spam: Probability {
                numerator: (total - spam) as u128,
                denominator: total as u128,
            },
        },
    )
}

/// The tokens of a class in a corpus that a vector holds are so few that a
/// 128-bit count of them, with one more for each word of a table, cannot
/// overflow.
pub proof fn lemma_tokens_fit(emails: Seq<ProcessedText>, spam: bool)
    requires
        emails.len() <= usize::MAX,
    ensures
        class_tokens(documents_of(emails), spam).len() <= emails.len() * usize::MAX,
        class_tokens(documents_of(emails), spam).len() + usize::MAX <= u128::MAX,
    decreases emails.len(),
{
    let docs = documents_of(emails);
    let n = emails.len();
    let m = usize::MAX as nat;
    if n > 0 {
        let front = emails.drop_last();
        assert(documents_of(front) =~= docs.drop_last());
        lemma_tokens_fit(front, spam);
        assert(docs.last().tokens.len() == emails.last().text.len());
        assert(n * m == (n - 1) * m + m) by (nonlinear_arith);
    } else {
        assert(0 * m == 0);
    }
    assert(n * m <= m * m) by (nonlinear_arith)
        requires
            n <= m,
    ;
    assert(m * m <= 0xffff_ffff_ffff_ffff * 0xffff_ffff_ffff_ffff) by (nonlinear_arith)
        requires
            m <= 0xffff_ffff_ffff_ffff,
    ;
}

/// A naive Bayes classifier for spam: the training corpus, the prior of each
/// class, and the word probabilities of each class.
pub struct EmailClassifier {
    total_emails: Vec<ProcessedText>,
    email_is_spam: Probability,
    email_is_not_spam: Probability,
    word_classifier: WordClassifier,
}

impl EmailClassifier {
    /// The documents that the classifier was given to learn from.
    pub closed spec fn corpus(&self) -> Seq<Document> {
        documents_of(self.total_emails@)
    }

    /// The prior of one class.
    pub closed spec fn prior(&self, spam: bool) -> Probability {
        if spam {
            self.email_is_spam
        } else {
            self.email_is_not_spam
        }
    }

    /// The word counts and word probabilities.
    pub closed spec fn words(&self) -> WordClassifier {
        self.word_classifier
    }

    /// The state before training: every word of the corpus is entered in the
    /// table of its class, and nothing is counted.
    pub open spec fn fresh(&self) -> bool {
        &&& self.words().wf()
        &&& self.words().counts(true) == zero_counts(class_tokens(self.corpus(), true))
        &&& self.words().counts(false) == zero_counts(class_tokens(self.corpus(), false))
        &&& self.words().total(true) == 0
        &&& self.words().total(false) == 0
    }

    /// What training gives one class: its share of the documents as prior,
    /// and for each of its words the smoothed count over the smoothed total.
    pub open spec fn fits(&self, spam: bool) -> bool {
        &&& self.prior(spam).numerator == class_size(self.corpus(), spam)
        &&& self.prior(spam).denominator == self.corpus().len()
        &&& self.words().probabilities(spam).proper()
        &&& self.words().probabilities(spam).numerators() == smoothed_counts(
            class_tokens(self.corpus(), spam),
        )
        &&& self.words().probabilities(spam).denominator() == smoothed_total(
            self.corpus(),
            spam,
        )
    }

    /// The state after training.
    pub open spec fn trained(&self) -> bool {
        &&& trainable(self.corpus())
        &&& self.fits(true)
        &&& self.fits(false)
    }

    /// Takes the training corpus and enters its words; nothing is counted
    /// before `update_training_classification`.
    pub fn new(training_data: Vec<ProcessedText>) -> (classifier: Self)
        ensures
            classifier.corpus() == documents_of(training_data@),
            classifier.fresh(),
    {
        let word_classifier = WordClassifier::new(&training_data);
        EmailClassifier {
            total_emails: training_data,
            email_is_spam: Probability { numerator: 0, denominator: 1 },
            email_is_not_spam: Probability { numerator: 0, denominator: 1 },
            word_classifier,
        }
    }

    /// Trains the classifier on its corpus: counts the tokens of each class,
    /// smooths the counts, makes the word probabilities and the priors.
    ///
    /// Fails, and leaves the classifier as it was, when one of the classes
    /// has no token in the corpus; an empty corpus is one such case.
    pub fn update_training_classification(&mut self) -> (outcome: Result<(), TrainingError>)
        requires
            old(self).fresh(),
        ensures
            final(self).corpus() == old(self).corpus(),
            outcome is Err <==> !trainable(old(self).corpus()),
            outcome is Ok ==> final(self).trained(),
            outcome is Err ==> final(self).fresh(),
    {
        let ghost docs = self.corpus();
        let ghost spam_tokens = class_tokens(docs, true);
        let ghost ham_tokens = class_tokens(docs, false);
        proof {
            lemma_distinct_words(spam_tokens);
            lemma_distinct_words(ham_tokens);
        }
        if self.word_classifier.distinct_words(true) == 0
            || self.word_classifier.distinct_words(false) == 0 {
            return Err(TrainingError::InsufficientTrainingData);
        }
        let priors = match estimate_priors(&self.total_emails) {
            Ok(priors) => priors,
            Err(e) => {
                return Err(e);
            },
        };
        let mut i: usize = 0;
        proof {
            assert(docs.take(0) =~= Seq::empty());
            assert(self.word_classifier.counts(true) =~= tally(
                zero_counts(spam_tokens),
                class_tokens(docs.take(0), true),
            ));
            assert(self.word_classifier.counts(false) =~= tally(
                zero_counts(ham_tokens),
                class_tokens(docs.take(0), false),
            ));
        }
        while i < self.total_emails.len()
            invariant
                i <= self.total_emails.len(),
                docs == self.corpus(),
                self.total_emails == old(self).total_emails,
                spam_tokens == class_tokens(docs, true),
                ham_tokens == class_tokens(docs, false),
                self.word_classifier.wf(),
                self.word_classifier.counts(true) == tally(
                    zero_counts(spam_tokens),
                    class_tokens(docs.take(i as int), true),
                ),
                self.word_classifier.counts(false) == tally(
                    zero_counts(ham_tokens),
                    class_tokens(docs.take(i as int), false),
                ),
                self.word_classifier.total(true) == class_tokens(docs.take(i as int), true).len(),
                self.word_classifier.total(false) == class_tokens(
                    docs.take(i as int),
                    false,
                ).len(),
                within(self.word_classifier.counts(true), self.word_classifier.total(true)),
                within(self.word_classifier.counts(false), self.word_classifier.total(false)),
                priors.spam.numerator == class_size(docs, true),
                priors.not_spam.numerator == class_size(docs, false),
                priors.spam.denominator == docs.len(),
                priors.not_spam.denominator == docs.len(),
            decreases self.total_emails.len() - i,
        {
            proof {
                lemma_class_tokens_step(docs, true, i as int);
                lemma_class_tokens_step(docs, false, i as int);
                assert(docs[i as int] == self.total_emails[i as int]@);
                let spam = docs[i as int].is_spam();
                lemma_tally_concat(
                    zero_counts(class_tokens(docs, spam)),
                    class_tokens(docs.take(i as int), spam),
                    docs[i as int].tokens,
                );
                assert(documents_of(self.total_emails@.take(i as int)) =~= docs.take(i as int));
                lemma_tokens_fit(self.total_emails@.take(i as int), spam);
            }
            self.word_classifier.word_specifier(&self.total_emails[i]);
            i = i + 1;
        }
        proof {
            assert(docs.take(self.total_emails.len() as int) =~= docs);
            lemma_tally_of_zero_counts(spam_tokens);
            lemma_tally_of_zero_counts(ham_tokens);
            self.word_classifier.lemma_finite(true);
            self.word_classifier.lemma_finite(false);
            lemma_tokens_fit(self.total_emails@, true);
            lemma_tokens_fit(self.total_emails@, false);
        }
        let ghost counted = self.word_classifier;
        self.word_classifier.update_classification();
        self.email_is_spam = priors.spam;
        self.email_is_not_spam = priors.not_spam;
        proof {
            assert(bumped(counted.counts(true)) =~= smoothed_counts(spam_tokens));
            assert(bumped(counted.counts(false)) =~= smoothed_counts(ham_tokens));
            lemma_smoothed_counts_proper(spam_tokens);
            lemma_smoothed_counts_proper(ham_tokens);
        }
        Ok(())
    }

    /// The prior of one class: its share of the training documents.
    pub fn class_prior(&self, spam: bool) -> (prior: Probability)
        requires
            self.trained(),
        ensures
            prior.numerator == class_size(self.corpus(), spam),
            prior.denominator == self.corpus().len(),
            prior.wf(),
    {
        proof {
            lemma_priors_sum_to_one(self.corpus());
        }
        if spam {
            self.email_is_spam
        } else {
            self.email_is_not_spam
        }
    }

    /// The probability of `word` in one class: its smoothed count over the
    /// smoothed total of the class. It is above zero and at most one for
    /// every word, also for one that the class has never seen.
    pub fn word_probability(&self, spam: bool, word: &String) -> (p: Probability)
        requires
            self.trained(),
        ensures
            p.numerator == smoothed_count(self.corpus(), spam, word@),
            p.denominator == smoothed_total(self.corpus(), spam),
            0 < p.numerator <= p.denominator,
    {
        proof {
            lemma_occurrences_bounds(class_tokens(self.corpus(), spam), word@);
        }
        self.word_classifier.probability_table(spam).probability(word)
    }

    /// The documents that the classifier has learned from.
    pub fn training_data(&self) -> (emails: &Vec<ProcessedText>)
        ensures
            documents_of(emails@) == self.corpus(),
    {
        &self.total_emails
    }

    /// The score of one class for `email`: the prior of the class times the
    /// probability of each token in the class, as an exact fraction.
    ///
    /// A token that the class has not seen has the smoothed count one, so no
    /// token brings a score to zero.
    pub fn class_score(&self, spam: bool, email: &ProcessedText) -> (score: Score)
        requires
            self.trained(),
        ensures
            score.numerator@ == score_numerator(self.corpus(), spam, email@.tokens),
            score.denominator@ == score_denominator(self.corpus(), spam, email@.tokens),
    {
        let ghost docs = self.corpus();
        let ghost tokens = email@.tokens;
        let table = self.word_classifier.probability_table(spam);
        let mut numerator = BigNat::from_u128(
            if spam {
                self.email_is_spam.numerator
            } else {
                self.email_is_not_spam.numerator
            },
        );
        let mut denominator = BigNat::from_u128(
            if spam {
                self.email_is_spam.denominator
            } else {
                self.email_is_not_spam.denominator
            },
        );
        let mut i: usize = 0;
        proof {
            assert(tokens.take(0) =~= Seq::empty());
            assert(count_product(docs, spam, tokens.take(0)) == 1);
            assert(power(smoothed_total(docs, spam), 0) == 1);
            assert(class_size(docs, spam) * 1 == class_size(docs, spam));
            assert(docs.len() * 1 == docs.len());
        }
        while i < email.text.len()
            invariant
                i <= email.text.len(),
                docs == self.corpus(),
                tokens == email@.tokens,
                self.trained(),
                *table == self.words().probabilities(spam),
                numerator@ == class_size(docs, spam) * count_product(
                    docs,
                    spam,
                    tokens.take(i as int),
                ),
                denominator@ == docs.len() * power(smoothed_total(docs, spam), i as nat),
            decreases email.text.len() - i,
        {
            let p = table.probability(&email.text[i]);
            proof {
                let word = tokens[i as int];
                assert(word == email.text[i as int]@);
                lemma_occurrences_bounds(class_tokens(docs, spam), word);
                assert(p.numerator == smoothed_count(docs, spam, word));
                assert(tokens.take(i + 1).drop_last() =~= tokens.take(i as int));
                let size = class_size(docs, spam);
                let product = count_product(docs, spam, tokens.take(i as int));
                let count = smoothed_count(docs, spam, word);
                assert((size * product) * count == size * (product * count))
                    by (nonlinear_arith);
                let total = smoothed_total(docs, spam);
                let raised = power(total, i as nat);
                assert((docs.len() * raised) * total == docs.len() * (raised * total))
                    by (nonlinear_arith);
            }
            numerator = numerator.mul(&BigNat::from_u128(p.numerator));
            denominator = denominator.mul(&BigNat::from_u128(p.denominator));
            i = i + 1;
        }
        assert(tokens.take(email.text.len() as int) =~= tokens);
        Score { numerator, denominator }
    }

    /// The score of the spam class for `email`.
    pub fn email_spam_probablity(&self, email: &ProcessedText) -> (score: Score)
        requires
            self.trained(),
        ensures
            score.numerator@ == score_numerator(self.corpus(), true, email@.tokens),
            score.denominator@ == score_denominator(self.corpus(), true, email@.tokens),
    {
        self.class_score(true, email)
    }

    /// The score of the class that is not spam for `email`.
    pub fn email_ham_probablity(&self, email: &ProcessedText) -> (score: Score)
        requires
            self.trained(),
        ensures
            score.numerator@ == score_numerator(self.corpus(), false, email@.tokens),
            score.denominator@ == score_denominator(self.corpus(), false, email@.tokens),
    {
        self.class_score(false, email)
    }

    /// The label of the class with the greater score for `email`: `SPAM` only
    /// where the score for spam is strictly greater. On a tie the email is
    /// not spam.
    pub fn predict(&self, email: &ProcessedText) -> (label: u8)
        requires
            self.trained(),
        ensures
            label == predicted_label(self.corpus(), email@.tokens),
    {
        let email_spam_chance = self.email_spam_probablity(email);
        let email_ham_chance = self.email_ham_probablity(email);
        if email_spam_chance.exceeds(&email_ham_chance) {
            SPAM
        } else {
            NOT_SPAM
        }
    }

    /// Labels `email` with the class of the greater score and gives back a
    /// copy of it with that label. The tables of the classifier stay as they
    /// are.
    pub fn classify_email(&self, email: &mut ProcessedText) -> (labelled: ProcessedText)
        requires
            self.trained(),
        ensures
            final(email)@ == relabelled(self.corpus(), old(email)@),
            labelled@ == final(email)@,
    {
        email.spam_or_not = self.predict(email);
        email.duplicate()
    }

    /// Labels every email and sorts them into two groups, those that are spam
    /// and those that are not, each in the order in which the emails came.
    pub fn classify_all(&self, emails: &Vec<ProcessedText>) -> (groups: (
        Vec<ProcessedText>,
        Vec<ProcessedText>,
    ))
        requires
            self.trained(),
        ensures
            documents_of(groups.0@) == labelled_group(self.corpus(), documents_of(emails@), true),
            documents_of(groups.1@) == labelled_group(self.corpus(), documents_of(emails@), false),
    {
        let ghost docs = documents_of(emails@);
        let mut spam_emails: Vec<ProcessedText> = Vec::new();
        let mut ham_emails: Vec<ProcessedText> = Vec::new();
        let mut i: usize = 0;
        proof {
            assert(docs.take(0) =~= Seq::empty());
            assert(documents_of(spam_emails@) =~= labelled_group(self.corpus(), docs.take(0), true));
            assert(documents_of(ham_emails@) =~= labelled_group(self.corpus(), docs.take(0), false));
        }
        while i < emails.len()
            invariant
                i <= emails.len(),
                self.trained(),
                docs == documents_of(emails@),
                documents_of(spam_emails@) == labelled_group(self.corpus(), docs.take(i as int), true),
                documents_of(ham_emails@) == labelled_group(self.corpus(), docs.take(i as int), false),
            decreases emails.len() - i,
        {
            let mut email = emails[i].duplicate();
            email.spam_or_not = self.predict(&email);
            proof {
                assert(docs.take(i + 1).drop_last() =~= docs.take(i as int));
                assert(docs[i as int] == emails[i as int]@);
                assert(email@ == relabelled(self.corpus(), docs[i as int]));
            }
            let ghost spam_before = documents_of(spam_emails@);
            let ghost ham_before = documents_of(ham_emails@);
            if email.is_spam() {
                spam_emails.push(email);
                assert(documents_of(spam_emails@) =~= spam_before.push(email@));
            } else {
                ham_emails.push(email);
                assert(documents_of(ham_emails@) =~= ham_before.push(email@));
            }
            i = i + 1;
        }
        assert(docs.take(emails.len() as int) =~= docs);
        (spam_emails, ham_emails)
    }
}

/// Makes a classifier of a labelled corpus.
///
/// Fails when one of the two classes has no token in the corpus, as on an
/// empty corpus or on one whose documents are all of one class.
pub fn train(training_data: Vec<ProcessedText>) -> (outcome: Result<
    EmailClassifier,
    TrainingError,
>)
    ensures
        outcome is Err <==> !trainable(documents_of(training_data@)),
        outcome matches Ok(classifier) ==> classifier.trained() && classifier.corpus()
            == documents_of(training_data@),
{
    let mut classifier = EmailClassifier::new(training_data);
    match classifier.update_training_classification() {
        Ok(()) => Ok(classifier),
        Err(e) => Err(e),
    }
}

/// Training is deterministic: two classifiers trained on the same corpus
/// have the same priors and the same word probabilities in each class, and
/// they give every document the same scores and the same label.
pub proof fn lemma_training_is_deterministic(
    first: &EmailClassifier,
    second: &EmailClassifier,
    spam: bool,
    tokens: Seq<Seq<char>>,
)
    requires
        first.trained(),
        second.trained(),
        first.corpus() == second.corpus(),
    ensures
        first.prior(spam).numerator == second.prior(spam).numerator,
        first.prior(spam).denominator == second.prior(spam).denominator,
        first.words().probabilities(spam).numerators() == second.words().probabilities(
            spam,
        ).numerators(),
        first.words().probabilities(spam).denominator() == second.words().probabilities(
            spam,
        ).denominator(),
        score_numerator(first.corpus(), spam, tokens) == score_numerator(
            second.corpus(),
            spam,
            tokens,
        ),
        score_denominator(first.corpus(), spam, tokens) == score_denominator(
            second.corpus(),
            spam,
            tokens,
        ),
        predicted_label(first.corpus(), tokens) == predicted_label(second.corpus(), tokens),
{
}

/// The priors of a trained classifier add up to one: they have the same
/// denominator, which is above zero and the sum of their numerators.
pub proof fn lemma_trained_priors_sum_to_one(classifier: &EmailClassifier)
    requires
        classifier.trained(),
    ensures
        classifier.prior(true).denominator == classifier.prior(false).denominator,
        classifier.prior(true).denominator > 0,
        classifier.prior(true).numerator + classifier.prior(false).numerator
            == classifier.prior(true).denominator,
{
    lemma_priors_sum_to_one(classifier.corpus());
    lemma_class_with_tokens(classifier.corpus(), true);
}

} // verus!
