//! The naive Bayes model in mathematical terms: what a training corpus makes
//! of each class, and which class it gives a document.

use crate::document::{Document, NOT_SPAM, SPAM};
use vstd::prelude::*;

verus! {

/// How often `word` occurs in `tokens`.
pub open spec fn occurrences(tokens: Seq<Seq<char>>, word: Seq<char>) -> nat
    decreases tokens.len(),
{
    if tokens.len() == 0 {
        0
    } else {
        occurrences(tokens.drop_last(), word) + if tokens.last() == word {
            1nat
        } else {
            0nat
        }
    }
}

/// The tokens of all documents of one class, in the order of the corpus.
pub open spec fn class_tokens(docs: Seq<Document>, spam: bool) -> Seq<Seq<char>>
    decreases docs.len(),
{
    if docs.len() == 0 {
        Seq::empty()
    } else if docs.last().is_spam() == spam {
        class_tokens(docs.drop_last(), spam) + docs.last().tokens
    } else {
        class_tokens(docs.drop_last(), spam)
    }
}

/// The number of documents of one class.
pub open spec fn class_size(docs: Seq<Document>, spam: bool) -> nat
    decreases docs.len(),
{
    if docs.len() == 0 {
        0
    } else if docs.last().is_spam() == spam {
        class_size(docs.drop_last(), spam) + 1
    } else {
        class_size(docs.drop_last(), spam)
    }
}

/// Whether a model can be made of the corpus: each class has at least one
/// token, and so at least one document.
pub open spec fn trainable(docs: Seq<Document>) -> bool {
    class_tokens(docs, true).len() > 0 && class_tokens(docs, false).len() > 0
}

/// The count of `word` in one class after add-one smoothing. A word that the
/// class never saw has the count one.
pub open spec fn smoothed_count(docs: Seq<Document>, spam: bool, word: Seq<char>) -> nat {
    occurrences(class_tokens(docs, spam), word) + 1
}

/// The number of tokens of one class after add-one smoothing: one more for
/// each distinct token.
pub open spec fn smoothed_total(docs: Seq<Document>, spam: bool) -> nat {
    class_tokens(docs, spam).len() + class_tokens(docs, spam).to_set().len()
}

/// The product of the smoothed counts of `tokens` in one class.
pub open spec fn count_product(docs: Seq<Document>, spam: bool, tokens: Seq<Seq<char>>) -> nat
    decreases tokens.len(),
{
    if tokens.len() == 0 {
        1
    } else {
        count_product(docs, spam, tokens.drop_last()) * smoothed_count(docs, spam, tokens.last())
    }
}

/// `base` to the power `exponent`.
pub open spec fn power(base: nat, exponent: nat) -> nat
    decreases exponent,
{
    if exponent == 0 {
        1
    } else {
        power(base, (exponent - 1) as nat) * base
    }
}

/// The numerator of the score of one class for a document: the number of
/// documents of the class times the smoothed count of each token.
pub open spec fn score_numerator(docs: Seq<Document>, spam: bool, tokens: Seq<Seq<char>>) -> nat {
    class_size(docs, spam) * count_product(docs, spam, tokens)
}

/// The denominator of the score of one class for a document: the number of
/// documents times the smoothed total of the class, once for each token.
pub open spec fn score_denominator(
    docs: Seq<Document>,
    spam: bool,
    tokens: Seq<Seq<char>>,
) -> nat {
    docs.len() * power(smoothed_total(docs, spam), tokens.len())
}

/// Whether the score for spam is strictly greater than the score for not
/// spam. The two fractions are held against each other by cross
/// multiplication; on a tie the document is not spam.
pub open spec fn predicts_spam(docs: Seq<Document>, tokens: Seq<Seq<char>>) -> bool {
    score_numerator(docs, true, tokens) * score_denominator(docs, false, tokens)
        > score_numerator(docs, false, tokens) * score_denominator(docs, true, tokens)
}

/// The label that the corpus gives a document with these tokens.
pub open spec fn predicted_label(docs: Seq<Document>, tokens: Seq<Seq<char>>) -> u8 {
    if predicts_spam(docs, tokens) {
        SPAM
    } else {
        NOT_SPAM
    }
}

/// The document with the label that the corpus gives it.
pub open spec fn relabelled(docs: Seq<Document>, document: Document) -> Document {
    Document { tokens: document.tokens, label: predicted_label(docs, document.tokens) }
}

/// The documents of `documents` that the corpus puts in one class, each with
/// its new label, in their order.
pub open spec fn labelled_group(docs: Seq<Document>, documents: Seq<Document>, spam: bool) -> Seq<
    Document,
>
    decreases documents.len(),
{
    if documents.len() == 0 {
        Seq::empty()
    } else if predicts_spam(docs, documents.last().tokens) == spam {
        labelled_group(docs, documents.drop_last(), spam).push(relabelled(docs, documents.last()))
    } else {
        labelled_group(docs, documents.drop_last(), spam)
    }
}

/// A table in which every word of `tokens` has the count zero.
pub open spec fn zero_counts(tokens: Seq<Seq<char>>) -> Map<Seq<char>, nat> {
    Map::new(|word: Seq<char>| tokens.contains(word), |word: Seq<char>| 0nat)
}

/// The table `base` after each token of `tokens` was counted once more.
pub open spec fn tally(base: Map<Seq<char>, nat>, tokens: Seq<Seq<char>>) -> Map<Seq<char>, nat> {
    Map::new(
        |word: Seq<char>| base.dom().contains(word) || tokens.contains(word),
        |word: Seq<char>|
            (if base.dom().contains(word) {
                base[word]
            } else {
                0
            }) + occurrences(tokens, word),
    )
}

/// The smoothed counts of the words that occur in `tokens`.
pub open spec fn smoothed_counts(tokens: Seq<Seq<char>>) -> Map<Seq<char>, nat> {
    Map::new(
        |word: Seq<char>| tokens.contains(word),
        |word: Seq<char>| occurrences(tokens, word) + 1,
    )
}

/// One more token adds one to the count of its own word and nothing to the
/// count of any other.
pub proof fn lemma_occurrences_push(tokens: Seq<Seq<char>>, last: Seq<char>, word: Seq<char>)
    ensures
        occurrences(tokens.push(last), word) == occurrences(tokens, word) + if last == word {
            1nat
        } else {
            0nat
        },
{
    assert(tokens.push(last).drop_last() =~= tokens);
}

/// A word occurs in two sequences put together as often as in the one and in
/// the other.
pub proof fn lemma_occurrences_concat(a: Seq<Seq<char>>, b: Seq<Seq<char>>, word: Seq<char>)
    ensures
        occurrences(a + b, word) == occurrences(a, word) + occurrences(b, word),
    decreases b.len(),
{
    if b.len() == 0 {
        assert(a + b =~= a);
    } else {
        lemma_occurrences_concat(a, b.drop_last(), word);
        assert((a + b).drop_last() =~= a + b.drop_last());
    }
}

/// A word occurs in a sequence exactly if it is counted there at least once,
/// and never more often than the sequence is long.
pub proof fn lemma_occurrences_bounds(tokens: Seq<Seq<char>>, word: Seq<char>)
    ensures
        occurrences(tokens, word) <= tokens.len(),
        tokens.contains(word) <==> occurrences(tokens, word) >= 1,
    decreases tokens.len(),
{
    if tokens.len() > 0 {
        let front = tokens.drop_last();
        lemma_occurrences_bounds(front, word);
        if tokens.contains(word) {
            let i = choose|i: int| 0 <= i < tokens.len() && tokens[i] == word;
            if i < front.len() {
                assert(front[i] == word);
            }
        }
        if front.contains(word) {
            let i = choose|i: int| 0 <= i < front.len() && front[i] == word;
            assert(tokens[i] == word);
        }
        if tokens.last() == word {
            assert(tokens[tokens.len() - 1] == word);
        }
    }
}

/// One more document adds its tokens to the tokens of its class, and one to
/// the size of its class.
pub proof fn lemma_class_tokens_step(docs: Seq<Document>, spam: bool, i: int)
    requires
        0 <= i < docs.len(),
    ensures
        class_tokens(docs.take(i + 1), spam) == if docs[i].is_spam() == spam {
            class_tokens(docs.take(i), spam) + docs[i].tokens
        } else {
            class_tokens(docs.take(i), spam)
        },
        class_size(docs.take(i + 1), spam) == if docs[i].is_spam() == spam {
            class_size(docs.take(i), spam) + 1
        } else {
            class_size(docs.take(i), spam)
        },
{
    assert(docs.take(i + 1).drop_last() =~= docs.take(i));
}

/// Counting one sequence of tokens and then another is counting the two put
/// together.
pub proof fn lemma_tally_concat(base: Map<Seq<char>, nat>, a: Seq<Seq<char>>, b: Seq<Seq<char>>)
    ensures
        tally(tally(base, a), b) == tally(base, a + b),
{
    let twice = tally(tally(base, a), b);
    let once = tally(base, a + b);
    assert forall|word: Seq<char>| #[trigger]
        twice.dom().contains(word) <==> once.dom().contains(word) by {
        if a.contains(word) {
            let i = choose|i: int| 0 <= i < a.len() && a[i] == word;
            assert((a + b)[i] == word);
        }
        if b.contains(word) {
            let i = choose|i: int| 0 <= i < b.len() && b[i] == word;
            assert((a + b)[a.len() + i] == word);
        }
        if (a + b).contains(word) {
            let i = choose|i: int| 0 <= i < (a + b).len() && (a + b)[i] == word;
            if i < a.len() {
                assert(a[i] == word);
            } else {
                assert(b[i - a.len()] == word);
            }
        }
    }
    assert forall|word: Seq<char>| twice.dom().contains(word) implies #[trigger] twice[word]
        == once[word] by {
        lemma_occurrences_concat(a, b, word);
        lemma_occurrences_bounds(a, word);
    }
    assert(twice.dom() =~= once.dom());
    assert(tally(tally(base, a), b) =~= tally(base, a + b));
}

/// Counting every token of a sequence into the table of its own zero counts
/// gives each word the number of its occurrences.
pub proof fn lemma_tally_of_zero_counts(tokens: Seq<Seq<char>>)
    ensures
        tally(zero_counts(tokens), tokens).dom() == tokens.to_set(),
        forall|word: Seq<char>|
            tokens.contains(word) ==> #[trigger] tally(zero_counts(tokens), tokens)[word]
                == occurrences(tokens, word),
{
    assert(tally(zero_counts(tokens), tokens).dom() =~= tokens.to_set());
}

/// A corpus has tokens in a class exactly if it has distinct words there.
pub proof fn lemma_distinct_words(tokens: Seq<Seq<char>>)
    ensures
        tokens.to_set().finite(),
        zero_counts(tokens).dom() == tokens.to_set(),
        tokens.len() == 0 <==> tokens.to_set().len() == 0,
        tokens.to_set().len() <= tokens.len(),
{
    tokens.lemma_cardinality_of_set();
    assert(zero_counts(tokens).dom() =~= tokens.to_set());
    if tokens.len() > 0 {
        assert(tokens.to_set().contains(tokens[0]));
    } else {
        assert(tokens.to_set() =~= Set::empty());
    }
}

/// The smoothed counts of a class make a proper probability table over its
/// smoothed total, provided the class has a token.
pub proof fn lemma_smoothed_counts_proper(tokens: Seq<Seq<char>>)
    requires
        tokens.len() > 0,
    ensures
        forall|word: Seq<char>|
            smoothed_counts(tokens).dom().contains(word) ==> 1 <= #[trigger] smoothed_counts(
                tokens,
            )[word] <= tokens.len() + tokens.to_set().len(),
{
    lemma_distinct_words(tokens);
    assert forall|word: Seq<char>| smoothed_counts(tokens).dom().contains(word) implies 1
        <= #[trigger] smoothed_counts(tokens)[word] <= tokens.len() + tokens.to_set().len() by {
        lemma_occurrences_bounds(tokens, word);
    }
}

/// Every document is of one class or of the other, so the priors of the two
/// classes, each the share of its documents, add up to one.
pub proof fn lemma_priors_sum_to_one(docs: Seq<Document>)
    ensures
        class_size(docs, true) + class_size(docs, false) == docs.len(),
    decreases docs.len(),
{
    if docs.len() > 0 {
        lemma_priors_sum_to_one(docs.drop_last());
    }
}

/// A class with a token has a document.
pub proof fn lemma_class_with_tokens(docs: Seq<Document>, spam: bool)
    requires
        class_tokens(docs, spam).len() > 0,
    ensures
        class_size(docs, spam) > 0,
        docs.len() > 0,
    decreases docs.len(),
{
    if docs.len() > 0 && class_tokens(docs.drop_last(), spam).len() > 0 {
        lemma_class_with_tokens(docs.drop_last(), spam);
    }
}

/// The probability of a word in a class is above zero and at most one: its
/// smoothed count is at least one, also for a word that the class has never
/// seen, and in a class with a token it is no more than the smoothed total.
pub proof fn lemma_probability_in_unit_interval(docs: Seq<Document>, spam: bool, word: Seq<char>)
    ensures
        smoothed_count(docs, spam, word) > 0,
        class_tokens(docs, spam).len() > 0 ==> smoothed_total(docs, spam) > 0 && smoothed_count(
            docs,
            spam,
            word,
        ) <= smoothed_total(docs, spam),
{
    let tokens = class_tokens(docs, spam);
    lemma_occurrences_bounds(tokens, word);
    tokens.lemma_cardinality_of_set();
    if tokens.contains(word) {
        assert(tokens.to_set().contains(word));
    }
}

/// A power of a number above zero is above zero.
pub proof fn lemma_power_positive(base: nat, exponent: nat)
    requires
        base > 0,
    ensures
        power(base, exponent) > 0,
    decreases exponent,
{
    if exponent > 0 {
        lemma_power_positive(base, (exponent - 1) as nat);
        assert(power(base, (exponent - 1) as nat) * base > 0) by (nonlinear_arith)
            requires
                power(base, (exponent - 1) as nat) > 0,
                base > 0,
        ;
    }
}

/// The score of a class with a token is a fraction above zero: no token, seen
/// or unseen, brings it to zero.
pub proof fn lemma_score_positive(docs: Seq<Document>, spam: bool, tokens: Seq<Seq<char>>)
    requires
        class_tokens(docs, spam).len() > 0,
    ensures
        score_numerator(docs, spam, tokens) > 0,
        score_denominator(docs, spam, tokens) > 0,
{
    lemma_class_with_tokens(docs, spam);
    lemma_count_product_positive(docs, spam, tokens);
    lemma_power_positive(smoothed_total(docs, spam), tokens.len());
    let size = class_size(docs, spam);
    let product = count_product(docs, spam, tokens);
    assert(size * product > 0) by (nonlinear_arith)
        requires
            size > 0,
            product > 0,
    ;
    let raised = power(smoothed_total(docs, spam), tokens.len());
    assert(docs.len() * raised > 0) by (nonlinear_arith)
        requires
            docs.len() > 0,
            raised > 0,
    ;
}

/// A product of smoothed counts is above zero.
pub proof fn lemma_count_product_positive(docs: Seq<Document>, spam: bool, tokens: Seq<Seq<char>>)
    ensures
        count_product(docs, spam, tokens) > 0,
    decreases tokens.len(),
{
    if tokens.len() > 0 {
        lemma_count_product_positive(docs, spam, tokens.drop_last());
        let front = count_product(docs, spam, tokens.drop_last());
        let count = smoothed_count(docs, spam, tokens.last());
        assert(front * count > 0) by (nonlinear_arith)
            requires
                front > 0,
                count > 0,
        ;
    }
}

/// Whether the corpus has seen `word` in neither class.
pub open spec fn unseen(docs: Seq<Document>, word: Seq<char>) -> bool {
    !class_tokens(docs, true).contains(word) && !class_tokens(docs, false).contains(word)
}

/// Tokens that a class has never seen have the count product one.
pub proof fn lemma_count_product_of_unseen(
    docs: Seq<Document>,
    spam: bool,
    tokens: Seq<Seq<char>>,
)
    requires
        forall|i: int| 0 <= i < tokens.len() ==> unseen(docs, #[trigger] tokens[i]),
    ensures
        count_product(docs, spam, tokens) == 1,
    decreases tokens.len(),
{
    if tokens.len() > 0 {
        let front = tokens.drop_last();
        assert forall|i: int| 0 <= i < front.len() implies unseen(docs, #[trigger] front[i]) by {
            assert(front[i] == tokens[i]);
        }
        lemma_count_product_of_unseen(docs, spam, front);
        assert(unseen(docs, tokens[tokens.len() - 1]));
        lemma_occurrences_bounds(class_tokens(docs, spam), tokens.last());
        let before = count_product(docs, spam, front);
        let count = smoothed_count(docs, spam, tokens.last());
        assert(before * count == 1) by (nonlinear_arith)
            requires
                before == 1,
                count == 1,
        ;
    }
}

/// A document made of unseen tokens alone goes by the priors, where the two
/// classes have the same smoothed total: each token then takes the same share
/// from both scores, and the document is spam exactly if there are more spam
/// documents than others in the corpus.
pub proof fn lemma_unseen_tokens_follow_priors(docs: Seq<Document>, tokens: Seq<Seq<char>>)
    requires
        trainable(docs),
        smoothed_total(docs, true) == smoothed_total(docs, false),
        forall|i: int| 0 <= i < tokens.len() ==> unseen(docs, #[trigger] tokens[i]),
    ensures
        predicts_spam(docs, tokens) <==> class_size(docs, true) > class_size(docs, false),
{
    lemma_count_product_of_unseen(docs, true, tokens);
    lemma_count_product_of_unseen(docs, false, tokens);
    lemma_score_positive(docs, true, tokens);
    let spam = class_size(docs, true);
    let ham = class_size(docs, false);
    let d = score_denominator(docs, true, tokens);
    assert(score_denominator(docs, false, tokens) == d);
    assert(spam * 1 == spam);
    assert(ham * 1 == ham);
    assert((spam * d > ham * d) <==> spam > ham) by (nonlinear_arith)
        requires
            d > 0,
    ;
}

/// An empty document goes by the priors alone.
pub proof fn lemma_empty_document_follows_priors(docs: Seq<Document>)
    requires
        trainable(docs),
    ensures
        predicts_spam(docs, Seq::empty()) <==> class_size(docs, true) > class_size(docs, false),
{
    let tokens = Seq::<Seq<char>>::empty();
    lemma_class_with_tokens(docs, true);
    let spam = class_size(docs, true);
    let ham = class_size(docs, false);
    let n = docs.len();
    assert(count_product(docs, true, tokens) == 1);
    assert(count_product(docs, false, tokens) == 1);
    assert(power(smoothed_total(docs, true), 0) == 1);
    assert(power(smoothed_total(docs, false), 0) == 1);
    assert(spam * 1 == spam);
    assert(ham * 1 == ham);
    assert(n * 1 == n);
    assert((spam * n > ham * n) <==> spam > ham) by (nonlinear_arith)
        requires
            n > 0,
    ;
}

} // verus!
