//! The English stemmer, taken from the `rust_stemmers` crate.

use vstd::prelude::*;

verus! {

/// The longest word, in characters, that is handed to the stemmer.
///
/// The stemmer keeps positions inside a word in 32-bit signed integers; this
/// bound leaves ample room for the few characters a stem can gain.
pub const MAX_WORD_LEN: usize = 0x3fff_ffff;

/// Whether `c` is one of the 26 lowercase ASCII letters.
pub open spec fn is_lower_letter(c: char) -> bool {
    'a' <= c && c <= 'z'
}

/// What the stemmer accepts: lowercase ASCII letters only, and no more than
/// `MAX_WORD_LEN` of them.
pub open spec fn stemmable(word: Seq<char>) -> bool {
    &&& word.len() <= MAX_WORD_LEN
    &&& forall|i: int| 0 <= i < word.len() ==> is_lower_letter(#[trigger] word[i])
}

/// The stem that the English Snowball algorithm of `rust_stemmers` gives `word`.
///
/// Nothing is stated here about the algorithm itself: the stem is whatever
/// `rust_stemmers::Stemmer::stem` returns, which depends on the word alone.
pub uninterp spec fn english_stem(word: Seq<char>) -> Seq<char>;

/// Stems one word with `rust_stemmers::Stemmer::stem`, using the stemmer that
/// `rust_stemmers::Stemmer::create` makes for `Algorithm::English`.
///
/// Trusted: the result is a function of the word alone, named `english_stem`.
/// Only words of lowercase ASCII letters within `MAX_WORD_LEN` are handed over,
/// on which every byte position is a character boundary and the stemmer's
/// 32-bit positions cannot overflow.
#[verifier::external_body]
pub(crate) fn stem_word(word: &str) -> (stem: String)
    requires
        stemmable(word@),
    ensures
        stem@ == english_stem(word@),
{
    rust_stemmers::Stemmer::create(rust_stemmers::Algorithm::English).stem(word).into_owned()
}

} // verus!
