//! Text normalisation: raw text becomes a sequence of lowercase, stemmed
//! words, with single letters and stop words left out.

use crate::stemmer::{english_stem, is_lower_letter, stem_word, MAX_WORD_LEN};
use vstd::prelude::*;
use vstd::string::StrSliceExecFns;

verus! {

/// The words of a vector of strings, each as a sequence of characters.
pub open spec fn words_of(text: Seq<String>) -> Seq<Seq<char>> {
    Seq::new(text.len(), |i: int| text[i]@)
}

/// Whether `c` is one of the 52 ASCII letters.
pub open spec fn is_letter(c: char) -> bool {
    ('a' <= c && c <= 'z') || ('A' <= c && c <= 'Z')
}

/// The lowercase form of an ASCII capital; any other character is unchanged.
pub open spec fn lower(c: char) -> char {
    if 'A' <= c && c <= 'Z' {
        ((c as u8) + 32) as char
    } else {
        c
    }
}

/// A word with each of its characters in lowercase.
pub open spec fn lowercase(word: Seq<char>) -> Seq<char> {
    Seq::new(word.len(), |i: int| lower(word[i]))
}

/// Each word of `words` in lowercase.
pub open spec fn lowercase_all(words: Seq<Seq<char>>) -> Seq<Seq<char>> {
    Seq::new(words.len(), |i: int| lowercase(words[i]))
}

/// Whether every character of `word` is an ASCII letter.
pub open spec fn all_letters(word: Seq<char>) -> bool {
    forall|i: int| 0 <= i < word.len() ==> is_letter(#[trigger] word[i])
}

/// The number of letters that `text` starts with.
pub open spec fn leading_letters(text: Seq<char>) -> nat
    decreases text.len(),
{
    if text.len() > 0 && is_letter(text[0]) {
        1 + leading_letters(text.skip(1))
    } else {
        0
    }
}

/// A text starts with no more letters than it has characters.
pub proof fn lemma_leading_letters_bound(text: Seq<char>)
    ensures
        leading_letters(text) <= text.len(),
    decreases text.len(),
{
    if text.len() > 0 && is_letter(text[0]) {
        lemma_leading_letters_bound(text.skip(1));
    }
}

/// The maximal runs of ASCII letters in `text` that are at least two letters
/// long, from left to right.
pub open spec fn fragments(text: Seq<char>) -> Seq<Seq<char>>
    decreases text.len(),
{
    if text.len() == 0 {
        Seq::empty()
    } else if !is_letter(text[0]) {
        fragments(text.skip(1))
    } else {
        proof {
            lemma_leading_letters_bound(text);
        }
        let n = leading_letters(text) as int;
        if n >= 2 {
            seq![text.take(n)] + fragments(text.skip(n))
        } else {
            fragments(text.skip(n))
        }
    }
}

/// A run of letters as a list of fragments: itself if it is long enough.
pub open spec fn run_as_fragments(run: Seq<char>) -> Seq<Seq<char>> {
    if run.len() >= 2 {
        seq![run]
    } else {
        Seq::empty()
    }
}

/// A text that has letters at its first `n` places and none at the next
/// starts with `n` letters.
pub proof fn lemma_leading_letters(text: Seq<char>, n: int)
    requires
        0 <= n <= text.len(),
        all_letters(text.take(n)),
        n == text.len() || !is_letter(text[n]),
    ensures
        leading_letters(text) == n,
    decreases n,
{
    if n > 0 {
        assert(text.take(n)[0] == text[0]);
        let rest = text.skip(1);
        assert forall|i: int| 0 <= i < n - 1 implies is_letter(#[trigger] rest.take(n - 1)[i]) by {
            assert(rest.take(n - 1)[i] == text.take(n)[i + 1]);
        }
        lemma_leading_letters(rest, n - 1);
    }
}

/// A run of letters followed by a character that is no letter gives its own
/// fragment, and the rest of the text gives the others.
pub proof fn lemma_fragments_after_run(text: Seq<char>, n: int)
    requires
        0 <= n < text.len(),
        all_letters(text.take(n)),
        !is_letter(text[n]),
    ensures
        fragments(text) == run_as_fragments(text.take(n)) + fragments(text.skip(n + 1)),
{
    lemma_leading_letters(text, n);
    let rest = text.skip(n);
    assert(rest[0] == text[n]);
    assert(rest.skip(1) =~= text.skip(n + 1));
    assert(fragments(rest) == fragments(text.skip(n + 1)));
    if n == 0 {
        assert(text.skip(0) =~= text);
        assert(run_as_fragments(text.take(n)) + fragments(text.skip(n + 1)) =~= fragments(
            text.skip(n + 1),
        ));
    } else {
        assert(text.take(n)[0] == text[0]);
        if n < 2 {
            assert(run_as_fragments(text.take(n)) + fragments(text.skip(n + 1)) =~= fragments(
                text.skip(n + 1),
            ));
        }
    }
}

/// A text of letters only is one run.
pub proof fn lemma_fragments_of_run(text: Seq<char>)
    requires
        all_letters(text),
    ensures
        fragments(text) == run_as_fragments(text),
{
    let n = text.len() as int;
    assert(text.take(n) =~= text);
    lemma_leading_letters(text, n);
    if n > 0 {
        assert(text.skip(n) =~= Seq::<char>::empty());
        assert(fragments(text.skip(n)) =~= Seq::<Seq<char>>::empty());
        assert(run_as_fragments(text) + Seq::<Seq<char>>::empty() =~= run_as_fragments(text));
    }
}

/// Fragments are made of letters and are at least two letters long.
pub proof fn lemma_fragments_are_runs(text: Seq<char>)
    ensures
        forall|k: int|
            0 <= k < fragments(text).len() ==> all_letters(#[trigger] fragments(text)[k])
                && 2 <= fragments(text)[k].len() <= text.len(),
    decreases text.len(),
{
    if text.len() == 0 {
    } else if !is_letter(text[0]) {
        lemma_fragments_are_runs(text.skip(1));
        assert forall|k: int| 0 <= k < fragments(text).len() implies all_letters(
            #[trigger] fragments(text)[k],
        ) && 2 <= fragments(text)[k].len() <= text.len() by {
            assert(fragments(text)[k] == fragments(text.skip(1))[k]);
        }
    } else {
        lemma_leading_run_is_letters(text);
        let n = leading_letters(text) as int;
        let rest = fragments(text.skip(n));
        lemma_fragments_are_runs(text.skip(n));
        assert forall|k: int| 0 <= k < fragments(text).len() implies all_letters(
            #[trigger] fragments(text)[k],
        ) && 2 <= fragments(text)[k].len() <= text.len() by {
            if n >= 2 {
                if k > 0 {
                    assert(fragments(text)[k] == rest[k - 1]);
                }
            } else {
                assert(fragments(text)[k] == rest[k]);
            }
        }
    }
}

/// The letters that a text starts with are letters.
pub proof fn lemma_leading_run_is_letters(text: Seq<char>)
    ensures
        leading_letters(text) <= text.len(),
        all_letters(text.take(leading_letters(text) as int)),
    decreases text.len(),
{
    lemma_leading_letters_bound(text);
    if text.len() > 0 && is_letter(text[0]) {
        let rest = text.skip(1);
        lemma_leading_run_is_letters(rest);
        let n = leading_letters(text) as int;
        assert forall|i: int| 0 <= i < n implies is_letter(#[trigger] text.take(n)[i]) by {
            if i > 0 {
                assert(text.take(n)[i] == rest.take(n - 1)[i - 1]);
            }
        }
    }
}

/// Whether `c` is one of the 52 ASCII letters.
pub fn letter(c: char) -> (b: bool)
    ensures
        b == is_letter(c),
{
    ('a' <= c && c <= 'z') || ('A' <= c && c <= 'Z')
}

/// The lowercase form of an ASCII capital; any other character is unchanged.
pub fn to_lower(c: char) -> (l: char)
    ensures
        l == lower(c),
        is_letter(c) ==> is_lower_letter(l),
{
    if 'A' <= c && c <= 'Z' {
        ((c as u8) + 32) as char
    } else {
        c
    }
}

/// Appends one character with `String::push`.
///
/// Trusted: the string afterwards holds the characters it held, then `c`.
#[verifier::external_body]
pub(crate) fn push_char(s: &mut String, c: char)
    ensures
        final(s)@ == old(s)@.push(c),
{
    s.push(c)
}

/// Splits `text` at every character that is not an ASCII letter, leaves out
/// the pieces shorter than two letters, and gives the others in lowercase,
/// from left to right.
pub fn split_words(text: &str) -> (words: Vec<String>)
    ensures
        words_of(words@) == lowercase_all(fragments(text@)),
{
    let mut words: Vec<String> = Vec::new();
    let mut current = String::new();
    let mut long_enough = false;
    let mut started = false;
    let ghost mut start: int = 0;
    assert(text@.skip(0) =~= text@);
    assert(words_of(words@) + lowercase_all(fragments(text@)) =~= lowercase_all(
        fragments(text@),
    ));
    for c in it: text.chars()
        invariant
            it.seq() == text@,
            0 <= start <= it.index() <= text@.len(),
            all_letters(text@.subrange(start, it.index() as int)),
            current@ == lowercase(text@.subrange(start, it.index() as int)),
            started == (it.index() - start >= 1),
            long_enough == (it.index() - start >= 2),
            lowercase_all(fragments(text@)) == words_of(words@) + lowercase_all(
                fragments(text@.skip(start)),
            ),
    {
        let ghost i = it.index() as int;
        let ghost run = text@.subrange(start, i);
        assert(c == text@[i]);
        if letter(c) {
            push_char(&mut current, to_lower(c));
            long_enough = started;
            started = true;
            proof {
                let longer = text@.subrange(start, i + 1);
                assert forall|j: int| 0 <= j < longer.len() implies is_letter(
                    #[trigger] longer[j],
                ) by {
                    if j < run.len() {
                        assert(longer[j] == run[j]);
                    }
                }
                assert(current@ =~= lowercase(longer));
            }
        } else {
            proof {
                let tail = text@.skip(start);
                assert(tail.take(i - start) =~= run);
                lemma_fragments_after_run(tail, i - start);
                assert(tail.skip(i - start + 1) =~= text@.skip(i + 1));
                let rest = fragments(text@.skip(i + 1));
                assert(lowercase_all(run_as_fragments(run) + rest) =~= lowercase_all(
                    run_as_fragments(run),
                ) + lowercase_all(rest));
            }
            if long_enough {
                let ghost before = words_of(words@);
                words.push(current);
                proof {
                    assert(words_of(words@) =~= before.push(lowercase(run)));
                    assert(lowercase_all(run_as_fragments(run)) =~= seq![lowercase(run)]);
                    assert(before + (seq![lowercase(run)] + lowercase_all(
                        fragments(text@.skip(i + 1)),
                    )) =~= before.push(lowercase(run)) + lowercase_all(
                        fragments(text@.skip(i + 1)),
                    ));
                }
            } else {
                proof {
                    assert(lowercase_all(run_as_fragments(run)) =~= Seq::<Seq<char>>::empty());
                    assert(Seq::<Seq<char>>::empty() + lowercase_all(
                        fragments(text@.skip(i + 1)),
                    ) =~= lowercase_all(fragments(text@.skip(i + 1))));
                }
            }
            current = String::new();
            long_enough = false;
            started = false;
            proof {
                start = i + 1;
                assert(text@.subrange(start, i + 1) =~= Seq::<char>::empty());
                assert(current@ =~= lowercase(text@.subrange(start, i + 1)));
            }
        }
    }
    let ghost end = text@.len() as int;
    let ghost run = text@.subrange(start, end);
    proof {
        assert(text@.skip(start) =~= run);
        lemma_fragments_of_run(run);
    }
    if long_enough {
        let ghost before = words_of(words@);
        words.push(current);
        proof {
            assert(words_of(words@) =~= before.push(lowercase(run)));
            assert(lowercase_all(run_as_fragments(run)) =~= seq![lowercase(run)]);
            assert(before + seq![lowercase(run)] =~= before.push(lowercase(run)));
        }
    } else {
        proof {
            assert(lowercase_all(run_as_fragments(run)) =~= Seq::<Seq<char>>::empty());
            assert(words_of(words@) + Seq::<Seq<char>>::empty() =~= words_of(words@));
        }
    }
    words
}

/// The position of the first occurrence of `word` in `text`, or `usize::MAX`
/// when `word` does not occur.
pub fn find(text: &Vec<String>, word: &String) -> (index: usize)
    ensures
        words_of(text@).contains(word@) ==> index < text.len() && words_of(text@)[index as int]
            == word@ && forall|j: int| 0 <= j < index ==> words_of(text@)[j] != word@,
        !words_of(text@).contains(word@) ==> index == usize::MAX,
{
    let mut i: usize = 0;
    while i < text.len()
        invariant
            i <= text.len(),
            forall|j: int| 0 <= j < i ==> words_of(text@)[j] != word@,
        decreases text.len() - i,
    {
        if text[i] == *word {
            assert(words_of(text@)[i as int] == word@);
            return i;
        }
        i = i + 1;
    }
    usize::MAX
}

/// The test that a word passes when it is not among `stops`.
pub open spec fn is_kept(stops: Seq<Seq<char>>) -> spec_fn(Seq<char>) -> bool {
    |word: Seq<char>| !stops.contains(word)
}

/// The words of `words` that are not among `stops`, in their order.
pub open spec fn without_stop_words(words: Seq<Seq<char>>, stops: Seq<Seq<char>>) -> Seq<
    Seq<char>,
> {
    words.filter(is_kept(stops))
}

/// Whether `token` is one of the stop words, letter for letter.
pub fn is_stopword(stop_words: &Vec<String>, token: &String) -> (listed: bool)
    ensures
        listed == words_of(stop_words@).contains(token@),
{
    find(stop_words, token) != usize::MAX
}

/// Removes every occurrence of every stop word; the words that stay keep
/// their order. A stop word matches a word letter for letter.
pub fn remove_stop_words(text: Vec<String>, stop_words: &Vec<String>) -> (kept: Vec<String>)
    ensures
        words_of(kept@) == without_stop_words(words_of(text@), words_of(stop_words@)),
{
    let ghost words = words_of(text@);
    let ghost stops = words_of(stop_words@);
    let mut kept: Vec<String> = Vec::new();
    let mut i: usize = 0;
    proof {
        assert(words.take(0) =~= Seq::<Seq<char>>::empty());
        reveal(Seq::filter);
        assert(words_of(kept@) =~= words.take(0).filter(is_kept(stops)));
    }
    while i < text.len()
        invariant
            i <= text.len(),
            words == words_of(text@),
            stops == words_of(stop_words@),
            words_of(kept@) == words.take(i as int).filter(is_kept(stops)),
        decreases text.len() - i,
    {
        let ghost before = words_of(kept@);
        proof {
            assert(words.take(i + 1) =~= words.take(i as int).push(words[i as int]));
            words.take(i as int).lemma_filter_push(words[i as int], is_kept(stops));
        }
        if !is_stopword(stop_words, &text[i]) {
            kept.push(text[i].clone());
            assert(words_of(kept@) =~= before.push(words[i as int]));
        }
        i = i + 1;
    }
    assert(words.take(text.len() as int) =~= words);
    kept
}

/// The stems of the lowercase forms of `words`.
pub open spec fn stems_of(words: Seq<Seq<char>>) -> Seq<Seq<char>> {
    Seq::new(words.len(), |i: int| english_stem(lowercase(words[i])))
}

/// A copy of `word` with its ASCII capitals in lowercase.
pub fn lowercased(word: &str) -> (low: String)
    ensures
        low@ == lowercase(word@),
{
    let mut low = String::new();
    for c in it: word.chars()
        invariant
            it.seq() == word@,
            low@ == lowercase(word@.take(it.index() as int)),
    {
        let ghost i = it.index() as int;
        push_char(&mut low, to_lower(c));
        assert(low@ =~= lowercase(word@.take(i + 1)));
    }
    assert(word@.take(word@.len() as int) =~= word@);
    low
}

/// The English stem of the lowercase form of `token`.
pub fn stem(token: &String) -> (stemmed: String)
    requires
        all_letters(token@),
        token@.len() <= MAX_WORD_LEN,
    ensures
        stemmed@ == english_stem(lowercase(token@)),
{
    let low = lowercased(token.as_str());
    proof {
        assert forall|k: int| 0 <= k < low@.len() implies is_lower_letter(#[trigger] low@[k]) by {
            assert(is_letter(token@[k]));
        }
    }
    stem_word(low.as_str())
}

/// Puts each word in lowercase and reduces it to its English stem.
pub fn stemming(text: Vec<String>) -> (stems: Vec<String>)
    requires
        forall|i: int|
            0 <= i < text.len() ==> all_letters(#[trigger] text[i]@) && text[i]@.len()
                <= MAX_WORD_LEN,
    ensures
        words_of(stems@) == stems_of(words_of(text@)),
{
    let mut stems: Vec<String> = Vec::new();
    let mut i: usize = 0;
    while i < text.len()
        invariant
            i <= text.len(),
            forall|k: int|
                0 <= k < text.len() ==> all_letters(#[trigger] text[k]@) && text[k]@.len()
                    <= MAX_WORD_LEN,
            words_of(stems@) == stems_of(words_of(text@)).take(i as int),
        decreases text.len() - i,
    {
        let ghost before = words_of(stems@);
        let stemmed = stem(&text[i]);
        stems.push(stemmed);
        proof {
            let all = stems_of(words_of(text@));
            assert(all[i as int] == english_stem(lowercase(words_of(text@)[i as int])));
            assert(words_of(stems@) =~= before.push(all[i as int]));
            assert(all.take(i + 1) =~= all.take(i as int).push(all[i as int]));
        }
        i = i + 1;
    }
    assert(stems_of(words_of(text@)).take(text.len() as int) =~= stems_of(words_of(text@)));
    stems
}

/// The tokens of a raw text: its fragments in lowercase, without the stop
/// words, each reduced to its stem.
pub open spec fn normalized(text: Seq<char>, stops: Seq<Seq<char>>) -> Seq<Seq<char>> {
    stems_of(without_stop_words(lowercase_all(fragments(text)), stops))
}

/// Whether no fragment of `text` is longer than the stemmer accepts.
pub open spec fn words_fit(text: Seq<char>) -> bool {
    forall|k: int|
        0 <= k < fragments(text).len() ==> (#[trigger] fragments(text)[k]).len() <= MAX_WORD_LEN
}

/// Turns raw text into tokens: splits it at every character that is not an
/// ASCII letter, drops the pieces of fewer than two letters, puts the others
/// in lowercase, removes the stop words, then stems what is left.
pub fn normalize(raw_text: &str, stop_words: &Vec<String>) -> (tokens: Vec<String>)
    requires
        words_fit(raw_text@),
    ensures
        words_of(tokens@) == normalized(raw_text@, words_of(stop_words@)),
{
    let words = split_words(raw_text);
    proof {
        let pieces = fragments(raw_text@);
        lemma_fragments_are_runs(raw_text@);
        assert(words_of(words@).len() == pieces.len());
        assert forall|k: int| 0 <= k < words.len() implies all_letters(
            #[trigger] words_of(words@)[k],
        ) && words_of(words@)[k].len() <= MAX_WORD_LEN by {
            assert(all_letters(pieces[k]));
            lemma_lowercase_letters(pieces[k]);
        }
    }
    stem_kept_words(words, stop_words)
}

/// Turns raw text into tokens as `normalize` does, if the stemmer can take
/// each of its words; gives nothing for a text with a word that is too long.
pub fn try_normalize(raw_text: &str, stop_words: &Vec<String>) -> (tokens: Option<Vec<String>>)
    ensures
        tokens is Some <==> words_fit(raw_text@),
        tokens matches Some(found) ==> words_of(found@) == normalized(
            raw_text@,
            words_of(stop_words@),
        ),
{
    let words = split_words(raw_text);
    let ghost pieces = fragments(raw_text@);
    let mut i: usize = 0;
    assert(words_of(words@).len() == pieces.len());
    while i < words.len()
        invariant
            i <= words.len(),
            words.len() == pieces.len(),
            pieces == fragments(raw_text@),
            words_of(words@) == lowercase_all(pieces),
            forall|k: int| 0 <= k < i ==> (#[trigger] pieces[k]).len() <= MAX_WORD_LEN,
        decreases words.len() - i,
    {
        assert(words_of(words@)[i as int] == words[i as int]@);
        assert(lowercase(pieces[i as int]).len() == pieces[i as int].len());
        if words[i].as_str().unicode_len() > MAX_WORD_LEN {
            assert(pieces[i as int].len() > MAX_WORD_LEN);
            return None;
        }
        i = i + 1;
    }
    proof {
        lemma_fragments_are_runs(raw_text@);
        assert forall|k: int| 0 <= k < words.len() implies all_letters(
            #[trigger] words_of(words@)[k],
        ) && words_of(words@)[k].len() <= MAX_WORD_LEN by {
            assert(all_letters(pieces[k]));
            lemma_lowercase_letters(pieces[k]);
        }
    }
    Some(stem_kept_words(words, stop_words))
}

/// Removes the stop words from the lowercase fragments of a text and stems
/// the others.
fn stem_kept_words(words: Vec<String>, stop_words: &Vec<String>) -> (tokens: Vec<String>)
    requires
        forall|i: int|
            0 <= i < words.len() ==> all_letters(#[trigger] words_of(words@)[i]) && words_of(
                words@,
            )[i].len() <= MAX_WORD_LEN,
    ensures
        words_of(tokens@) == stems_of(
            without_stop_words(words_of(words@), words_of(stop_words@)),
        ),
{
    let kept = remove_stop_words(words, stop_words);
    proof {
        let all = words_of(words@);
        let stops = words_of(stop_words@);
        assert forall|i: int| 0 <= i < kept.len() implies all_letters(#[trigger] kept[i]@)
            && kept[i]@.len() <= MAX_WORD_LEN by {
            let word = kept[i]@;
            assert(words_of(kept@)[i] == word);
            assert(all.filter(is_kept(stops)).contains(word));
            all.lemma_filter_contains_rev(is_kept(stops), word);
            let k = choose|k: int| 0 <= k < all.len() && all[k] == word;
            assert(all_letters(all[k]));
        }
    }
    stemming(kept)
}

/// The lowercase form of a run of letters is a run of letters.
pub proof fn lemma_lowercase_letters(word: Seq<char>)
    requires
        all_letters(word),
    ensures
        all_letters(lowercase(word)),
        lowercase(word).len() == word.len(),
{
    assert forall|j: int| 0 <= j < lowercase(word).len() implies is_letter(
        #[trigger] lowercase(word)[j],
    ) by {
        assert(is_letter(word[j]));
    }
}

/// A token: at least two characters, all of them lowercase ASCII letters.
pub open spec fn is_token(word: Seq<char>) -> bool {
    &&& word.len() >= 2
    &&& forall|i: int| 0 <= i < word.len() ==> is_lower_letter(#[trigger] word[i])
}

/// The words of `tokens` in one text, with a space between each two.
pub open spec fn joined(tokens: Seq<Seq<char>>) -> Seq<char>
    decreases tokens.len(),
{
    if tokens.len() == 0 {
        Seq::empty()
    } else if tokens.len() == 1 {
        tokens[0]
    } else {
        tokens[0] + seq![' '] + joined(tokens.skip(1))
    }
}

/// Splitting a text of tokens joined by spaces gives the tokens back.
pub proof fn lemma_fragments_of_joined(tokens: Seq<Seq<char>>)
    requires
        forall|i: int| 0 <= i < tokens.len() ==> is_token(#[trigger] tokens[i]),
    ensures
        fragments(joined(tokens)) == tokens,
    decreases tokens.len(),
{
    if tokens.len() == 0 {
        assert(fragments(joined(tokens)) =~= tokens);
    } else {
        let first = tokens[0];
        assert(is_token(first));
        assert(all_letters(first)) by {
            assert forall|i: int| 0 <= i < first.len() implies is_letter(#[trigger] first[i]) by {
                assert(is_lower_letter(first[i]));
            }
        }
        if tokens.len() == 1 {
            lemma_fragments_of_run(first);
            assert(run_as_fragments(first) =~= tokens);
        } else {
            let rest = tokens.skip(1);
            assert forall|i: int| 0 <= i < rest.len() implies is_token(#[trigger] rest[i]) by {
                assert(rest[i] == tokens[i + 1]);
            }
            lemma_fragments_of_joined(rest);
            let text = joined(tokens);
            let n = first.len() as int;
            assert(text.take(n) =~= first);
            assert(text[n] == ' ');
            assert(text.skip(n + 1) =~= joined(rest));
            lemma_fragments_after_run(text, n);
            assert(run_as_fragments(first) + rest =~= tokens);
        }
    }
}

/// A filter keeps the whole of a sequence whose items all pass.
pub proof fn lemma_filter_keeps_all(words: Seq<Seq<char>>, pass: spec_fn(Seq<char>) -> bool)
    requires
        forall|i: int| 0 <= i < words.len() ==> pass(#[trigger] words[i]),
    ensures
        words.filter(pass) == words,
    decreases words.len(),
{
    reveal(Seq::filter);
    if words.len() > 0 {
        let front = words.drop_last();
        assert forall|i: int| 0 <= i < front.len() implies pass(#[trigger] front[i]) by {
            assert(front[i] == words[i]);
        }
        lemma_filter_keeps_all(front, pass);
        assert(front.push(words.last()) =~= words);
    }
}

/// Normalising is idempotent on tokens: of tokens that are already lowercase
/// letters and their own stems, joined by spaces, normalising keeps all but
/// the stop words, and normalising the result once more changes nothing.
pub proof fn lemma_normalize_idempotent(tokens: Seq<Seq<char>>, stops: Seq<Seq<char>>)
    requires
        forall|i: int|
            0 <= i < tokens.len() ==> is_token(#[trigger] tokens[i]) && english_stem(tokens[i])
                == tokens[i],
    ensures
        normalized(joined(tokens), stops) == without_stop_words(tokens, stops),
        normalized(joined(normalized(joined(tokens), stops)), stops) == normalized(
            joined(tokens),
            stops,
        ),
{
    let kept = without_stop_words(tokens, stops);
    assert forall|i: int| 0 <= i < kept.len() implies is_token(#[trigger] kept[i])
        && english_stem(kept[i]) == kept[i] && is_kept(stops)(kept[i]) by {
        tokens.lemma_filter_pred(is_kept(stops), i);
        assert(kept.contains(kept[i]));
        tokens.lemma_filter_contains_rev(is_kept(stops), kept[i]);
        let k = choose|k: int| 0 <= k < tokens.len() && tokens[k] == kept[i];
        assert(is_token(tokens[k]));
    }
    lemma_normalized_tokens(tokens, stops);
    lemma_normalized_tokens(kept, stops);
    lemma_filter_keeps_all(kept, is_kept(stops));
}

/// Of tokens that are already lowercase letters and their own stems, joined
/// by spaces, normalising keeps all but the stop words.
pub proof fn lemma_normalized_tokens(tokens: Seq<Seq<char>>, stops: Seq<Seq<char>>)
    requires
        forall|i: int|
            0 <= i < tokens.len() ==> is_token(#[trigger] tokens[i]) && english_stem(tokens[i])
                == tokens[i],
    ensures
        normalized(joined(tokens), stops) == without_stop_words(tokens, stops),
{
    lemma_fragments_of_joined(tokens);
    assert forall|i: int| 0 <= i < tokens.len() implies lowercase(#[trigger] tokens[i])
        == tokens[i] by {
        assert(is_token(tokens[i]));
        assert forall|j: int| 0 <= j < tokens[i].len() implies lower(#[trigger] tokens[i][j])
            == tokens[i][j] by {
            assert(is_lower_letter(tokens[i][j]));
        }
        assert(lowercase(tokens[i]) =~= tokens[i]);
    }
    assert(lowercase_all(tokens) =~= tokens);
    let kept = without_stop_words(tokens, stops);
    assert forall|i: int| 0 <= i < kept.len() implies english_stem(lowercase(#[trigger] kept[i]))
        == kept[i] by {
        assert(kept.contains(kept[i]));
        tokens.lemma_filter_contains_rev(is_kept(stops), kept[i]);
        let k = choose|k: int| 0 <= k < tokens.len() && tokens[k] == kept[i];
        assert(lowercase(tokens[k]) == tokens[k]);
    }
    assert(stems_of(kept) =~= kept);
}

} // verus!
