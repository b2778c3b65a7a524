//! The list of stop words as a text: one word on each line, with the white
//! space at the end of a line left out.

use crate::text::{push_char, words_of};
use vstd::prelude::*;
use vstd::string::StringExecFns;

verus! {

/// Whether `c` is white space as Unicode defines it.
pub open spec fn is_space(c: char) -> bool {
    ||| '\u{9}' <= c <= '\u{d}'
    ||| c == ' '
    ||| c == '\u{85}'
    ||| c == '\u{a0}'
    ||| c == '\u{1680}'
    ||| '\u{2000}' <= c <= '\u{200a}'
    ||| c == '\u{2028}'
    ||| c == '\u{2029}'
    ||| c == '\u{202f}'
    ||| c == '\u{205f}'
    ||| c == '\u{3000}'
}

/// Whether `c` is white space as Unicode defines it.
pub fn space(c: char) -> (b: bool)
    ensures
        b == is_space(c),
{
    ('\u{9}' <= c && c <= '\u{d}') || c == ' ' || c == '\u{85}' || c == '\u{a0}' || c
        == '\u{1680}' || ('\u{2000}' <= c && c <= '\u{200a}') || c == '\u{2028}' || c
        == '\u{2029}' || c == '\u{202f}' || c == '\u{205f}' || c == '\u{3000}'
}

/// The line without the white space at its end.
pub open spec fn trimmed_end(line: Seq<char>) -> Seq<char>
    decreases line.len(),
{
    if line.len() > 0 && is_space(line.last()) {
        trimmed_end(line.drop_last())
    } else {
        line
    }
}

/// The number of characters before the first line feed of `text`.
pub open spec fn first_line_len(text: Seq<char>) -> nat
    decreases text.len(),
{
    if text.len() > 0 && text[0] != '\n' {
        1 + first_line_len(text.skip(1))
    } else {
        0
    }
}

/// The first line is no longer than the text.
pub proof fn lemma_first_line_len_bound(text: Seq<char>)
    ensures
        first_line_len(text) <= text.len(),
    decreases text.len(),
{
    if text.len() > 0 && text[0] != '\n' {
        lemma_first_line_len_bound(text.skip(1));
    }
}

/// The lines of `text`: the pieces between its line feeds. A line feed at the
/// very end opens no further line, and the empty text has no line.
pub open spec fn lines_of(text: Seq<char>) -> Seq<Seq<char>>
    decreases text.len(),
{
    if text.len() == 0 {
        Seq::empty()
    } else {
        proof {
            lemma_first_line_len_bound(text);
        }
        let n = first_line_len(text) as int;
        if n == text.len() {
            seq![text]
        } else {
            seq![text.take(n)] + lines_of(text.skip(n + 1))
        }
    }
}

/// The stop words that a text lists: its lines, each without the white space
/// at its end.
pub open spec fn stop_word_lines(text: Seq<char>) -> Seq<Seq<char>> {
    Seq::new(lines_of(text).len(), |i: int| trimmed_end(lines_of(text)[i]))
}

/// Whether `text` holds no line feed.
pub open spec fn one_line(text: Seq<char>) -> bool {
    forall|i: int| 0 <= i < text.len() ==> #[trigger] text[i] != '\n'
}

/// Whether `text` is white space only.
pub open spec fn all_space(text: Seq<char>) -> bool {
    forall|i: int| 0 <= i < text.len() ==> is_space(#[trigger] text[i])
}

/// A text with no line feed at its first `n` places, and one at the next or
/// none at all, has a first line of `n` characters.
proof fn lemma_first_line_len(text: Seq<char>, n: int)
    requires
        0 <= n <= text.len(),
        one_line(text.take(n)),
        n == text.len() || text[n] == '\n',
    ensures
        first_line_len(text) == n,
    decreases n,
{
    if n > 0 {
        assert(text.take(n)[0] == text[0]);
        let rest = text.skip(1);
        assert forall|i: int| 0 <= i < n - 1 implies #[trigger] rest.take(n - 1)[i] != '\n' by {
            assert(rest.take(n - 1)[i] == text.take(n)[i + 1]);
        }
        lemma_first_line_len(rest, n - 1);
    }
}

/// White space after a text that does not end in white space is all that is
/// trimmed from the end of the two together.
proof fn lemma_trimmed_end(kept: Seq<char>, spaces: Seq<char>)
    requires
        kept.len() == 0 || !is_space(kept.last()),
        all_space(spaces),
    ensures
        trimmed_end(kept + spaces) == kept,
    decreases spaces.len(),
{
    let line = kept + spaces;
    if spaces.len() == 0 {
        assert(line =~= kept);
    } else {
        assert(line.last() == spaces[spaces.len() - 1]);
        assert(line.drop_last() =~= kept + spaces.drop_last());
        assert forall|i: int| 0 <= i < spaces.drop_last().len() implies is_space(
            #[trigger] spaces.drop_last()[i],
        ) by {
            assert(spaces.drop_last()[i] == spaces[i]);
        }
        lemma_trimmed_end(kept, spaces.drop_last());
    }
}

/// Reads the stop words off a text that lists one on each line. White space
/// at the end of a line is no part of the word; an empty line gives the empty
/// word, which matches no token.
pub fn parse_stop_words(contents: &str) -> (stop_words: Vec<String>)
    ensures
        words_of(stop_words@) == stop_word_lines(contents@),
{
    let ghost text = contents@;
    let mut stop_words: Vec<String> = Vec::new();
    let mut kept = String::new();
    let mut spaces = String::new();
    let mut open = false;
    let ghost mut start: int = 0;
    proof {
        assert(text.skip(0) =~= text);
        assert(words_of(stop_words@) + stop_word_lines(text) =~= stop_word_lines(text));
        assert(kept@ + spaces@ =~= text.subrange(0, 0));
    }
    for c in it: contents.chars()
        invariant
            it.seq() == text,
            text == contents@,
            0 <= start <= it.index() <= text.len(),
            one_line(text.subrange(start, it.index() as int)),
            kept@ + spaces@ == text.subrange(start, it.index() as int),
            kept@.len() == 0 || !is_space(kept@.last()),
            all_space(spaces@),
            open == (it.index() > start),
            stop_word_lines(text) == words_of(stop_words@) + stop_word_lines(text.skip(start)),
    {
        let ghost i = it.index() as int;
        let ghost line = text.subrange(start, i);
        assert(c == text[i]);
        if c == '\n' {
            proof {
                let tail = text.skip(start);
                assert(tail.take(i - start) =~= line);
                lemma_first_line_len(tail, i - start);
                assert(tail.skip(i - start + 1) =~= text.skip(i + 1));
                lemma_trimmed_end(kept@, spaces@);
                let rest = stop_word_lines(text.skip(i + 1));
                assert(stop_word_lines(tail) =~= seq![kept@] + rest);
                assert(words_of(stop_words@) + (seq![kept@] + rest) =~= words_of(
                    stop_words@,
                ).push(kept@) + rest);
            }
            let ghost before = words_of(stop_words@);
            stop_words.push(kept);
            assert(words_of(stop_words@) =~= before.push(trimmed_end(line)));
            kept = String::new();
            spaces = String::new();
            open = false;
            proof {
                start = i + 1;
                assert(kept@ + spaces@ =~= text.subrange(start, i + 1));
            }
        } else {
            if space(c) {
                push_char(&mut spaces, c);
            } else {
                kept.append(spaces.as_str());
                push_char(&mut kept, c);
                spaces = String::new();
            }
            open = true;
            proof {
                let longer = text.subrange(start, i + 1);
                assert(longer =~= line.push(c));
                assert(kept@ + spaces@ =~= longer);
                assert forall|j: int| 0 <= j < longer.len() implies #[trigger] longer[j]
                    != '\n' by {
                    if j < line.len() {
                        assert(longer[j] == line[j]);
                    }
                }
            }
        }
    }
    if open {
        proof {
            let tail = text.skip(start);
            let n = text.len() - start;
            assert(tail.take(n) =~= tail);
            assert(tail =~= text.subrange(start, text.len() as int));
            lemma_first_line_len(tail, n);
            lemma_trimmed_end(kept@, spaces@);
            assert(stop_word_lines(tail) =~= seq![kept@]);
        }
        let ghost before = words_of(stop_words@);
        stop_words.push(kept);
        assert(words_of(stop_words@) =~= before.push(trimmed_end(text.skip(start))));
        assert(before + seq![trimmed_end(text.skip(start))] =~= before.push(
            trimmed_end(text.skip(start)),
        ));
    } else {
        proof {
            assert(text.skip(start) =~= Seq::<char>::empty());
            assert(stop_word_lines(text.skip(start)) =~= Seq::<Seq<char>>::empty());
            assert(words_of(stop_words@) + Seq::<Seq<char>>::empty() =~= words_of(stop_words@));
        }
    }
    stop_words
}

} // verus!
