use spam_filter::text::{
    find, is_stopword, letter, lowercased, normalize, remove_stop_words, split_words, stem,
    stemming, to_lower,
};

fn strings(words: &[&str]) -> Vec<String> {
    words.iter().map(|w| w.to_string()).collect()
}

#[test]
fn split_keeps_order_and_drops_single_letters() {
    let words = split_words("Hello, World! a b cd 42 e-mail's");
    assert_eq!(words, strings(&["hello", "world", "cd", "mail"]));
}

#[test]
fn find_gives_first_position_or_max() {
    let text = strings(&["now", "free", "money", "free"]);
    assert_eq!(find(&text, &"free".to_string()), 1);
    assert_eq!(find(&text, &"now".to_string()), 0);
    assert_eq!(find(&text, &"prize".to_string()), usize::MAX);
    assert_eq!(find(&Vec::new(), &"prize".to_string()), usize::MAX);
}

#[test]
fn stop_words_are_removed_everywhere() {
    let text = strings(&["the", "cat", "and", "the", "hat", "The"]);
    let kept = remove_stop_words(text, &strings(&["the", "and"]));
    assert_eq!(kept, strings(&["cat", "hat", "The"]));
}

#[test]
fn stemming_reduces_inflections() {
    let stems = stemming(strings(&["Meeting", "meetings", "running", "prizes", "fruitlessly"]));
    assert_eq!(stems, strings(&["meet", "meet", "run", "prize", "fruitless"]));
}

#[test]
fn normalize_removes_stop_words_before_stemming() {
    let stops = strings(&["the", "meeting"]);
    let tokens = normalize("The MEETING of the meetings", &stops);
    assert_eq!(tokens, strings(&["of", "meet"]));
}

#[test]
fn normalizing_tokens_again_changes_nothing() {
    let stops = strings(&["now", "the"]);
    let tokens = strings(&["free", "money", "now", "meet", "agenda", "tomorrow", "the", "prize"]);
    // Each token is its own stem.
    assert_eq!(stemming(strings(&["free", "money", "now", "meet", "agenda", "tomorrow", "the", "prize"])), tokens);
    let once = normalize(&tokens.join(" "), &stops);
    assert_eq!(once, strings(&["free", "money", "meet", "agenda", "tomorrow", "prize"]));
    let twice = normalize(&once.join(" "), &stops);
    assert_eq!(twice, once);
}

#[test]
fn normalize_of_text_without_words_is_empty() {
    assert_eq!(normalize("", &Vec::new()), Vec::<String>::new());
    assert_eq!(normalize("1 2 3 - a b c !", &Vec::new()), Vec::<String>::new());
    assert_eq!(split_words("x"), Vec::<String>::new());
    assert_eq!(split_words("xy"), strings(&["xy"]));
}

#[test]
fn letters_outside_ascii_split_words() {
    assert_eq!(split_words("caf\u{e9}s na\u{ef}ve r\u{e9}sum\u{e9}"), strings(&["caf", "na", "ve", "sum"]));
}

#[test]
fn stemmer_takes_every_short_word() {
    let letters: Vec<char> = ('a'..='z').collect();
    let mut words: Vec<String> = Vec::new();
    for a in &letters {
        for b in &letters {
            words.push([*a, *b].iter().collect());
            for c in &letters {
                words.push([*a, *b, *c].iter().collect());
                for d in &letters {
                    words.push([*a, *b, *c, *d].iter().collect());
                }
            }
        }
    }
    let count = words.len();
    let stems = stemming(words);
    assert_eq!(stems.len(), count);
    assert!(stems.iter().all(|stem| !stem.is_empty()));
}

#[test]
fn stemmer_takes_long_and_odd_words() {
    let mut seed: u64 = 0x2545f4914f6cdd1d;
    let mut words: Vec<String> = Vec::new();
    for _ in 0..5000 {
        seed ^= seed << 13;
        seed ^= seed >> 7;
        seed ^= seed << 17;
        let len = 2 + (seed % 24) as usize;
        let mut word = String::new();
        let mut bits = seed;
        for _ in 0..len {
            bits = bits.wrapping_mul(6364136223846793005).wrapping_add(1442695040888963407);
            word.push((b'a' + ((bits >> 33) % 26) as u8) as char);
        }
        words.push(word);
    }
    for suffix in ["ing", "ed", "edly", "ingly", "ational", "fulness", "ization", "sses", "ies", "eed", "y", "s", "'s"] {
        for stem in ["a", "y", "e", "gener", "commun", "arsen", "succ", "exc", "pro", "out", "news"] {
            let word: String = format!("{}{}", stem, suffix).chars().filter(|c| c.is_ascii_lowercase()).collect();
            if word.len() >= 2 {
                words.push(word);
            }
        }
    }
    words.push("a".repeat(100_000));
    words.push("ing".repeat(30_000));
    let count = words.len();
    assert_eq!(stemming(words).len(), count);
}

#[test]
fn letters_are_the_ascii_letters() {
    for c in ['a', 'z', 'A', 'Z', 'm', 'Q'] {
        assert!(letter(c));
    }
    for c in ['0', ' ', '@', '[', '`', '{', '\u{e9}', '\u{41f}', '\n'] {
        assert!(!letter(c));
    }
    let mut c = '\0';
    while (c as u32) < 0x250 {
        assert_eq!(letter(c), c.is_ascii_alphabetic());
        c = char::from_u32(c as u32 + 1).unwrap();
    }
}

#[test]
fn lowercase_changes_ascii_capitals_only() {
    assert_eq!(to_lower('A'), 'a');
    assert_eq!(to_lower('Z'), 'z');
    assert_eq!(to_lower('q'), 'q');
    assert_eq!(to_lower('1'), '1');
    assert_eq!(to_lower('\u{c9}'), '\u{c9}');
    assert_eq!(lowercased("Hello, WORLD 42 \u{c9}t\u{e9}"), "hello, world 42 \u{c9}t\u{e9}");
    assert_eq!(lowercased(""), "");
}

#[test]
fn stop_word_matches_letter_for_letter() {
    let stops = strings(&["the", "and"]);
    assert!(is_stopword(&stops, &"the".to_string()));
    assert!(is_stopword(&stops, &"and".to_string()));
    assert!(!is_stopword(&stops, &"The".to_string()));
    assert!(!is_stopword(&stops, &"then".to_string()));
    assert!(!is_stopword(&Vec::new(), &"the".to_string()));
}

#[test]
fn stem_of_one_token() {
    assert_eq!(stem(&"Agreed".to_string()), "agre");
    assert_eq!(stem(&"running".to_string()), "run");
    assert_eq!(stem(&"is".to_string()), "is");
}
