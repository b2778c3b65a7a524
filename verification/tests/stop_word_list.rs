use spam_filter::stop_words::{parse_stop_words, space};

fn reference(contents: &str) -> Vec<String> {
    contents.lines().map(|line| line.trim_end().to_string()).collect()
}

#[test]
fn one_word_on_each_line() {
    assert_eq!(parse_stop_words("the\nand\nof\n"), vec!["the", "and", "of"]);
    assert_eq!(parse_stop_words("the\nand\nof"), vec!["the", "and", "of"]);
}

#[test]
fn white_space_at_the_end_of_a_line_is_dropped() {
    assert_eq!(parse_stop_words("the  \nand\t\r\n of \n"), vec!["the", "and", " of"]);
    assert_eq!(parse_stop_words("a b  c \u{a0}\u{3000}"), vec!["a b  c"]);
}

#[test]
fn empty_lines_give_empty_words() {
    assert_eq!(parse_stop_words(""), Vec::<String>::new());
    assert_eq!(parse_stop_words("\n"), vec![""]);
    assert_eq!(parse_stop_words("\n\n"), vec!["", ""]);
    assert_eq!(parse_stop_words("the\n\n  \nand"), vec!["the", "", "", "and"]);
    assert_eq!(parse_stop_words("   "), vec![""]);
}

#[test]
fn parsing_agrees_with_lines_and_trim_end() {
    let samples = [
        "",
        "\n",
        "\r\n",
        "\r",
        "a\r",
        "a\rb\n",
        "the\r\nand\r\n",
        "the \r \nand\r\r\n\r",
        " x \n\ty\u{2003}\n\u{85}z\u{85}",
        "one\ntwo\n\nthree \n\n",
        "caf\u{e9} \u{1680}\n\u{feff}bom\n",
    ];
    for sample in samples {
        assert_eq!(parse_stop_words(sample), reference(sample), "on {:?}", sample);
    }
}

#[test]
fn space_is_unicode_white_space() {
    let mut c = '\0';
    loop {
        assert_eq!(space(c), c.is_whitespace(), "on {:?}", c);
        match char::from_u32(c as u32 + 1) {
            Some(next) => c = next,
            None => {
                if c as u32 >= 0x10ffff {
                    break;
                }
                c = char::from_u32(0xe000).unwrap();
            }
        }
    }
}
