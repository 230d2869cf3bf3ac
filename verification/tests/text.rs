use sim_circuit::text::{
    chars_of, is_text, is_whitespace, numbered, parse_u32, push_decimal, push_text, split_words,
};

#[test]
fn white_space_is_what_the_standard_library_calls_so() {
    for code in 0..=0x10FFFFu32 {
        if let Some(c) = char::from_u32(code) {
            assert_eq!(is_whitespace(c), c.is_whitespace());
        }
    }
}

#[test]
fn words_are_what_the_standard_library_splits() {
    for text in [
        "",
        " ",
        "a",
        " a",
        "a ",
        "2 1 0 4 8 AMul",
        "  2\t1 \u{a0}0\u{3000}4   8 AMul\r",
        "\u{2003}x\u{85}y\u{1680}z\u{2028}",
        "one\ntwo",
        "ünï cödé  ẞ",
    ] {
        let chars: Vec<char> = text.chars().collect();
        let found: Vec<String> =
            split_words(&chars, 0, chars.len()).iter().map(|word| word.iter().collect()).collect();
        let expected: Vec<String> = text.split_whitespace().map(|word| word.to_string()).collect();
        assert_eq!(found, expected);
    }
}

#[test]
fn words_of_a_part_of_the_text() {
    let chars: Vec<char> = "ab cd ef".chars().collect();
    assert_eq!(split_words(&chars, 1, 7), vec![vec!['b'], vec!['c', 'd'], vec!['e']]);
    assert_eq!(split_words(&chars, 2, 2), Vec::<Vec<char>>::new());
    assert_eq!(split_words(&chars, 8, 8), Vec::<Vec<char>>::new());
}

#[test]
fn text_is_its_characters() {
    assert_eq!(chars_of("a§c"), vec!['a', '§', 'c']);
    assert_eq!(chars_of(""), Vec::<char>::new());
    let mut chars = vec!['x'];
    push_text(&mut chars, "yz");
    push_text(&mut chars, "");
    assert_eq!(chars, vec!['x', 'y', 'z']);
    assert!(is_text(&vec!['1'], "1"));
    assert!(!is_text(&vec!['1', '1'], "1"));
    assert!(!is_text(&vec![], "1"));
    assert!(!is_text(&vec!['2'], "1"));
    assert!(is_text(&vec![], ""));
}

#[test]
fn decimal_numbers_are_read_and_written() {
    let read = |text: &str| parse_u32(&text.chars().collect());
    assert_eq!(read("0"), Some(0));
    assert_eq!(read("+42"), Some(42));
    assert_eq!(read("4294967295"), Some(u32::MAX));
    assert_eq!(read("4294967296"), None);
    assert_eq!(read("42949672950"), None);
    assert_eq!(read("12a"), None);
    assert_eq!(read(""), None);
    assert_eq!(read("+"), None);
    for number in [0u64, 5, 10, 1234567890, u64::MAX] {
        let mut chars = vec!['#'];
        push_decimal(&mut chars, number);
        assert_eq!(chars.iter().collect::<String>(), format!("#{}", number));
    }
    assert_eq!(numbered("Index ", 12, " out of bounds"), "Index 12 out of bounds");
    assert_eq!(numbered("", 0, ""), "0");
}
