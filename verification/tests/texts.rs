use clog::order::{sorted_places, sorted_places_by_number, stands_before, SortedTexts};
use clog::text::{
    char_is_whitespace, chars_of, find_char, find_text, has_byte_length, has_prefix, read_u32,
    same_chars, split_chars, split_chars_once, split_lines, split_on_text, string_of, strings_of,
    trimmed,
};

fn c(text: &str) -> Vec<char> {
    text.chars().collect()
}

fn texts(list: &[&str]) -> Vec<Vec<char>> {
    list.iter().map(|text| c(text)).collect()
}

#[test]
fn text_becomes_characters_and_back() {
    assert_eq!(chars_of("aé€😀"), vec!['a', 'é', '€', '😀']);
    assert_eq!(chars_of(""), Vec::<char>::new());
    assert_eq!(string_of(&['a', 'é', '€', '😀']), "aé€😀");
    assert_eq!(strings_of(&texts(&["ab", "", "c"])), vec!["ab", "", "c"]);
}

#[test]
fn white_space_is_what_unicode_says() {
    for code in 0..0x11_0000u32 {
        if let Some(ch) = char::from_u32(code) {
            assert_eq!(char_is_whitespace(ch), ch.is_whitespace(), "{code:x}");
        }
    }
}

#[test]
fn white_space_at_the_ends_is_trimmed() {
    assert_eq!(trimmed(&c("  a b \t\n")), c("a b"));
    assert_eq!(trimmed(&c("a")), c("a"));
    assert_eq!(trimmed(&c(" \u{3000} ")), c(""));
    assert_eq!(trimmed(&c("")), c(""));
    assert_eq!(trimmed(&c("\u{a0}x\u{2028}")), c("x"));
}

#[test]
fn prefix_is_told() {
    assert!(has_prefix(&c("git-svn-id: x"), &c("git-svn-id")));
    assert!(has_prefix(&c("abc"), &c("")));
    assert!(has_prefix(&c("abc"), &c("abc")));
    assert!(!has_prefix(&c("ab"), &c("abc")));
    assert!(!has_prefix(&c("abd"), &c("abc")));
    assert!(same_chars(&c("abc"), &c("abc")));
    assert!(!same_chars(&c("abc"), &c("ab")));
    assert!(!same_chars(&c("abc"), &c("abd")));
}

#[test]
fn text_is_split_at_a_character() {
    assert_eq!(split_chars(&c("a b  c"), ' '), texts(&["a", "b", "", "c"]));
    assert_eq!(split_chars(&c(""), ' '), texts(&[""]));
    assert_eq!(split_chars(&c(" "), ' '), texts(&["", ""]));
    assert_eq!(split_chars(&c("abc"), ','), texts(&["abc"]));
    assert_eq!(split_chars(&c(",a,"), ','), texts(&["", "a", ""]));
}

#[test]
fn text_is_split_once() {
    assert_eq!(split_chars_once(&c("a@b@c"), '@'), Some((c("a"), c("b@c"))));
    assert_eq!(split_chars_once(&c("@"), '@'), Some((c(""), c(""))));
    assert_eq!(split_chars_once(&c("abc"), '@'), None);
    assert_eq!(find_char(&c("abca"), 'a'), Some(0));
    assert_eq!(find_char(&c("abca"), 'c'), Some(2));
    assert_eq!(find_char(&c("abca"), 'x'), None);
}

#[test]
fn lines_are_what_the_standard_library_says() {
    for text in [
        "",
        "a",
        "a\n",
        "a\nb",
        "a\r\nb\r\n",
        "a\r",
        "\n",
        "\n\n",
        "a\n\nb",
        "a\r\n\r",
        "\r\n",
        "a\rb\n",
        "a\n\r\nb\r\r\n",
    ] {
        let expected: Vec<Vec<char>> = text.lines().map(|line| c(line)).collect();
        assert_eq!(split_lines(&c(text)), expected, "{text:?}");
    }
}

#[test]
fn numbers_are_read_as_the_standard_library_reads_them() {
    for text in [
        "0", "7", "42", "007", "+5", "+", "", "-1", "4294967295", "4294967296", "99999999999999",
        "1a", " 1", "1 ", "++1", "٣", "00000000000000000001",
    ] {
        assert_eq!(read_u32(&c(text)), text.parse::<u32>().ok(), "{text:?}");
    }
}

#[test]
fn length_in_bytes_is_that_of_the_text() {
    for text in ["", "a", "é", "€", "😀", "aé€😀", "0123456789012345678901234567890123456789"] {
        for n in 0..45 {
            assert_eq!(has_byte_length(&c(text), n), text.len() == n, "{text:?} {n}");
        }
    }
}

#[test]
fn text_is_split_at_a_text() {
    assert_eq!(split_on_text(&c("aXYbXYc"), &c("XY")), texts(&["a", "b", "c"]));
    assert_eq!(split_on_text(&c("XYa"), &c("XY")), texts(&["", "a"]));
    assert_eq!(split_on_text(&c("aXY"), &c("XY")), texts(&["a", ""]));
    assert_eq!(split_on_text(&c("abc"), &c("XY")), texts(&["abc"]));
    assert_eq!(split_on_text(&c(""), &c("XY")), texts(&[""]));
    assert_eq!(split_on_text(&c("aaa"), &c("aa")), texts(&["", "a"]));
    assert_eq!(split_on_text(&c("XXY"), &c("XY")), texts(&["X", ""]));
    assert_eq!(find_text(&c("abcabc"), &c("bc"), 0), Some(1));
    assert_eq!(find_text(&c("abcabc"), &c("bc"), 2), Some(4));
    assert_eq!(find_text(&c("abcabc"), &c("bc"), 5), None);
    assert_eq!(find_text(&c("abc"), &c(""), 3), Some(3));
}

#[test]
fn order_is_that_of_a_dictionary() {
    for a in ["", "a", "ab", "abc", "b", "B", "é", "a\u{10000}", "a\u{ffff}"] {
        for b in ["", "a", "ab", "abc", "b", "B", "é", "a\u{10000}", "a\u{ffff}"] {
            assert_eq!(stands_before(&c(a), &c(b)), a < b, "{a:?} {b:?}");
        }
    }
}

#[test]
fn places_are_sorted_by_their_texts() {
    let keys = texts(&["pear", "apple", "fig", "apple", "", "banana"]);
    assert_eq!(sorted_places(&keys), vec![4, 1, 3, 5, 2, 0]);
    assert_eq!(sorted_places(&vec![]), Vec::<usize>::new());
}

#[test]
fn places_are_sorted_by_their_numbers() {
    assert_eq!(sorted_places_by_number(&vec![5, 1, 5, 0, 1, 9]), vec![3, 1, 4, 0, 2, 5]);
    assert_eq!(sorted_places_by_number(&vec![]), Vec::<usize>::new());
    assert_eq!(sorted_places_by_number(&vec![7]), vec![0]);
}

#[test]
fn sorted_texts_hold_what_was_put_in() {
    let sorted = SortedTexts::new(texts(&["pear", "apple", "fig", "apple", ""]));
    for text in ["pear", "apple", "fig", ""] {
        assert!(sorted.holds(&c(text)), "{text:?}");
    }
    for text in ["pea", "pears", "a", "zebra", "figs", " "] {
        assert!(!sorted.holds(&c(text)), "{text:?}");
    }
    let empty = SortedTexts::new(vec![]);
    assert!(!empty.holds(&c("")));
}
