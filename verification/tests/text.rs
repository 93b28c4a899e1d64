use ip_extractor::text::{
    find_from, find_stop, is_blank_range, is_whitespace_char, matches_at, to_chars,
};

fn chars(text: &str) -> Vec<char> {
    text.chars().collect()
}

#[test]
fn to_chars_gives_each_character() {
    assert_eq!(to_chars(""), Vec::<char>::new());
    assert_eq!(to_chars("ab c"), vec!['a', 'b', ' ', 'c']);
    assert_eq!(to_chars("é日\n"), vec!['é', '日', '\n']);
}

#[test]
fn matches_at_compares_in_place() {
    let hay = chars("inet 10.0.0.1");
    assert!(matches_at(&hay, &chars("inet "), 0));
    assert!(matches_at(&hay, &chars("10."), 5));
    assert!(!matches_at(&hay, &chars("10."), 4));
    assert!(matches_at(&hay, &chars(".1"), 11));
    assert!(!matches_at(&hay, &chars(".1"), 12));
    assert!(!matches_at(&hay, &chars(".12"), 11));
}

#[test]
fn matches_at_takes_the_empty_fragment_up_to_the_end() {
    let hay = chars("ab");
    assert!(matches_at(&hay, &[], 0));
    assert!(matches_at(&hay, &[], 2));
    assert!(!matches_at(&hay, &[], 3));
    assert!(matches_at(&[], &[], 0));
    assert!(!matches_at(&[], &chars("a"), 0));
    assert!(!matches_at(&hay, &chars("abc"), 0));
    assert!(!matches_at(&hay, &chars("ab"), usize::MAX));
}

#[test]
fn find_from_gives_the_first_place() {
    let hay = chars("abcabcab");
    assert_eq!(find_from(&hay, &chars("abc"), 0), Some(0));
    assert_eq!(find_from(&hay, &chars("abc"), 1), Some(3));
    assert_eq!(find_from(&hay, &chars("abc"), 4), None);
    assert_eq!(find_from(&hay, &chars("ab"), 4), Some(6));
    assert_eq!(find_from(&hay, &chars("b"), 7), Some(7));
    assert_eq!(find_from(&hay, &chars("b"), 8), None);
    assert_eq!(find_from(&hay, &chars("x"), 0), None);
    assert_eq!(find_from(&hay, &chars("abcabcabc"), 0), None);
}

#[test]
fn find_from_finds_the_empty_fragment_where_it_starts() {
    let hay = chars("ab");
    assert_eq!(find_from(&hay, &[], 0), Some(0));
    assert_eq!(find_from(&hay, &[], 1), Some(1));
    assert_eq!(find_from(&hay, &[], 2), Some(2));
    assert_eq!(find_from(&[], &[], 0), Some(0));
    assert_eq!(find_from(&[], &chars("a"), 0), None);
}

#[test]
fn find_from_does_not_skip_overlapping_starts() {
    assert_eq!(find_from(&chars("aaab"), &chars("aab"), 0), Some(1));
    assert_eq!(find_from(&chars("\n\n\n"), &chars("\n\n"), 1), Some(1));
    assert_eq!(find_from(&chars("\n\n\n"), &chars("\n\n"), 2), None);
}

#[test]
fn find_stop_gives_the_first_stop() {
    let text = chars("ab cd\nef");
    assert_eq!(find_stop(&text, 0, ' ', '\n'), 2);
    assert_eq!(find_stop(&text, 2, ' ', '\n'), 2);
    assert_eq!(find_stop(&text, 3, ' ', '\n'), 5);
    assert_eq!(find_stop(&text, 6, ' ', '\n'), 8);
    assert_eq!(find_stop(&text, 8, ' ', '\n'), 8);
    assert_eq!(find_stop(&text, 0, '\n', '\n'), 5);
    assert_eq!(find_stop(&text, 0, 'x', 'y'), 8);
    assert_eq!(find_stop(&[], 0, ' ', '\n'), 0);
}

#[test]
fn whitespace_is_what_unicode_calls_white_space() {
    let mut code: u32 = 0;
    while code <= 0x10FFFF {
        if let Some(c) = char::from_u32(code) {
            assert_eq!(is_whitespace_char(c), c.is_whitespace(), "at {:x}", code);
        }
        code += 1;
    }
}

#[test]
fn whitespace_by_example() {
    for c in [' ', '\t', '\n', '\r', '\u{b}', '\u{c}', '\u{85}', '\u{a0}', '\u{2003}', '\u{3000}'] {
        assert!(is_whitespace_char(c));
    }
    for c in ['a', '0', ':', '\u{0}', '\u{8}', '\u{e}', '\u{200b}', '\u{feff}', '_'] {
        assert!(!is_whitespace_char(c));
    }
}

#[test]
fn blank_range_looks_only_at_its_range() {
    let text = chars("a \t\n b");
    assert!(is_blank_range(&text, 1, 5));
    assert!(!is_blank_range(&text, 0, 5));
    assert!(!is_blank_range(&text, 1, 6));
    assert!(is_blank_range(&text, 0, 0));
    assert!(is_blank_range(&text, 6, 6));
    assert!(!is_blank_range(&text, 5, 6));
    assert!(is_blank_range(&[], 0, 0));
}

#[test]
fn find_from_agrees_with_the_search_of_strings() {
    let hays = ["", "a", "wlan0", "enp3s0", "aaa", "abab", "\n\n\n", "é日本é", "inet 1.2.3.4  netmask"];
    let needles = ["", "a", "b", "ab", "aa", "wlan", "wlp", "0", "\n\n", "é", "日本", "inet ", "netmask "];
    for hay in hays {
        for needle in needles {
            let expected = hay.find(needle).map(|bytes| hay[..bytes].chars().count());
            assert_eq!(find_from(&chars(hay), &chars(needle), 0), expected, "{:?} in {:?}", needle, hay);
        }
    }
}
