use calendar2pdf::printable::calc_line_breaks;
use calendar2pdf::printable::wrap::{
    chars_of, separates, word_bounds, FontMetrics, LayoutError,
};

/// Every character one unit wide.
fn unit() -> FontMetrics {
    FontMetrics { advances: vec![], fallback: 1 }
}

/// Letters two units wide, everything else one.
fn wide_letters() -> FontMetrics {
    let mut advances = vec![1u32; 128];
    for code in ('a' as usize)..=('z' as usize) {
        advances[code] = 2;
    }
    FontMetrics { advances, fallback: 7 }
}

fn lines(text: &str, width: i64, max_lines: usize, metrics: &FontMetrics) -> Vec<String> {
    calc_line_breaks(text, width, max_lines, metrics).unwrap()
}

#[test]
fn words_fill_lines_greedily() {
    assert_eq!(lines("aaa bbb ccc", 7, 10, &unit()), vec!["aaa bbb", "ccc"]);
    assert_eq!(lines("aaa bbb ccc", 11, 10, &unit()), vec!["aaa bbb ccc"]);
    assert_eq!(lines("aaa bbb ccc", 10, 10, &unit()), vec!["aaa bbb", "ccc"]);
    assert_eq!(lines("aaa bbb ccc", 6, 10, &unit()), vec!["aaa", "bbb", "ccc"]);
    assert_eq!(lines("a b c d e", 3, 10, &unit()), vec!["a b", "c d", "e"]);
}

#[test]
fn a_word_wider_than_the_line_stands_alone() {
    assert_eq!(lines("a abcdefgh b", 3, 10, &unit()), vec!["a", "abcdefgh", "b"]);
    assert_eq!(lines("abcdefgh", 3, 10, &unit()), vec!["abcdefgh"]);
    assert_eq!(lines("abcdefgh a b", 3, 10, &unit()), vec!["abcdefgh", "a b"]);
}

#[test]
fn lines_past_the_limit_are_dropped() {
    assert_eq!(lines("a b c d e", 3, 2, &unit()), vec!["a b", "c d"]);
    assert_eq!(lines("a b c d e", 3, 1, &unit()), vec!["a b"]);
    assert_eq!(lines("a b c d e", 3, 3, &unit()), vec!["a b", "c d", "e"]);
}

#[test]
fn no_lines_are_asked_for() {
    assert_eq!(lines("a b c", 3, 0, &unit()), Vec::<String>::new());
}

#[test]
fn an_empty_text_has_no_lines() {
    assert_eq!(lines("", 3, 5, &unit()), Vec::<String>::new());
    assert_eq!(lines("   \t\n ", 3, 5, &unit()), Vec::<String>::new());
}

#[test]
fn a_line_needs_a_width() {
    assert_eq!(calc_line_breaks("a b", 0, 5, &unit()), Err(LayoutError::NonPositiveWidth));
    assert_eq!(calc_line_breaks("a b", -1, 5, &unit()), Err(LayoutError::NonPositiveWidth));
    assert_eq!(calc_line_breaks("", 0, 5, &unit()), Err(LayoutError::NonPositiveWidth));
    assert_eq!(calc_line_breaks("a b", i64::MIN, 0, &unit()), Err(LayoutError::NonPositiveWidth));
}

#[test]
fn a_line_keeps_the_white_space_of_the_text() {
    assert_eq!(lines("a  b", 100, 1, &unit()), vec!["a  b"]);
    assert_eq!(lines("a\tb", 100, 1, &unit()), vec!["a\tb"]);
    assert_eq!(lines("a \n b", 100, 1, &unit()), vec!["a \n b"]);
    assert_eq!(lines("  aaa \t bbb\n\nccc\r\n", 9, 10, &unit()), vec!["aaa \t bbb", "ccc"]);
    assert_eq!(lines("aaa\x0cbbb", 7, 10, &unit()), vec!["aaa\x0cbbb"]);
}

#[test]
fn the_white_space_within_a_line_counts_for_its_width() {
    // "a  b" is four wide.
    assert_eq!(lines("a  b", 4, 10, &unit()), vec!["a  b"]);
    assert_eq!(lines("a  b", 3, 10, &unit()), vec!["a", "b"]);
    // "aaa \t bbb" is nine wide, "bbb\n\nccc" eight.
    assert_eq!(lines("  aaa \t bbb\n\nccc\r\n", 8, 10, &unit()), vec!["aaa", "bbb\n\nccc"]);
    assert_eq!(lines("  aaa \t bbb\n\nccc\r\n", 7, 10, &unit()), vec!["aaa", "bbb", "ccc"]);
}

#[test]
fn white_space_at_the_ends_belongs_to_no_line() {
    assert_eq!(lines("  a b  ", 3, 10, &unit()), vec!["a b"]);
    assert_eq!(lines("\n\na\n\n", 3, 10, &unit()), vec!["a"]);
    assert_eq!(lines("a   b   c", 1, 10, &unit()), vec!["a", "b", "c"]);
}

#[test]
fn lines_are_stretches_of_the_text_in_order() {
    let m = wide_letters();
    let text = " the  quick\tbrown fox \n jumps over\u{2003}the lazy   dog ";
    for width in 1..60i64 {
        let got = lines(text, width, 100, &m);
        let mut from = 0;
        for line in &got {
            let at = from + text[from..].find(line.as_str()).unwrap();
            assert_eq!(line.trim(), line.as_str());
            assert!(text[from..at].chars().all(char::is_whitespace));
            from = at + line.len();
        }
        assert!(text[from..].chars().all(char::is_whitespace));
    }
}

#[test]
fn white_space_is_what_the_characters_say() {
    for code in 0..=0x10FFFFu32 {
        if let Some(c) = char::from_u32(code) {
            assert_eq!(separates(c), c.is_whitespace());
        }
    }
}

#[test]
fn every_kind_of_white_space_parts_words() {
    assert_eq!(lines("a\u{b}b", 1, 10, &unit()), vec!["a", "b"]);
    assert_eq!(lines("a\u{2003}b", 1, 10, &unit()), vec!["a", "b"]);
    assert_eq!(lines("a\u{a0}b", 1, 10, &unit()), vec!["a", "b"]);
    assert_eq!(lines("a\u{3000}b", 1, 10, &unit()), vec!["a", "b"]);
    assert_eq!(lines("a\u{200b}b", 1, 10, &unit()), vec!["a\u{200b}b"]);
}

#[test]
fn widths_come_from_the_metrics() {
    let m = wide_letters();
    // "ab" is 4 wide, the space 1, "cd" 4: 9 in all.
    assert_eq!(lines("ab cd", 9, 10, &m), vec!["ab cd"]);
    assert_eq!(lines("ab cd", 8, 10, &m), vec!["ab", "cd"]);
    // Digits are 1 wide each.
    assert_eq!(lines("12 34", 5, 10, &m), vec!["12 34"]);
    assert_eq!(lines("12 34", 4, 10, &m), vec!["12", "34"]);
    // A character past the table has the fallback width, 7.
    assert_eq!(lines("1 \u{e9}", 9, 10, &m), vec!["1 \u{e9}"]);
    assert_eq!(lines("1 \u{e9}", 8, 10, &m), vec!["1", "\u{e9}"]);
}

#[test]
fn advances_and_measures() {
    let m = wide_letters();
    assert_eq!(m.advance('a'), 2);
    assert_eq!(m.advance('0'), 1);
    assert_eq!(m.advance('\u{e9}'), 7);
    let chars: Vec<char> = "ab 1\u{e9}".chars().collect();
    assert_eq!(m.measure(&chars, 0, chars.len()), 2 + 2 + 1 + 1 + 7);
    assert_eq!(m.measure(&chars, 1, 3), 3);
    assert_eq!(m.measure(&chars, 2, 2), 0);
}

#[test]
fn never_more_lines_than_asked_and_none_too_wide() {
    let m = wide_letters();
    let text = "the quick brown fox jumps over the lazy dog and runs away";
    for width in 10..40i64 {
        for max_lines in 0..8usize {
            let got = lines(text, width, max_lines, &m);
            assert!(got.len() <= max_lines);
            for line in &got {
                let chars: Vec<char> = line.chars().collect();
                assert!(m.measure(&chars, 0, chars.len()) <= width as u128);
            }
        }
    }
}

#[test]
fn wrapping_loses_no_word() {
    let text = "the quick  brown fox jumps over the lazy dog";
    let got = lines(text, 9, 100, &unit());
    assert_eq!(got.join(" "), "the quick brown fox jumps over the lazy dog");
    let wide = lines(text, 100, 100, &unit());
    assert_eq!(wide, vec![text]);
    assert_eq!(got, vec!["the quick", "brown fox", "jumps", "over the", "lazy dog"]);
}

#[test]
fn wrapping_twice_gives_the_same() {
    let m = wide_letters();
    let text = "Dentist at Main Street 12";
    assert_eq!(lines(text, 17, 3, &m), lines(text, 17, 3, &m));
}

#[test]
fn words_are_found() {
    let chars = chars_of(" ab  c\td ");
    assert_eq!(chars, vec![' ', 'a', 'b', ' ', ' ', 'c', '\t', 'd', ' ']);
    assert_eq!(word_bounds(&chars), vec![(1, 3), (5, 6), (7, 8)]);
    assert_eq!(word_bounds(&chars_of("")), vec![]);
    assert_eq!(word_bounds(&chars_of("abc")), vec![(0, 3)]);
}
