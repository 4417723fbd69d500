use hypr_flight::text::{chars_of, is_white_space_char, level_rows_of, trim_chars, utf8_len_of};

fn rows(s: &str) -> Vec<String> {
    let chars = chars_of(s);
    level_rows_of(&chars).into_iter().map(|r| r.into_iter().collect()).collect()
}

#[test]
fn whitespace_matches_std_for_every_char() {
    for u in 0u32..=0x10FFFF {
        if let Some(c) = char::from_u32(u) {
            assert_eq!(is_white_space_char(c), c.is_whitespace(), "U+{:04X}", u);
        }
    }
}

#[test]
fn trim_matches_std() {
    for s in ["", "   ", "  ab c \t", "\u{3000}x\u{a0}", "a", "\r\n#..#\r", " \u{85}é\u{2028}"] {
        let chars = chars_of(s);
        let t: String = trim_chars(&chars).into_iter().collect();
        assert_eq!(t, s.trim());
    }
}

#[test]
fn utf8_len_matches_std() {
    for s in ["", "abc", "é", "日本", "🚀#", "a\u{7ff}\u{800}\u{ffff}\u{10000}"] {
        let chars = chars_of(s);
        assert_eq!(utf8_len_of(&chars), s.len() as u128);
    }
}

#[test]
fn chars_of_matches_std() {
    let s = "a#é\n🚀";
    assert_eq!(chars_of(s), s.chars().collect::<Vec<char>>());
}

#[test]
fn rows_are_trimmed_lines_without_blanks() {
    let text = "\n    ###\n\n    #.#  \r\n   \n    ###\n";
    assert_eq!(rows(text), vec!["###", "#.#", "###"]);
}

#[test]
fn rows_match_std_lines_trim_filter() {
    for text in ["", "\n\n", "a\nb", "  a \r\n\r\n b\n", "x\ry\n z", "\u{2029}q\n"] {
        let expected: Vec<String> = text
            .lines()
            .map(str::trim)
            .filter(|l| !l.is_empty())
            .map(String::from)
            .collect();
        assert_eq!(rows(text), expected, "{:?}", text);
    }
}

#[test]
fn trailing_newline_changes_nothing() {
    assert_eq!(rows("#.\n.#"), rows("#.\n.#\n"));
}
