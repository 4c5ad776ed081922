use kv_gauntlet::text::{split_lines, trim_chars, white_space};

fn str_chars(s: &str) -> Vec<char> {
    s.chars().collect()
}

fn lines_of(s: &str) -> Vec<String> {
    split_lines(&str_chars(s)).into_iter().map(|l| l.into_iter().collect()).collect()
}

#[test]
fn lines_match_std() {
    for s in ["", "a", "a\n", "a\nb", "a\r\nb\r\n", "\n\n", "a\rb\n", "x\r", "\r\n", "one\ntwo\n\nthree"] {
        let expected: Vec<String> = s.lines().map(|l| l.to_string()).collect();
        assert_eq!(lines_of(s), expected, "for {:?}", s);
    }
}

#[test]
fn trim_matches_std() {
    for s in ["", "  ", " a ", "\u{3000}x\u{2028}", "\t\n a b \r", "\u{85}z\u{a0}", "x"] {
        let t: String = trim_chars(&str_chars(s)).into_iter().collect();
        assert_eq!(t, s.trim(), "for {:?}", s);
    }
}

#[test]
fn white_space_matches_std() {
    for u in 0u32..0x3100 {
        if let Some(c) = char::from_u32(u) {
            assert_eq!(white_space(c), c.is_whitespace(), "for {:?}", c);
        }
    }
}

#[test]
fn library_chars_match_std() {
    for s in ["", "abc", "é漢\u{1F600}", "a\nb"] {
        assert_eq!(kv_gauntlet::text::str_chars(s), s.chars().collect::<Vec<char>>());
    }
}
