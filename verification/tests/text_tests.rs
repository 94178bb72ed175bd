use lib::text::{chars_of, is_ws_char, lines_of_str, string_of, trim_chars};

#[test]
fn whitespace_matches_std() {
    for u in 0u32..=0x10FFFF {
        if let Some(c) = char::from_u32(u) {
            assert_eq!(is_ws_char(c), c.is_whitespace(), "U+{:04X}", u);
        }
    }
}

fn std_lines(s: &str) -> Vec<String> {
    s.lines().map(|l| l.to_string()).collect()
}

fn our_lines(s: &str) -> Vec<String> {
    lines_of_str(s).iter().map(|l| string_of(l)).collect()
}

#[test]
fn lines_match_std() {
    let samples = [
        "", "\n", "\n\n", "a", "a\n", "a\nb", "a\r\nb\r\n", "a\r", "\r", "\r\n", "a\rb\nc",
        "x\n\r\n\ry", "é\nü\r\n", " \t \n",
    ];
    for s in samples {
        assert_eq!(our_lines(s), std_lines(s), "{:?}", s);
    }
}

#[test]
fn trim_matches_std() {
    let samples = ["", " ", "a", " a ", "\t a b \u{3000}", "\u{85}x\u{2028}", "é ü", "\r\n"];
    for s in samples {
        let t = trim_chars(&chars_of(s));
        assert_eq!(string_of(&t), s.trim(), "{:?}", s);
    }
}
