use rye::text::{
    char_is_control, char_is_whitespace, contains_text, ends_with_text, same_text, split_lines,
    starts_with_at, to_chars, to_text, trim_bounds, trimmed,
};

fn chars(s: &str) -> Vec<char> {
    s.chars().collect()
}

#[test]
fn whitespace_is_what_std_calls_whitespace() {
    for n in 0..=0x10FFFFu32 {
        if let Some(c) = char::from_u32(n) {
            assert_eq!(char_is_whitespace(c), c.is_whitespace());
        }
    }
}

#[test]
fn control_is_what_std_calls_control() {
    for n in 0..=0x10FFFFu32 {
        if let Some(c) = char::from_u32(n) {
            assert_eq!(char_is_control(c), c.is_control());
        }
    }
}

#[test]
fn characters_and_back() {
    assert_eq!(to_chars("héllo"), vec!['h', 'é', 'l', 'l', 'o']);
    assert_eq!(to_chars(""), Vec::new());
    let v = chars("héllo wörld");
    assert_eq!(to_text(&v, 0, v.len()), "héllo wörld");
    assert_eq!(to_text(&v, 6, 11), "wörld");
    assert_eq!(to_text(&v, 3, 3), "");
}

#[test]
fn trimming_matches_std() {
    for s in ["", "   ", "a", "  a b  ", "\t\nx\u{a0}\u{3000}", "x  ", "  x", "\u{200b}"] {
        let v = chars(s);
        let (lo, hi) = trim_bounds(&v, 0, v.len());
        assert_eq!(to_text(&v, lo, hi), s.trim());
        assert_eq!(trimmed(s), s.trim());
    }
    let v = chars("ab  cd  ef");
    assert_eq!(trim_bounds(&v, 2, 8), (4, 6));
    assert_eq!(trim_bounds(&v, 2, 4), (4, 4));
}

#[test]
fn lines_match_std() {
    let samples = [
        "",
        "\n",
        "one",
        "one\n",
        "one\ntwo",
        "one\r\ntwo\r\n",
        "foo\r\nbar\n\nbaz\r",
        "\r\n\r\n",
        "a\rb\n",
        "\n\nx\n\n",
        "a\r\r\nb",
    ];
    for s in samples {
        let got: Vec<String> =
            split_lines(&chars(s)).iter().map(|l| l.iter().collect()).collect();
        let want: Vec<String> = s.lines().map(|l| l.to_string()).collect();
        assert_eq!(got, want);
    }
    let got = split_lines(&chars("foo\r\nbar\n\nbaz\r"));
    assert_eq!(got, vec![chars("foo"), chars("bar"), chars(""), chars("baz\r")]);
}

#[test]
fn prefixes_suffixes_and_parts() {
    let v = chars("## You said");
    assert!(starts_with_at(&v, 0, v.len(), &chars("## You")));
    assert!(starts_with_at(&v, 0, v.len(), &chars("")));
    assert!(!starts_with_at(&v, 0, 5, &chars("## You")));
    assert!(starts_with_at(&v, 3, v.len(), &chars("You")));
    assert!(!starts_with_at(&v, 0, v.len(), &chars("## you")));
    assert!(ends_with_text(&v, &chars("said")));
    assert!(!ends_with_text(&v, &chars("sai")));
    assert!(!ends_with_text(&chars("d"), &chars("said")));
    assert!(contains_text(&v, &chars("You s")));
    assert!(contains_text(&v, &chars("")));
    assert!(contains_text(&v, &chars("## You said")));
    assert!(!contains_text(&v, &chars("you")));
    assert!(!contains_text(&chars("ab"), &chars("abc")));
    assert!(same_text(&chars("abc"), &chars("abc")));
    assert!(!same_text(&chars("abc"), &chars("abd")));
    assert!(!same_text(&chars("abc"), &chars("ab")));
}
