use villm::words::{fuse_operators, is_operator, pretokenize, word_offsets};

fn strings(v: &[&str]) -> Vec<String> {
    v.iter().map(|s| s.to_string()).collect()
}

const TEXTS: [&str; 8] = [
    "",
    "Xin chào, thế giới!",
    "a->b  != c\t\n",
    "x..=y::z**2//3",
    "e\u{301}le\u{300}ve -\u{301}a",
    "\u{301}a",
    "日本語abc 123",
    "  (ế) é-ế ",
];

#[test]
fn words_by_class() {
    assert_eq!(pretokenize("Xin chào, 42!"), strings(&["Xin", " ", "chào", ",", " ", "42", "!"]));
    assert_eq!(pretokenize("abc123"), strings(&["abc123"]));
    assert_eq!(pretokenize("a  b"), strings(&["a", " ", " ", "b"]));
    assert_eq!(pretokenize("a->b"), strings(&["a", "->", "b"]));
    assert!(pretokenize("").is_empty());
}

#[test]
fn combining_marks_stay_with_what_they_follow() {
    assert_eq!(pretokenize("e\u{301}a -\u{301}"), strings(&["e\u{301}a", " ", "-\u{301}"]));
    assert_eq!(pretokenize("\u{301}a"), strings(&["\u{301}", "a"]));
    assert_eq!(pretokenize(" \u{301}"), strings(&[" ", "\u{301}"]));
    assert_eq!(pretokenize("é-ế"), strings(&["é", "-ế"]));
    assert_eq!(pretokenize("ế-é"), strings(&["ế", "-", "é"]));
}

#[test]
fn operators_are_fused_from_the_left() {
    let mut words = strings(&["-", ">", "x", ".", ".", ".", "*", "*", "="]);
    fuse_operators(&mut words);
    assert_eq!(words, strings(&["->", "x", "..", ".", "**", "="]));
    let mut words = strings(&["a", "b"]);
    fuse_operators(&mut words);
    assert_eq!(words, strings(&["a", "b"]));
    let mut words = strings(&["", "->", "", ">"]);
    fuse_operators(&mut words);
    assert_eq!(words, strings(&["->", "", ">"]));
}

#[test]
fn the_operators() {
    let operators = [
        "->", "=>", "!=", "+=", "-=", "*=", "/=", "%=", ">=", "<=", "::", "..", "**", "//",
    ];
    let signs: Vec<char> = "-=!+*/%><:.&|a ".chars().collect();
    for a in &signs {
        for b in &signs {
            let pair = format!("{a}{b}");
            assert_eq!(is_operator(&pair), operators.contains(&pair.as_str()), "{pair}");
        }
    }
    assert!(!is_operator("="));
    assert!(!is_operator("=>="));
}

#[test]
fn words_make_the_text_again() {
    for text in TEXTS {
        let words = pretokenize(text);
        assert_eq!(words.concat(), text);
        assert!(words.iter().all(|w| !w.is_empty()));
    }
}

#[test]
fn white_space_is_alone_and_operators_are_whole() {
    for text in TEXTS {
        let words = pretokenize(text);
        for w in &words {
            assert!(!w.chars().any(char::is_whitespace) || w.chars().count() == 1);
        }
        for pair in words.windows(2) {
            let a = pair[0].chars().last().unwrap();
            let b = pair[1].chars().next().unwrap();
            assert!(!is_operator(&format!("{a}{b}")));
        }
    }
}

#[test]
fn places_hold_the_words_and_tile_the_text() {
    for text in TEXTS {
        let words = pretokenize(text);
        let places = word_offsets(text, &words);
        let mut at = 0;
        for (word, (start, end)) in words.iter().zip(&places) {
            assert_eq!(*start, at);
            assert_eq!(&text[*start..*end], word);
            at = *end;
        }
        assert_eq!(at, text.len());
    }
}
