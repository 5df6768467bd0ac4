use villm::chars::{
    build_vi_chars, char_to_lower, char_to_upper, is_alphabetic_char, is_alphanumeric_char,
    is_combining_mark, is_lowercase_char, is_uppercase_char, is_vi_letter, is_white_space, to_lower,
    to_upper, VI_LETTERS,
};

fn all_chars() -> impl Iterator<Item = char> {
    '\0'..=char::MAX
}

#[test]
fn classes_agree_with_std() {
    for c in all_chars() {
        assert_eq!(is_alphabetic_char(c), c.is_alphabetic(), "{c:?}");
        assert_eq!(is_alphanumeric_char(c), c.is_alphanumeric(), "{c:?}");
        assert_eq!(is_uppercase_char(c), c.is_uppercase(), "{c:?}");
        assert_eq!(is_lowercase_char(c), c.is_lowercase(), "{c:?}");
    }
}

#[test]
fn white_space_agrees_with_std() {
    for c in all_chars() {
        assert_eq!(is_white_space(c), c.is_whitespace(), "{c:?}");
    }
}

#[test]
fn case_of_characters_agrees_with_std() {
    for c in all_chars() {
        assert_eq!(char_to_lower(c), c.to_lowercase().to_string());
        assert_eq!(char_to_upper(c), c.to_uppercase().to_string());
    }
}

#[test]
fn case_of_texts() {
    assert_eq!(to_lower("Hello, WORLD 42"), "hello, world 42");
    assert_eq!(to_upper("Hello, world 42"), "HELLO, WORLD 42");
    assert_eq!(to_lower("VIỆT Nam"), "việt nam");
    assert_eq!(to_upper("việt nam"), "VIỆT NAM");
    assert_eq!(to_upper("straße"), "STRASSE");
    assert_eq!(to_lower("ΟΔΥΣΣΕΥΣ"), "οδυσσευς");
    assert_eq!(to_lower(""), "");
}

#[test]
fn lowercase_leaves_more_than_underscores() {
    for c in all_chars() {
        if c != '_' {
            let lower = to_lower(&format!("_{c}"));
            assert!(lower.chars().any(|d| d != '_'), "{c:?}");
        }
    }
    assert_eq!(to_lower("___"), "___");
}

#[test]
fn vietnamese_letters() {
    let set = build_vi_chars();
    assert_eq!(set.len(), 134);
    assert_eq!(VI_LETTERS.chars().count(), 134);
    for c in VI_LETTERS.chars() {
        assert!(is_vi_letter(&set, c));
        assert!(c.is_alphabetic());
    }
    for c in "abcdxyzABCXYZ0. ñüç".chars() {
        assert!(!is_vi_letter(&set, c));
    }
}

#[test]
fn combining_marks() {
    for c in ['\u{300}', '\u{36F}', '\u{483}', '\u{670}', '\u{6D6}', '\u{FBC}', '\u{FC6}'] {
        assert!(is_combining_mark(c), "{c:?}");
    }
    for c in ['a', '-', '\u{2FF}', '\u{370}', '\u{6D7}', '\u{900}', '\u{FBD}', '\u{FC5}'] {
        assert!(!is_combining_mark(c), "{c:?}");
    }
    for c in '\u{FC6}'..=char::MAX {
        assert!(is_combining_mark(c));
    }
}
