use villm::sort::{is_before, sorted};
use villm::str_map::StrMap;
use villm::text::{
    byte_len, chars_of, has_char, join_with, joined, parse_byte_token, same_text, split_on, text_of,
    to_byte_token, to_title, trimmed, trimmed_end, trimmed_start, Trim,
};

fn strings(v: &[&str]) -> Vec<String> {
    v.iter().map(|s| s.to_string()).collect()
}

#[test]
fn byte_tokens_round_trip() {
    assert_eq!(to_byte_token(0), "<0x00>");
    assert_eq!(to_byte_token(0x0a), "<0x0A>");
    assert_eq!(to_byte_token(0xfe), "<0xFE>");
    for b in 0..=255u8 {
        assert_eq!(to_byte_token(b), format!("<0x{b:02X}>"));
        assert_eq!(parse_byte_token(&to_byte_token(b)), Some(b));
    }
}

#[test]
fn byte_tokens_are_read_as_numerals() {
    let pairs =
        [('f', 'F'), ('+', 'a'), ('-', '1'), ('1', '+'), ('+', '+'), ('g', '0'), ('é', '0')];
    for (a, b) in pairs {
        let token = format!("<0x{a}{b}>");
        let expected = u8::from_str_radix(&format!("{a}{b}"), 16).ok();
        assert_eq!(parse_byte_token(&token), expected, "{token}");
    }
    for token in ["", "<0x>", "<0x4>", "<0x414>", "<0X41>", "(0x41>", "<0x41)", "<0xé>"] {
        assert_eq!(parse_byte_token(token), None, "{token}");
    }
}

#[test]
fn trims() {
    assert_eq!(trimmed_start(" \t\u{3000}a ", Trim::Space), "a ");
    assert_eq!(trimmed_end("(a).,!?;:()[]{}\"'", Trim::Punct), "(a");
    assert_eq!(trimmed_end("(a]).", Trim::Closing), "(a]");
    assert_eq!(trimmed("\"(chào)!\"", Trim::Punct), "chào");
    assert_eq!(trimmed("...", Trim::Punct), "");
    assert_eq!(trimmed("-a-", Trim::Punct), "-a-");
}

#[test]
fn fields_and_joins() {
    assert_eq!(split_on("a_b__c", '_'), strings(&["a", "b", "", "c"]));
    assert_eq!(split_on("", '_'), strings(&[""]));
    assert_eq!(join_with(&strings(&["a", "", "b"]), '_'), "a__b");
    assert_eq!(join_with(&Vec::new(), '_'), "");
    assert_eq!(joined("a", "b"), "ab");
}

#[test]
fn titles() {
    assert_eq!(to_title("học"), "Học");
    assert_eq!(to_title("đi"), "Đi");
    assert_eq!(to_title("ßa"), "SSa");
    assert_eq!(to_title(""), "");
}

#[test]
fn parts_of_texts() {
    assert_eq!(chars_of("aệb"), vec!['a', 'ệ', 'b']);
    assert_eq!(text_of(&vec!['a', 'ệ', 'b'], 1, 3), "ệb");
    assert_eq!(byte_len("aệ"), 4);
    assert!(has_char("a_b", '_'));
    assert!(!has_char("ab", '_'));
    assert!(same_text("ab", "ab"));
    assert!(!same_text("ab", "abc"));
}

#[test]
fn texts_are_sorted_by_code_points() {
    let list = strings(&["b", "a", "ab", "", "é", "z", "B", "\u{10000}", "\u{FFFD}"]);
    let mut expected = list.clone();
    expected.sort();
    assert_eq!(sorted(&list), expected);
    assert!(is_before("", "a"));
    assert!(is_before("a", "ab"));
    assert!(!is_before("b", "ab"));
    assert!(!is_before("a", "a"));
}

#[test]
fn a_map_keeps_the_order_of_its_keys() {
    let list = vec![("b".to_string(), 1u32), ("a".to_string(), 2), ("b".to_string(), 3)];
    let map = StrMap::from_pairs(&list);
    assert_eq!(map.len(), 2);
    assert_eq!(map.get("b"), Some(3));
    assert_eq!(map.get("c"), None);
    assert!(map.contains("a"));
    assert_eq!(map.to_pairs(), vec![("b".to_string(), 3), ("a".to_string(), 2)]);
    assert_eq!(map.copy().get("a"), Some(2));
}
