use villm::score::{FixedScore, Score};
use villm::segment::{best_pieces, best_run, compound_key};
use villm::str_map::StrMap;
use villm::trie::SpTrieNode;

fn units(n: i64) -> FixedScore {
    FixedScore { units: n }
}

fn trie(pieces: &[(&str, i64)]) -> SpTrieNode<FixedScore> {
    let mut t = SpTrieNode::new();
    for (piece, score) in pieces {
        t.insert(piece, units(*score));
    }
    t
}

fn chars(s: &str) -> Vec<char> {
    s.chars().collect()
}

fn strings(v: &[&str]) -> Vec<String> {
    v.iter().map(|s| s.to_string()).collect()
}

/// The score of the best segmentation, by trying every one.
fn best_by_force(pieces: &[(&str, i64)], text: &str) -> Option<i64> {
    if text.is_empty() {
        return Some(0);
    }
    let mut best = None;
    for (piece, score) in pieces {
        if !piece.is_empty() && text.ends_with(piece) {
            let rest = best_by_force(pieces, &text[..text.len() - piece.len()]);
            best = best.max(rest.map(|r| r + score));
        }
    }
    best
}

#[test]
fn a_trie_finds_its_pieces() {
    let t = trie(&[("a", 1), ("ab", 2), ("abệ", 3), ("a", 4), ("", 5)]);
    assert_eq!(t.get("a"), Some(units(4)));
    assert_eq!(t.get("ab"), Some(units(2)));
    assert_eq!(t.get("abệ"), Some(units(3)));
    assert_eq!(t.get(""), Some(units(5)));
    assert_eq!(t.get("b"), None);
    assert_eq!(t.get("abệx"), None);
    assert_eq!(t.matches(&chars("xabệx"), 1), vec![(2, units(4)), (3, units(2)), (4, units(3))]);
    assert_eq!(t.matches(&chars("xabệx"), 2), vec![]);
    assert_eq!(t.matches(&chars("x"), 1), vec![]);
    assert_eq!(t.copy().get("ab"), Some(units(2)));
}

#[test]
fn the_best_pieces() {
    let t = trie(&[("a", -1), ("b", -1), ("ab", -1), ("ba", -3)]);
    assert_eq!(best_pieces(&t, &chars("abab")), Some(strings(&["ab", "ab"])));
    assert_eq!(best_pieces(&t, &chars("ba")), Some(strings(&["b", "a"])));
    assert_eq!(best_pieces(&t, &chars("")), Some(strings(&[])));
    assert_eq!(best_pieces(&t, &chars("abc")), None);
}

#[test]
fn of_equals_the_longest_last_piece_wins() {
    let t = trie(&[("a", -1), ("b", -1), ("ab", -2)]);
    assert_eq!(best_pieces(&t, &chars("ab")), Some(strings(&["ab"])));
}

#[test]
fn no_segmentation_is_better() {
    let pieces = [("a", -4), ("b", -5), ("ab", -6), ("ba", -7), ("aab", -8), ("bb", -20)];
    let t = trie(&pieces);
    for n in 0..256u32 {
        let text: String = (0..8).map(|i| if n >> i & 1 == 0 { 'a' } else { 'b' }).collect();
        let parts = best_pieces(&t, &chars(&text)).unwrap();
        assert_eq!(parts.concat(), text);
        let sum: i64 = parts
            .iter()
            .map(|p| pieces.iter().find(|(q, _)| q == p).unwrap().1)
            .sum();
        assert_eq!(Some(sum), best_by_force(&pieces, &text));
    }
}

#[test]
fn a_piece_at_the_floor_reaches_nothing() {
    let t = trie(&[("a", i64::MIN)]);
    assert_eq!(best_pieces(&t, &chars("a")), None);
}

#[test]
fn scores_stay_in_range() {
    assert_eq!(units(2).add_score(units(3)), units(5));
    assert_eq!(units(i64::MAX).add_score(units(1)), units(i64::MAX));
    assert_eq!(units(i64::MIN).add_score(units(-1)), units(i64::MIN));
    assert!(units(1).is_better_than(units(0)));
    assert!(!units(1).is_better_than(units(1)));
    assert!(units(1).is_same_as(units(1)));
    assert_eq!(FixedScore::zero(), units(0));
    assert!(units(-1000).is_better_than(FixedScore::floor()));
}

#[test]
fn keys_of_compounds_are_in_lowercase() {
    assert_eq!(compound_key("Học", "SINH"), "học_sinh");
    assert_eq!(compound_key("ΟΔΟΣ", ""), "οδοσ_");
    assert_eq!(compound_key("İ", "x"), "i\u{307}_x");
}

#[test]
fn the_best_run() {
    let compounds = StrMap::from_pairs(&vec![
        ("a_b".to_string(), units(-1)),
        ("b_c".to_string(), units(-1)),
        ("c_d".to_string(), units(-9)),
    ]);
    let run = |words: &[&str]| best_run(&compounds, units(-2), &strings(words));
    assert_eq!(run(&[]), vec![]);
    assert_eq!(run(&["a"]), vec![(0, 1)]);
    assert_eq!(run(&["a", "b"]), vec![(0, 2)]);
    assert_eq!(run(&["A", "B", "c"]), vec![(0, 2), (2, 3)]);
    assert_eq!(run(&["x", "B", "C"]), vec![(0, 1), (1, 3)]);
    assert_eq!(run(&["c", "d"]), vec![(0, 1), (1, 2)]);
    assert_eq!(run(&["a", "b", "x", "b", "c"]), vec![(0, 2), (2, 3), (3, 5)]);
}

#[test]
fn of_equals_two_words_stay_apart() {
    let compounds = StrMap::from_pairs(&vec![("a_b".to_string(), units(-4))]);
    assert_eq!(best_run(&compounds, units(-2), &strings(&["a", "b"])), vec![(0, 1), (1, 2)]);
}
