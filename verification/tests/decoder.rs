use villm::decoder::ViLLMDecoder;

fn strings(v: &[&str]) -> Vec<String> {
    v.iter().map(|s| s.to_string()).collect()
}

fn decoder() -> ViLLMDecoder {
    ViLLMDecoder::new("<cs_vi_en>".into(), "<cs_en_vi>".into())
}

fn chain(tokens: &[&str]) -> Vec<String> {
    decoder().decode_chain(strings(tokens)).unwrap()
}

fn decode(tokens: &[&str]) -> String {
    decoder().decode(strings(tokens)).unwrap()
}

#[test]
fn test_byte_decode() {
    let decoder = ViLLMDecoder::new("<cs_vi_en>".into(), "<cs_en_vi>".into());

    // Single byte token → character
    let res = decoder.decode_chain(vec!["<0x61>".into()]).unwrap();
    assert_eq!(res.join(""), "a");

    // Multi-byte UTF-8 sequence (叫 = E5 8F AB)
    let res = decoder
        .decode_chain(vec!["<0xE5>".into(), "<0x8F>".into(), "<0xAB>".into()])
        .unwrap();
    assert_eq!(res.join(""), "叫");

    // Mixed byte and regular tokens
    let res = decoder
        .decode_chain(vec![
            "<0xE5>".into(),
            "<0x8F>".into(),
            "<0xAB>".into(),
            "hello".into(),
        ])
        .unwrap();
    assert_eq!(res.join(""), "叫hello");

    // Code-switch markers removed in decode()
    let res = decoder
        .decode(vec!["hello".into(), "<cs_vi_en>".into(), "\u{2581}world".into()])
        .unwrap();
    assert_eq!(res, "hello world");

    // Byte fusion with adjacent token
    let res = decoder
        .decode_chain(vec!["<0xE5>".into(), "<0x8F>".into(), "<0xAB>".into(), "hello".into()])
        .unwrap();
    assert_eq!(res.join(""), "叫hello");
}

#[test]
fn test_smart_spacing_vi() {
    let decoder = ViLLMDecoder::new("<cs_vi_en>".into(), "<cs_en_vi>".into());

    // Vi tokens without ▁: each is a separate word
    let res = decoder.decode(vec!["Xin".into(), "chào".into(), "thế_giới".into()]).unwrap();
    assert_eq!(res, "Xin chào thế giới");
}

#[test]
fn test_smart_spacing_en() {
    let decoder = ViLLMDecoder::new("<cs_vi_en>".into(), "<cs_en_vi>".into());

    // EN tokens with ▁: word starts
    let res = decoder.decode(vec!["\u{2581}machine".into(), "\u{2581}learning".into()]).unwrap();
    assert_eq!(res, "machine learning");
}

#[test]
fn test_smart_spacing_en_continuation() {
    let decoder = ViLLMDecoder::new("<cs_vi_en>".into(), "<cs_en_vi>".into());

    // EN tokens with ▁ on first token, continuations without ▁ fuse together
    let res = decoder
        .decode(vec![
            "\u{2581}abc".into(),
            "X".into(),
            "Y".into(),
            "Z".into(),
            "123".into(),
        ])
        .unwrap();
    assert_eq!(res, "abcXYZ123");
}

#[test]
fn test_smart_spacing_punct() {
    let decoder = ViLLMDecoder::new("<cs_vi_en>".into(), "<cs_en_vi>".into());

    // Space before punctuation removed, but space after retained
    let res = decoder.decode(vec!["hello".into(), ",".into(), "world".into()]).unwrap();
    assert_eq!(res, "hello, world");

    // No extra space for opening brackets
    let res = decoder.decode(vec!["(".into(), "hello".into(), ")".into()]).unwrap();
    assert_eq!(res, "(hello)");

    // Normal space between words
    let res = decoder.decode(vec!["hello".into(), "world".into()]).unwrap();
    assert_eq!(res, "hello world");
}

#[test]
fn test_smart_spacing_mixed() {
    let decoder = ViLLMDecoder::new("[VI→EN]".into(), "[EN→VI]".into());

    // Mixed Vi/EN with CS markers
    let res = decoder
        .decode(vec![
            "Tôi_muốn".into(),
            "học".into(),
            "[VI→EN]".into(),
            "\u{2581}machine".into(),
            "\u{2581}learning".into(),
            "[EN→VI]".into(),
            "và".into(),
            "[VI→EN]".into(),
            "\u{2581}deep".into(),
            "\u{2581}learning".into(),
        ])
        .unwrap();
    assert_eq!(res, "Tôi muốn học machine learning và deep learning");
}

#[test]
fn nothing_decodes_to_nothing() {
    assert!(chain(&[]).is_empty());
    assert_eq!(decode(&[]), "");
    assert_eq!(decode(&["<cs_vi_en>", "<cs_en_vi>"]), "");
    assert_eq!(decode(&["", "\u{2581}"]), "");
}

#[test]
fn plain_tokens_and_markers_stay_as_they_are() {
    let tokens = ["xin", "<cs_vi_en>", "\u{2581}a_b", "<0xZZ>", "<0x1>", "<0x123>", ""];
    assert_eq!(chain(&tokens), strings(&tokens));
}

#[test]
fn bytes_in_either_case_and_with_a_sign() {
    assert_eq!(chain(&["<0xe5>", "<0x8f>", "<0xAb>"]), strings(&["叫"]));
    assert_eq!(chain(&["<0x+9>"]), strings(&["\t"]));
    assert_eq!(chain(&["<0x9+>"]), strings(&["<0x9+>"]));
    assert_eq!(chain(&["<0x->>"]), strings(&["<0x->>"]));
}

#[test]
fn bytes_round_trip_as_one_part() {
    let text = "a叫é\u{1F600}";
    let tokens: Vec<String> = text.bytes().map(|b| format!("<0x{b:02X}>")).collect();
    assert_eq!(decoder().decode_chain(tokens).unwrap(), strings(&[text]));
}

#[test]
fn bytes_join_the_next_token_or_the_last() {
    assert_eq!(chain(&["x", "<0x61>", "y"]), strings(&["x", "ay"]));
    assert_eq!(chain(&["x", "y", "<0x61>", "<0x62>"]), strings(&["x", "yab"]));
}

#[test]
fn bytes_around_a_marker_stay_out_of_it() {
    assert_eq!(chain(&["<0x61>", "<cs_vi_en>"]), strings(&["a", "<cs_vi_en>"]));
    assert_eq!(chain(&["x", "<cs_vi_en>", "<0x61>"]), strings(&["x", "<cs_vi_en>", "a"]));
    assert_eq!(chain(&["<cs_en_vi>", "<0x61>", "b"]), strings(&["<cs_en_vi>", "ab"]));
    assert_eq!(decode(&["x", "<cs_en_vi>", "<0x61>"]), "x a");
}

#[test]
fn a_text_that_only_looks_like_a_marker_takes_bytes() {
    assert_eq!(chain(&["<0x3C>", "cs_vi_en>", "<0x61>"]), strings(&["<cs_vi_en>a"]));
    assert_eq!(decode(&["<0x3C>", "cs_vi_en>", "<0x61>"]), "<cs vi en>a");
}

#[test]
fn invalid_bytes_become_replacement_characters() {
    assert_eq!(chain(&["<0xFF>"]), strings(&["\u{FFFD}"]));
    assert_eq!(chain(&["<0x61>", "<0xE5>", "<0x8F>", "b"]), strings(&["a\u{FFFD}b"]));
    assert_eq!(chain(&["<0xC3>", "<0x28>"]), strings(&["\u{FFFD}("]));
}

#[test]
fn a_marker_may_look_like_a_byte() {
    let decoder = ViLLMDecoder::new("<0x41>".into(), "<0x42>".into());
    let parts = decoder.decode_chain(strings(&["<0x41>", "<0x43>"])).unwrap();
    assert_eq!(parts, strings(&["<0x41>", "C"]));
}

#[test]
fn markers_set_the_region() {
    assert_eq!(decode(&["a", "<cs_vi_en>", "b", "c"]), "abc");
    assert_eq!(decode(&["a", "<cs_vi_en>", "b", "<cs_en_vi>", "c"]), "ab c");
    assert_eq!(decode(&["<cs_vi_en>", "a", "b"]), "ab");
}

#[test]
fn a_word_start_opens_an_english_region() {
    assert_eq!(decode(&["a", "\u{2581}b", "c", "\u{2581}d"]), "a bc d");
}

#[test]
fn a_bare_word_start_opens_a_word() {
    assert_eq!(decode(&["\u{2581}hello", "\u{2581}", "ab"]), "hello ab");
    assert_eq!(decode(&["\u{2581}hello", "\u{2581}", "a", "b"]), "hello ab");
    assert_eq!(decode(&["a", "\u{2581}", "b"]), "a b");
    assert_eq!(decode(&["\u{2581}", "a", "b"]), "ab");
    assert_eq!(decode(&["a", "\u{2581}", "\u{2581}b"]), "a b");
    assert_eq!(decode(&["a", "\u{2581}", "", "b"]), "a b");
    assert_eq!(decode(&["a", "\u{2581}", ",", "b"]), "a,b");
    assert_eq!(decode(&["a", "\u{2581}", "<cs_vi_en>", "b"]), "a b");
    assert_eq!(decode(&["a", "\u{2581}"]), "a");
}

#[test]
fn no_marks_are_left() {
    assert_eq!(decode(&["a\u{2581}b"]), "a b");
    assert_eq!(decode(&["<0x61>", "\u{2581}b"]), "a b");
    assert_eq!(decode(&["x\u{2581}y_z", "_a"]), "x y z  a");
    assert_eq!(decode(&["\u{2581}x", "\u{2581}\u{2581}y", "z\u{2581}"]), "x  yz ");
    assert_eq!(decode(&["_", "__a"]), "a");
}

#[test]
fn leading_white_space_goes() {
    assert_eq!(decode(&[" ", "\u{3000}a"]), "a");
    assert_eq!(decode(&["a", " "]), "a  ");
}

#[test]
fn punctuation_and_brackets_hug() {
    assert_eq!(
        decode(&["a", ".", ",", "!", "?", ";", ":", "%", ")", "]", "}", "\"", "'"]),
        "a.,!?;:%)]}\"'"
    );
    assert_eq!(decode(&["a", "(", "b", "[", "c", "{", "d"]), "a (b [c {d");
    assert_eq!(decode(&["a", "\u{2581},"]), "a,");
}

#[test]
fn a_clone_decodes_alike() {
    let copy = decoder().clone();
    assert_eq!(copy.markers(), ("<cs_vi_en>".to_string(), "<cs_en_vi>".to_string()));
    assert_eq!(copy.decode(strings(&["a", "<cs_vi_en>", "b"])).unwrap(), "ab");
}
