use villm::config::{default_villm_type, save_file_name, ConfigFields, ViLLMConfig};
use villm::decoder::ViLLMDecoder;
use villm::lang::Lang;
use villm::model::{cased_compound, ViLLMModel};
use villm::pre_tokenizer::ViLLMPreTokenizer;
use villm::score::FixedScore;
use villm::token::Token;
use villm::words::{pretokenize, word_offsets};

fn units(n: i64) -> FixedScore {
    FixedScore { units: n }
}

fn strings(v: &[&str]) -> Vec<String> {
    v.iter().map(|s| s.to_string()).collect()
}

fn vocabulary() -> Vec<(String, u32)> {
    let mut list: Vec<(String, u32)> = [
        ("<unk>", 0),
        ("<cs_vi_en>", 1),
        ("<cs_en_vi>", 2),
        (" ", 3),
        (",", 4),
        ("xin", 5),
        ("chào", 6),
        ("hello", 7),
        ("\u{2581}mach", 8),
        ("ine", 9),
        ("học_sinh", 10),
        ("Học_Sinh", 11),
        ("HÀ", 12),
        ("Nội", 13),
        ("học_ệ", 14),
        ("\u{2581}cat", 15),
        ("NASA", 16),
        ("fooBar", 17),
    ]
    .iter()
    .map(|(t, id)| (t.to_string(), *id))
    .collect();
    for b in 0..=255u32 {
        list.push((format!("<0x{b:02X}>"), 1000 + b));
    }
    list
}

fn model_of(token2id: Vec<(String, u32)>, unk: &str) -> ViLLMModel<FixedScore> {
    ViLLMModel::new(
        token2id,
        unk.to_string(),
        strings(&["xin", "chào", "học", "sinh", "việt", "hà", "nội"]),
        strings(&["viet"]),
        vec![("học_sinh".to_string(), units(-1)), ("học_ệ".to_string(), units(-1))],
        units(-2),
        vec![
            ("\u{2581}mach".to_string(), units(-3)),
            ("ine".to_string(), units(-3)),
            ("\u{2581}cat".to_string(), units(-3)),
            ("s".to_string(), units(-4)),
            ("\u{2581}".to_string(), units(-5)),
        ],
        "<cs_vi_en>".to_string(),
        "<cs_en_vi>".to_string(),
    )
}

fn model() -> ViLLMModel<FixedScore> {
    model_of(vocabulary(), "<unk>")
}

fn spelled(v: &[(&str, u32)]) -> Vec<(String, u32)> {
    v.iter().map(|(t, id)| (t.to_string(), *id)).collect()
}

fn bytes(text: &str) -> Vec<(String, u32)> {
    text.bytes().map(|b| (format!("<0x{b:02X}>"), 1000 + b as u32)).collect()
}

fn token(id: u32, value: &str, start: usize, end: usize) -> Token {
    Token::new(id, value.to_string(), (start, end))
}

#[test]
fn lookup() {
    let m = model();
    assert_eq!(m.token_to_id("chào"), Some(6));
    assert_eq!(m.token_to_id("Chào"), None);
    assert_eq!(m.id_to_token(6), Some("chào".to_string()));
    assert_eq!(m.id_to_token(999), None);
    assert_eq!(m.get_vocab_size(), 18 + 256);
    assert_eq!(m.get_vocab(), vocabulary());
}

#[test]
fn ids_and_tokens_agree() {
    let m = model_of(spelled(&[("a", 1), ("b", 2), ("c", 2), ("a", 3)]), "<unk>");
    assert_eq!(m.get_vocab(), spelled(&[("a", 3), ("b", 2), ("c", 2)]));
    for id in 0..5 {
        if let Some(t) = m.id_to_token(id) {
            assert_eq!(m.token_to_id(&t), Some(id));
        }
    }
    assert_eq!(m.id_to_token(1), None);
    assert_eq!(m.id_to_token(2), Some("c".to_string()));
    assert_eq!(m.id_to_token(3), Some("a".to_string()));
}

#[test]
fn an_empty_text_has_no_tokens() {
    assert!(model().tokenize("").unwrap().is_empty());
}

#[test]
fn vietnamese_words() {
    assert_eq!(
        model().tokenize("xin chào").unwrap(),
        vec![token(5, "xin", 0, 3), token(3, " ", 3, 4), token(6, "chào", 4, 9)]
    );
}

#[test]
fn a_switch_is_marked() {
    let m = model();
    assert_eq!(
        m.tokenize("chào,hello").unwrap(),
        vec![
            token(6, "chào", 0, 5),
            token(4, ",", 5, 6),
            token(1, "<cs_vi_en>", 6, 11),
            token(7, "hello", 6, 11),
        ]
    );
    assert_eq!(
        m.tokenize("hello,chào").unwrap(),
        vec![
            token(7, "hello", 0, 5),
            token(4, ",", 5, 6),
            token(2, "<cs_en_vi>", 6, 11),
            token(6, "chào", 6, 11),
        ]
    );
}

#[test]
fn white_space_and_unknown_markers_leave_a_switch_unmarked() {
    let ids = |tokens: Vec<Token>| tokens.iter().map(|t| t.id).collect::<Vec<u32>>();
    assert_eq!(ids(model().tokenize("chào hello").unwrap()), vec![6, 3, 7]);
    let m = model_of(spelled(&[("<unk>", 0), ("chào", 6), (",", 4), ("hello", 7)]), "<unk>");
    assert_eq!(ids(m.tokenize("chào,hello,chào").unwrap()), vec![6, 4, 7, 4, 6]);
}

#[test]
fn markers_by_language() {
    let m = model();
    let marked = |prev: Option<Lang>, curr: Lang| {
        let mut out = vec![];
        m.maybe_add_cs(&mut out, prev, curr, (3, 4));
        out
    };
    assert_eq!(marked(Some(Lang::Vi), Lang::En), vec![token(1, "<cs_vi_en>", 3, 4)]);
    assert_eq!(marked(Some(Lang::En), Lang::Vi), vec![token(2, "<cs_en_vi>", 3, 4)]);
    assert!(marked(None, Lang::Vi).is_empty());
    assert!(marked(Some(Lang::Vi), Lang::Vi).is_empty());
    assert!(marked(Some(Lang::Code), Lang::Vi).is_empty());
    assert!(marked(Some(Lang::Vi), Lang::Num).is_empty());
}

#[test]
fn english_words() {
    let m = model();
    assert_eq!(m.tokenize_en_word("hello"), spelled(&[("hello", 7)]));
    assert_eq!(m.tokenize_en_word("NASA"), spelled(&[("NASA", 16)]));
    assert_eq!(m.tokenize_en_word("machine"), spelled(&[("\u{2581}mach", 8), ("ine", 9)]));
    assert_eq!(m.tokenize_en_word("cat"), spelled(&[("\u{2581}cat", 15)]));
    assert_eq!(m.tokenize_en_word("cats"), spelled(&[("\u{2581}cat", 15), ("s", 0)]));
    assert_eq!(m.tokenize_en_word("Zed"), bytes("Zed"));
    assert_eq!(m.tokenize_en_word("zzz"), bytes("zzz"));
    assert_eq!(m.tokenize_en_word("hello!"), bytes("hello!"));
    assert_eq!(m.tokenize_en_word("Hello"), bytes("Hello"));
}

#[test]
fn pieces() {
    let m = model();
    assert_eq!(m.tokenize_sp("cat"), spelled(&[("\u{2581}cat", 15)]));
    assert_eq!(m.tokenize_sp("ine"), spelled(&[("\u{2581}", 0), ("ine", 9)]));
    assert_eq!(m.tokenize_sp("zzz"), spelled(&[("<unk>", 0)]));
    assert_eq!(m.tokenize_sp(""), spelled(&[("\u{2581}", 0)]));
}

#[test]
fn words_of_other_kinds() {
    let m = model();
    assert_eq!(m.tokenize_word(",", Lang::Punct), spelled(&[(",", 4)]));
    assert_eq!(m.tokenize_word("!", Lang::Punct), bytes("!"));
    assert_eq!(m.tokenize_word("42", Lang::Num), bytes("42"));
    assert_eq!(m.tokenize_word("fooBar", Lang::Code), spelled(&[("fooBar", 17)]));
    assert_eq!(m.tokenize_word("camelCase", Lang::Code), bytes("camelCase"));
    assert_eq!(m.tokenize_word("machine", Lang::En), spelled(&[("\u{2581}mach", 8), ("ine", 9)]));
}

#[test]
fn code_of_unknown_tokens_alone_becomes_bytes() {
    let m = model_of(spelled(&[("<0x41>", 3)]), "<0x41>");
    assert_eq!(m.tokenize_word("A", Lang::Code), spelled(&[("<0x41>", 3)]));
    assert_eq!(m.tokenize_word("AB", Lang::Code), spelled(&[("<0x41>", 3), ("<0x42>", 3)]));
}

#[test]
fn unknown_ids() {
    let m = model_of(spelled(&[("x", 7)]), "<unk>");
    assert_eq!(m.byte_fallback("é"), spelled(&[("<0xC3>", 1), ("<0xA9>", 1)]));
    let m = model_of(spelled(&[("<unk>", 9), ("<0xC3>", 4)]), "<unk>");
    assert_eq!(m.byte_fallback("é"), spelled(&[("<0xC3>", 4), ("<0xA9>", 9)]));
    assert!(m.byte_fallback("").is_empty());
}

#[test]
fn vietnamese_words_that_stand_alone() {
    let m = model();
    assert_eq!(m.tokenize_vi_word("chào"), spelled(&[("chào", 6)]));
    assert_eq!(m.tokenize_vi_word("CHÀO"), spelled(&[("CHÀO", 6)]));
    assert_eq!(m.tokenize_vi_word("chào!"), spelled(&[("chào!", 6)]));
    assert_eq!(m.tokenize_vi_word("Chào)."), spelled(&[("Chào).", 6)]));
    assert_eq!(m.tokenize_vi_word("xinchào"), spelled(&[("xin", 5), ("chào", 6)]));
    assert_eq!(m.tokenize_vi_word("việt"), bytes("việt"));
    assert_eq!(m.tokenize_vi_word("!"), bytes("!"));
}

#[test]
fn splits() {
    let m = model();
    assert_eq!(m.try_split_compound("XinChào"), spelled(&[("Xin", 5), ("Chào", 6)]));
    assert!(m.try_split_compound("xinviệt").is_empty());
    assert!(m.try_split_compound("xin").is_empty());
    assert!(m.try_split_compound("").is_empty());
}

#[test]
fn the_case_of_compounds() {
    let orig = |v: &[&str]| strings(v);
    assert_eq!(cased_compound("học_sinh", &orig(&["Học", "sinh"])), "Học_sinh");
    assert_eq!(cased_compound("học_sinh", &orig(&["HỌC", "Sinh"])), "HỌC_Sinh");
    assert_eq!(cased_compound("a_b_c", &orig(&["A"])), "A_b_c");
    assert_eq!(cased_compound("a_b", &orig(&["", "x"])), "A_b");
    assert_eq!(cased_compound("đi_xa", &orig(&["Đi", "xa"])), "Đi_xa");
}

#[test]
fn parts_of_runs() {
    let m = model();
    let part = |s: &str, orig: &[&str]| m.tokenize_part(s, &strings(orig));
    assert_eq!(part("học_sinh", &["học", "sinh"]), spelled(&[("học_sinh", 10)]));
    assert_eq!(part("học_sinh", &["Học", "Sinh"]), spelled(&[("Học_Sinh", 11)]));
    assert_eq!(part("học_sinh", &["HỌC", "SINH"]), spelled(&[("học_sinh", 10)]));
    assert_eq!(part("xin_zz", &["xin", "zz"]), [spelled(&[("xin", 5)]), bytes("zz")].concat());
    assert_eq!(part("hà", &["HÀ"]), spelled(&[("HÀ", 12)]));
    assert_eq!(part("hà", &["Hà"]), spelled(&[("HÀ", 12)]));
    assert_eq!(part("nội", &["Nội"]), spelled(&[("Nội", 13)]));
    assert_eq!(part("chào", &["Chào"]), spelled(&[("chào", 6)]));
    assert_eq!(part("chào", &["chào!"]), spelled(&[("chào!", 6)]));
    assert_eq!(part("nội", &["nội"]), bytes("nội"));
    assert_eq!(part("việt", &["VIỆT"]), bytes("việt"));
}

#[test]
fn a_run_forms_compounds() {
    let m = model();
    let mut out = vec![token(0, "<unk>", 0, 0)];
    m.tokenize_vi_run(
        &strings(&["học", "sinh", "chào"]),
        &strings(&["Học", "Sinh", "chào"]),
        &vec![(0, 5), (6, 10), (11, 16)],
        &mut out,
    );
    assert_eq!(
        out,
        vec![token(0, "<unk>", 0, 0), token(11, "Học_Sinh", 0, 10), token(6, "chào", 11, 16)]
    );
    m.tokenize_vi_run(&vec![], &vec![], &vec![], &mut out);
    assert_eq!(out.len(), 3);
    m.tokenize_vi_run(
        &strings(&["chào"]),
        &strings(&["chào", "xin"]),
        &vec![(0, 5), (6, 9), (10, 11)],
        &mut out,
    );
    assert_eq!(out.len(), 4);
    assert_eq!(out[3], token(6, "chào", 0, 5));
}

#[test]
fn neighbours_in_a_text_make_one_run() {
    assert_eq!(model().tokenize("học(ệ").unwrap(), vec![token(14, "học_ệ", 0, 9)]);
}

#[test]
fn other_words_in_a_text() {
    let placed = |v: Vec<(String, u32)>, start: usize, end: usize| -> Vec<Token> {
        v.into_iter().map(|(t, id)| Token::new(id, t, (start, end))).collect()
    };
    assert_eq!(
        model().tokenize("Zed 42 machine!").unwrap(),
        [
            placed(bytes("Zed"), 0, 3),
            placed(spelled(&[(" ", 3)]), 3, 4),
            placed(bytes("42"), 4, 6),
            placed(spelled(&[(" ", 3)]), 6, 7),
            placed(spelled(&[("\u{2581}mach", 8), ("ine", 9)]), 7, 14),
            placed(bytes("!"), 14, 15),
        ]
        .concat()
    );
}

const TEXTS: [&str; 7] = [
    "",
    "Xin chào, thế giới! hello machine",
    "camelCase(x) -> 3.14\t%",
    "học(ệ HỌC sinh",
    "日本語 NASA \u{1F600}",
    "hello,chào,hello",
    "(Ế) viet_ __VIET__ é_ế",
];

#[test]
fn tokens_are_known_ordered_and_on_words() {
    let m = model();
    let ids: Vec<u32> = vocabulary().iter().map(|(_, id)| *id).collect();
    for text in TEXTS {
        let places = word_offsets(text, &pretokenize(text));
        let tokens = m.tokenize(text).unwrap();
        for t in &tokens {
            assert!(ids.contains(&t.id));
            assert!(t.offsets.0 < t.offsets.1 && t.offsets.1 <= text.len());
            assert!(places.iter().any(|p| p.0 == t.offsets.0));
            assert!(places.iter().any(|p| p.1 == t.offsets.1));
        }
        for pair in tokens.windows(2) {
            assert!(pair[0].offsets.0 <= pair[1].offsets.0);
            assert!(pair[0].offsets.1 <= pair[1].offsets.1);
        }
    }
}

#[test]
fn no_word_is_dropped() {
    let m = model();
    for text in TEXTS {
        let tokens = m.tokenize(text).unwrap();
        for p in word_offsets(text, &pretokenize(text)) {
            assert!(tokens.iter().any(|t| t.offsets.0 <= p.0 && p.1 <= t.offsets.1));
        }
    }
}

#[test]
fn kept_words_come_back() {
    let m = model();
    let decoder = ViLLMDecoder::new("<cs_vi_en>".into(), "<cs_en_vi>".into());
    for text in ["", "camelCase(x) -> 3.14\t%", "hello, NASA \u{1F600} Zed 42!", "日本語"] {
        let values = m.tokenize(text).unwrap().into_iter().map(|t| t.value).collect();
        assert_eq!(decoder.decode_chain(values).unwrap().concat(), text);
    }
}

#[test]
fn words_are_spelled_out() {
    let m = model();
    let decoder = ViLLMDecoder::new("<cs_vi_en>".into(), "<cs_en_vi>".into());
    let spell = |word: &str, lang: Lang| {
        let values = m.tokenize_word(word, lang).into_iter().map(|t| t.0).collect();
        decoder.decode_chain(values).unwrap().concat()
    };
    assert_eq!(spell("machine", Lang::En), "\u{2581}machine");
    assert_eq!(spell("Zed", Lang::En), "Zed");
    assert_eq!(spell("3.14", Lang::Num), "3.14");
    assert_eq!(spell("fooBar", Lang::Code), "fooBar");
}

#[test]
fn pieces_come_back_as_the_word() {
    let m = model();
    let decoder = ViLLMDecoder::new("<cs_vi_en>".into(), "<cs_en_vi>".into());
    for word in ["machine", "cat", "cats", "ine", "catsines", "s"] {
        let values = m.tokenize_sp(word).into_iter().map(|t| t.0).collect();
        assert_eq!(decoder.decode(values).unwrap(), word);
    }
}

#[test]
fn a_clone_is_equal() {
    let m = model();
    let copy = m.clone();
    assert!(copy == m);
    assert_eq!(copy.tokenize("học(ệ hello").unwrap(), m.tokenize("học(ệ hello").unwrap());
}

#[test]
fn models_differ_by_their_vocabulary() {
    let m = model();
    assert!(m != model_of(vocabulary(), "<cs_vi_en>"));
    let mut list = vocabulary();
    list.pop();
    assert!(m != model_of(list, "<unk>"));
    let mut list = vocabulary();
    list[5].1 = 77;
    assert!(m != model_of(list, "<unk>"));
    let mut list = vocabulary();
    list.reverse();
    assert!(m == model_of(list, "<unk>"));
    let with = |score: i64, forms: &[&str]| {
        let mut cfg = model().to_config();
        cfg.vi_compounds = vec![("a_b".to_string(), units(score))];
        cfg.base_forms = strings(forms);
        ViLLMModel::from_config(cfg)
    };
    assert!(with(1, &["x", "y"]) == with(1, &["y", "x", "y"]));
    assert!(with(1, &["x"]) != with(2, &["x"]));
    assert!(with(1, &["x"]) != with(1, &["y"]));
}

#[test]
fn the_saved_configuration() {
    let m = model();
    let cfg = m.to_config();
    assert_eq!(cfg.type_, "ViLLM");
    assert_eq!(cfg.token2id, vocabulary());
    assert_eq!(cfg.unk_token, "<unk>");
    assert_eq!(cfg.base_forms, strings(&["viet"]));
    assert_eq!(cfg.compound_unigram_score, units(-2));
    assert_eq!(
        cfg.sp_pieces,
        vec![
            ("ine".to_string(), units(-3)),
            ("\u{2581}cat".to_string(), units(-3)),
            ("\u{2581}mach".to_string(), units(-3)),
        ]
    );
    assert_eq!(cfg.cs_vi_en, "<cs_vi_en>");
    assert_eq!(cfg.cs_en_vi, "<cs_en_vi>");
    assert!(ViLLMModel::from_config(cfg) == m);
}

fn fields(c: ViLLMConfig<FixedScore>) -> ConfigFields<FixedScore> {
    ConfigFields {
        type_: Some(c.type_),
        token2id: Some(c.token2id),
        unk_token: Some(c.unk_token),
        vi_syllables: Some(c.vi_syllables),
        base_forms: Some(c.base_forms),
        vi_compounds: Some(c.vi_compounds),
        compound_unigram_score: Some(c.compound_unigram_score),
        sp_pieces: Some(c.sp_pieces),
        cs_vi_en: Some(c.cs_vi_en),
        cs_en_vi: Some(c.cs_en_vi),
    }
}

#[test]
fn a_model_is_read_back_from_its_fields() {
    let m = model();
    assert!(ViLLMModel::from_fields(fields(m.to_config())).unwrap() == m);
    for kind in [None, Some("BPE".to_string())] {
        let mut f = fields(m.to_config());
        f.type_ = kind;
        assert!(ViLLMModel::from_fields(f).unwrap() == m);
    }
    let mut f = fields(m.to_config());
    f.type_ = None;
    assert_eq!(f.complete().unwrap().type_, "ViLLM");
}

#[test]
fn a_missing_field_is_an_error() {
    let names = [
        "token2id",
        "unk_token",
        "vi_syllables",
        "base_forms",
        "vi_compounds",
        "compound_unigram_score",
        "sp_pieces",
        "cs_vi_en",
        "cs_en_vi",
    ];
    for (i, name) in names.iter().enumerate() {
        let mut f = fields(model().to_config());
        match i {
            0 => f.token2id = None,
            1 => f.unk_token = None,
            2 => f.vi_syllables = None,
            3 => f.base_forms = None,
            4 => f.vi_compounds = None,
            5 => f.compound_unigram_score = None,
            6 => f.sp_pieces = None,
            7 => f.cs_vi_en = None,
            _ => f.cs_en_vi = None,
        }
        let expected = format!("missing field `{name}`");
        match ViLLMModel::from_fields(f) {
            Ok(_) => panic!("{name}"),
            Err(e) => assert_eq!(e.message, expected),
        }
    }
}

#[test]
fn the_kind_of_a_configuration_does_not_count() {
    let m = model();
    let mut cfg = m.to_config();
    cfg.type_ = "BPE".to_string();
    cfg.token2id.reverse();
    let again = ViLLMModel::from_config(cfg);
    assert!(again == m);
    assert_eq!(again.to_config().type_, "ViLLM");
}

#[test]
fn a_saved_model_makes_the_same_tokens() {
    let mut cfg = model().to_config();
    cfg.sp_pieces.retain(|(p, _)| p != "s" && p != "\u{2581}");
    let m = ViLLMModel::from_config(cfg);
    let again = ViLLMModel::from_config(m.to_config());
    for text in TEXTS {
        assert_eq!(again.tokenize(text).unwrap(), m.tokenize(text).unwrap());
    }
}

#[test]
fn the_empty_piece_is_saved_with_the_score_of_the_null_character() {
    let piece = |pieces: Vec<(String, FixedScore)>| {
        let mut cfg = model_of(spelled(&[("", 1), ("<unk>", 0)]), "<unk>").to_config();
        cfg.sp_pieces = pieces;
        ViLLMModel::from_config(cfg).to_config().sp_pieces
    };
    let empty = ("".to_string(), units(5));
    assert_eq!(piece(vec![empty.clone()]), vec![("".to_string(), units(0))]);
    let null = ("\0".to_string(), units(7));
    assert_eq!(piece(vec![empty, null]), vec![("".to_string(), units(7))]);
}

#[test]
fn names() {
    assert_eq!(default_villm_type(), "ViLLM");
    assert_eq!(save_file_name(None), "tokenizer.json");
    assert_eq!(save_file_name(Some("vi")), "vi-tokenizer.json");
}

#[test]
fn the_pre_tokenizer_leaves_a_text_whole() {
    let mut text = "xin chào".to_string();
    ViLLMPreTokenizer.pre_tokenize(&mut text).unwrap();
    assert_eq!(text, "xin chào");
    assert_eq!(ViLLMPreTokenizer, ViLLMPreTokenizer::default());
}
