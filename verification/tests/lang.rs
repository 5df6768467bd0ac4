use villm::lang::{decide_lang, is_numeric, is_punct_token, to_listed_form, Lang, WordFacts};
use villm::model::ViLLMModel;
use villm::score::FixedScore;

fn model() -> ViLLMModel<FixedScore> {
    ViLLMModel::new(
        vec![],
        "<unk>".into(),
        vec!["xin".into(), "a".into()],
        vec!["viet".into()],
        vec![],
        FixedScore { units: 0 },
        vec![],
        "<cs_vi_en>".into(),
        "<cs_en_vi>".into(),
    )
}

#[test]
fn numbers() {
    for s in ["42", "3.14", "1,000", "1/2", "50%", "$5", "+1-2", "-"] {
        assert!(is_numeric(s), "{s}");
    }
    for s in ["", "4a", "4 ", "٤"] {
        assert!(!is_numeric(s), "{s}");
    }
}

#[test]
fn punctuation_marks() {
    for s in ["", "!", "...", "->", "! ", "\u{301}"] {
        assert!(is_punct_token(s), "{s}");
    }
    for s in [" ", "\t", "a", "!a", "٤"] {
        assert!(!is_punct_token(s), "{s}");
    }
}

#[test]
fn listed_forms() {
    assert_eq!(to_listed_form("  Xin!) "), "xin");
    assert_eq!(to_listed_form("(XIN]"), "(xin]");
    assert_eq!(to_listed_form("VIỆT."), "việt");
}

#[test]
fn languages_of_words() {
    let m = model();
    assert_eq!(m.detect_lang(""), Lang::Punct);
    assert_eq!(m.detect_lang("?!"), Lang::Punct);
    assert_eq!(m.detect_lang("+-"), Lang::Punct);
    assert_eq!(m.detect_lang("2.5"), Lang::Num);
    assert_eq!(m.detect_lang(" "), Lang::Num);
    assert_eq!(m.detect_lang("٤٢"), Lang::Num);
    assert_eq!(m.detect_lang("chào"), Lang::Vi);
    assert_eq!(m.detect_lang("xin"), Lang::Vi);
    assert_eq!(m.detect_lang("Viet!"), Lang::Vi);
    assert_eq!(m.detect_lang("a"), Lang::En);
    assert_eq!(m.detect_lang("hello"), Lang::En);
    assert_eq!(m.detect_lang("đ"), Lang::Vi);
}

#[test]
fn words_that_look_like_code() {
    let m = model();
    for s in ["camelCase", "aB", "HTTPServer", "ABc", "àbC"] {
        assert_eq!(m.detect_lang(s), Lang::Code, "{s}");
    }
    for s in ["Hello", "HELLO", "Ab", "helloWorld".to_lowercase().as_str(), "a1B"] {
        assert_ne!(m.detect_lang(s), Lang::Code, "{s}");
    }
}

#[test]
fn three_letters_in_twenty_make_a_word_vietnamese() {
    let m = model();
    let word = format!("ààà{}", "b".repeat(17));
    assert_eq!(m.detect_lang(&word), Lang::Vi);
    let word = format!("ààà{}", "b".repeat(18));
    assert_eq!(m.detect_lang(&word), Lang::En);
    let word = format!("à{}", "b".repeat(5));
    assert_eq!(m.detect_lang(&word), Lang::Vi);
    let word = format!("à{}", "b".repeat(6));
    assert_eq!(m.detect_lang(&word), Lang::En);
}

#[test]
fn the_ratio_is_that_of_floating_point() {
    for alpha in 1..400usize {
        for vi in 0..=alpha {
            let facts = WordFacts {
                punct: false,
                number: false,
                code: false,
                alpha_count: alpha,
                vi_count: vi,
                ascii: false,
                listed: false,
            };
            let expected = if (vi as f64) / (alpha as f64) >= 0.15 { Lang::Vi } else { Lang::En };
            assert_eq!(decide_lang(facts), expected);
        }
    }
}
