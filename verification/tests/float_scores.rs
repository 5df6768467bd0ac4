use villm::model::ViLLMModel;
use villm::score::Score;

/// A log-probability in floating point.
#[derive(Clone, Copy, Debug, PartialEq)]
struct Log(f64);

impl Score for Log {
    fn zero_spec() -> Self {
        Self::zero()
    }

    fn floor_spec() -> Self {
        Self::floor()
    }

    fn plus(self, other: Self) -> Self {
        self.add_score(other)
    }

    fn exceeds(self, other: Self) -> bool {
        self.is_better_than(other)
    }

    fn same(self, other: Self) -> bool {
        self.is_same_as(other)
    }

    fn zero() -> Self {
        Log(0.0)
    }

    fn floor() -> Self {
        Log(f64::NEG_INFINITY)
    }

    fn add_score(self, other: Self) -> Self {
        Log(self.0 + other.0)
    }

    fn is_better_than(self, other: Self) -> bool {
        self.0 > other.0
    }

    fn is_same_as(self, other: Self) -> bool {
        self.0 == other.0
    }
}

fn model(unigram: f64) -> ViLLMModel<Log> {
    ViLLMModel::new(
        vec![
            ("<unk>".into(), 0),
            ("\u{2581}un".into(), 1),
            ("\u{2581}u".into(), 2),
            ("do".into(), 3),
            ("ndo".into(), 4),
            ("học_ệ".into(), 5),
            ("học".into(), 6),
            ("ệ".into(), 7),
        ],
        "<unk>".into(),
        vec![],
        vec![],
        vec![("học_ệ".into(), Log(-3.5))],
        Log(unigram),
        vec![
            ("\u{2581}un".into(), Log(-1.25)),
            ("\u{2581}u".into(), Log(-1.0)),
            ("do".into(), Log(-2.0)),
            ("ndo".into(), Log(-2.5)),
        ],
        "<cs_vi_en>".into(),
        "<cs_en_vi>".into(),
    )
}

#[test]
fn the_best_pieces_by_log_probability() {
    let pieces = model(-1.0).tokenize_sp("undo");
    assert_eq!(pieces, vec![("\u{2581}un".to_string(), 1), ("do".to_string(), 3)]);
    assert_eq!(model(-1.0).tokenize_sp("x"), vec![("<unk>".to_string(), 0)]);
}

#[test]
fn compounds_by_log_probability() {
    let values = |unigram: f64| -> Vec<String> {
        let tokens = model(unigram).tokenize("học(ệ").unwrap();
        tokens.into_iter().map(|t| t.value).collect()
    };
    assert_eq!(values(-2.0), vec!["học_ệ"]);
    assert_eq!(values(-1.5), vec!["học", "(ệ"]);
}

#[test]
fn a_model_with_a_score_that_is_no_number_differs_from_itself() {
    let m = model(f64::NAN);
    assert!(m != m.clone());
    assert!(model(-1.0) == model(-1.0));
    assert!(model(-1.0) != model(-2.0));
}
