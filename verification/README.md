# villm

A tokenizer of mixed Vietnamese and English text, and its decoder, verified with Verus.

- `src/` is the library. `model` holds the tokenizer, `decoder` the way back from tokens to text.
  `lexicon` and `config` say what a model does and what it is made of; `words`, `lang`, `segment`
  and `trie` are the steps of tokenization; `chars`, `text`, `str_map` and `sort` are what those
  rest on. Scores are a trait, in `score`, so that a model works with any kind of number.
- `src/laws/` proves what holds of all texts and vocabularies: that the words of a text tile it,
  that segmentations are the best ones (for scores that compare as numbers do, such as
  log-probabilities that are numbers and not positive), that tokens are in order and none of the
  words is dropped, that bytes and whole texts come back from the decoder, and what a saved model
  keeps.
- `tests/` runs the library on concrete values.
- `app/` adds log-probabilities in floating point, serde support, and saving to a file.
