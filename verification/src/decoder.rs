//! From tokens back to text.
use crate::text::{
    chars_of, joined, parse_byte_token, texts, token_byte, trim_start, trimmed_start, Trim,
};
use crate::token::TokenResult;
use vstd::prelude::*;
use vstd::string::StringExecFns;
use vstd::utf8::{decode_utf8, valid_utf8};

verus! {

/// The text that `String::from_utf8_lossy` makes of bytes that are not valid UTF-8.
pub uninterp spec fn utf8_with_replacements(bytes: Seq<u8>) -> Seq<char>;

/// `String::from_utf8_lossy` decodes bytes that are valid UTF-8. What it makes of other bytes, with
/// replacement characters for the invalid ones, depends on the bytes alone.
#[verifier::external_body]
fn std_from_utf8_lossy(bytes: &Vec<u8>) -> (r: String)
    ensures
        valid_utf8(bytes@) ==> r@ == decode_utf8(bytes@),
        !valid_utf8(bytes@) ==> r@ == utf8_with_replacements(bytes@),
{
    String::from_utf8_lossy(bytes).to_string()
}

/// The text that a run of bytes stands for.
pub open spec fn bytes_text(bytes: Seq<u8>) -> Seq<char> {
    if valid_utf8(bytes) {
        decode_utf8(bytes)
    } else {
        utf8_with_replacements(bytes)
    }
}

/// The mark of a token that starts an English word.
pub const WORD_START: char = '\u{2581}';

/// The two tokens that mark a switch of language.
pub struct Markers {
    pub vi_en: Seq<char>,
    pub en_vi: Seq<char>,
}

impl Markers {
    /// Whether `token` marks a switch of language.
    pub open spec fn has(self, token: Seq<char>) -> bool {
        token == self.vi_en || token == self.en_vi
    }
}

/// The parts that tokens make so far, the bytes at their end that are not yet in a part, and
/// whether the last part is a marker token.
pub struct Chain {
    pub parts: Seq<Seq<char>>,
    pub pending: Seq<u8>,
    pub marked: bool,
}

/// What one more token adds: a byte waits; a marker stands alone, after the text of the bytes that
/// waited; any other token takes that text in front of it.
pub open spec fn chain_step(m: Markers, chain: Chain, token: Seq<char>) -> Chain {
    let text = bytes_text(chain.pending);
    if m.has(token) {
        let parts = if chain.pending.len() == 0 {
            chain.parts
        } else {
            chain.parts.push(text)
        };
        Chain { parts: parts.push(token), pending: Seq::empty(), marked: true }
    } else if token_byte(token) is Some {
        Chain {
            parts: chain.parts,
            pending: chain.pending.push(token_byte(token)->0),
            marked: chain.marked,
        }
    } else {
        let part = if chain.pending.len() == 0 {
            token
        } else {
            text + token
        };
        Chain { parts: chain.parts.push(part), pending: Seq::empty(), marked: false }
    }
}

/// What the tokens make, one after the other.
pub open spec fn chain_of(m: Markers, tokens: Seq<Seq<char>>) -> Chain
    decreases tokens.len(),
{
    if tokens.len() == 0 {
        Chain { parts: Seq::empty(), pending: Seq::empty(), marked: false }
    } else {
        chain_step(m, chain_of(m, tokens.drop_last()), tokens.last())
    }
}

/// The parts of a finished chain: the text of the bytes still waiting goes to the end of the last
/// part, or makes one of its own where there is none or where that is a marker, which stays intact.
pub open spec fn chain_end(chain: Chain) -> Seq<Seq<char>> {
    let text = bytes_text(chain.pending);
    if chain.pending.len() == 0 {
        chain.parts
    } else if chain.parts.len() == 0 || chain.marked {
        chain.parts.push(text)
    } else {
        chain.parts.drop_last().push(chain.parts.last() + text)
    }
}

/// The parts that the tokens decode to: byte tokens merged into the text around them, everything
/// else as it is.
pub open spec fn chained(m: Markers, tokens: Seq<Seq<char>>) -> Seq<Seq<char>> {
    chain_end(chain_of(m, tokens))
}

/// Punctuation that follows a word without a space.
pub open spec fn hugs_left(c: char) -> bool {
    c == '.' || c == ',' || c == '!' || c == '?' || c == ';' || c == ':' || c == '%' || c == ')'
        || c == ']' || c == '}' || c == '"' || c == '\''
}

/// A bracket that a word follows without a space.
pub open spec fn hugs_right(c: char) -> bool {
    c == '(' || c == '[' || c == '{'
}

/// `text` with the word `s` after it, and a space between the two unless punctuation forbids it.
pub open spec fn spaced(text: Seq<char>, s: Seq<char>) -> Seq<char> {
    if s.len() == 0 {
        text
    } else if hugs_left(s[0]) || hugs_right(text.last()) {
        text + s
    } else {
        text.push(' ') + s
    }
}

/// Whether a part starts an English word.
pub open spec fn starts_word(part: Seq<char>) -> bool {
    part.len() > 0 && part[0] == WORD_START
}

/// A character of a word: a space for a word-start mark and for an underscore.
pub open spec fn spaced_mark(c: char) -> char {
    if c == WORD_START || c == '_' {
        ' '
    } else {
        c
    }
}

/// A text with spaces for word-start marks and underscores.
pub open spec fn spaced_marks(s: Seq<char>) -> Seq<char> {
    s.map_values(|c: char| spaced_mark(c))
}

/// The word of a part: without the word-start mark that it may start with, and with spaces for all
/// other such marks and for underscores.
pub open spec fn cleaned(part: Seq<char>) -> Seq<char> {
    spaced_marks(
        if starts_word(part) {
            part.drop_first()
        } else {
            part
        },
    )
}

/// The text decoded so far, whether it is in an English region, and whether a word was opened of
/// which no text has come yet.
pub struct Decoded {
    pub text: Seq<char>,
    pub english: bool,
    pub opened: bool,
}

/// What one more part adds. A marker sets the region and adds nothing. A part that starts a word
/// opens an English region. In an English region a part that starts no word continues the one
/// before it; every other part is a word of its own, and so is the first text after a bare
/// word-start mark. The first text of all loses its leading white space.
pub open spec fn decode_step(m: Markers, state: Decoded, part: Seq<char>) -> Decoded {
    let opens = starts_word(part);
    let word = cleaned(part);
    if part == m.vi_en {
        Decoded { text: state.text, english: true, opened: state.opened }
    } else if part == m.en_vi {
        Decoded { text: state.text, english: false, opened: state.opened }
    } else {
        let text = if state.text.len() == 0 {
            trim_start(word, Trim::Space)
        } else if state.english && !opens && !state.opened {
            state.text + word
        } else {
            spaced(state.text, word)
        };
        Decoded {
            text,
            english: state.english || opens,
            opened: word.len() == 0 && (state.opened || opens),
        }
    }
}

/// What the parts decode to, one after the other, from a text in Vietnamese.
pub open spec fn decode_parts(m: Markers, parts: Seq<Seq<char>>) -> Decoded
    decreases parts.len(),
{
    if parts.len() == 0 {
        Decoded { text: Seq::empty(), english: false, opened: false }
    } else {
        decode_step(m, decode_parts(m, parts.drop_last()), parts.last())
    }
}

/// Decodes tokens into text.
///
/// Byte tokens (`<0xNN>`) are merged into the UTF-8 text that they spell. Markers of a language
/// switch leave no text. Spacing follows the language of the region: in Vietnamese each token is a
/// word; in English a token with a word-start mark opens a word, and any other continues it, also
/// where the mark was all of the token.
/// Word-start marks and underscores become spaces: the mark at the start of a token by the spacing
/// of the word that it opens, all others where they stand.
#[derive(Debug)]
pub struct ViLLMDecoder {
    cs_vi_en: String,
    cs_en_vi: String,
}

impl View for ViLLMDecoder {
    type V = Markers;

    closed spec fn view(&self) -> Markers {
        Markers { vi_en: self.cs_vi_en@, en_vi: self.cs_en_vi@ }
    }
}

impl Clone for ViLLMDecoder {
    fn clone(&self) -> (r: Self)
        ensures
            r@ == self@,
    {
        ViLLMDecoder { cs_vi_en: self.cs_vi_en.clone(), cs_en_vi: self.cs_en_vi.clone() }
    }
}

impl ViLLMDecoder {
    /// A decoder for the given markers of a switch to English and to Vietnamese.
    pub fn new(cs_vi_en: String, cs_en_vi: String) -> (r: Self)
        ensures
            r@ == (Markers { vi_en: cs_vi_en@, en_vi: cs_en_vi@ }),
    {
        ViLLMDecoder { cs_vi_en, cs_en_vi }
    }

    /// The markers of a switch to English and to Vietnamese.
    pub fn markers(&self) -> (r: (String, String))
        ensures
            r.0@ == self@.vi_en,
            r.1@ == self@.en_vi,
    {
        (self.cs_vi_en.clone(), self.cs_en_vi.clone())
    }

    /// Takes the bytes out of `buf` and returns the text that they stand for.
    fn flush_bytes(buf: &mut Vec<u8>) -> (r: String)
        ensures
            r@ == bytes_text(old(buf)@),
            final(buf)@ == Seq::<u8>::empty(),
    {
        let s = std_from_utf8_lossy(buf);
        buf.clear();
        s
    }

    /// Merges byte tokens into the text around them, and keeps every other token, markers and
    /// word-start marks included.
    pub fn decode_chain(&self, tokens: Vec<String>) -> (r: TokenResult<Vec<String>>)
        ensures
            r is Ok,
            texts(r->Ok_0@) == chained(self@, texts(tokens@)),
    {
        let mut out: Vec<String> = Vec::new();
        let mut byte_buf: Vec<u8> = Vec::new();
        let ghost all = texts(tokens@);
        let n: usize = tokens.len();
        let mut marked: bool = false;
        assert(texts(out@) == Seq::<Seq<char>>::empty());
        for i in 0..n
            invariant
                n == tokens@.len(),
                all == texts(tokens@),
                chain_of(self@, all.take(i as int)) == (Chain {
                    parts: texts(out@),
                    pending: byte_buf@,
                    marked,
                }),
        {
            let token = &tokens[i];
            let ghost before = texts(out@);
            assert(all.take(i + 1).drop_last() == all.take(i as int));
            assert(all.take(i + 1).last() == token@);
            if *token == self.cs_vi_en || *token == self.cs_en_vi {
                if !byte_buf.is_empty() {
                    let decoded = Self::flush_bytes(&mut byte_buf);
                    out.push(decoded);
                    assert(texts(out@) == before.push(decoded@));
                }
                let ghost mid = texts(out@);
                out.push(token.clone());
                marked = true;
                assert(texts(out@) == mid.push(token@));
                assert(byte_buf@ == Seq::<u8>::empty());
            } else {
                match parse_byte_token(token.as_str()) {
                    Some(b) => {
                        byte_buf.push(b);
                    },
                    None => {
                        marked = false;
                        if !byte_buf.is_empty() {
                            let mut decoded = Self::flush_bytes(&mut byte_buf);
                            decoded.append(token.as_str());
                            out.push(decoded);
                            assert(texts(out@) == before.push(decoded@));
                        } else {
                            out.push(token.clone());
                            assert(texts(out@) == before.push(token@));
                            assert(byte_buf@ == Seq::<u8>::empty());
                        }
                    },
                }
            }
        }
        assert(all.take(n as int) == all);
        if !byte_buf.is_empty() {
            let decoded = Self::flush_bytes(&mut byte_buf);
            let ghost before = texts(out@);
            let n_out: usize = out.len();
            if n_out == 0 || marked {
                out.push(decoded);
                assert(texts(out@) == before.push(decoded@));
            } else {
                let whole = joined(out[n_out - 1].as_str(), decoded.as_str());
                out[n_out - 1] = whole;
                assert(texts(out@) == before.drop_last().push(before.last() + decoded@));
            }
        }
        Ok(out)
    }

    /// The word of a part: without the word-start mark that it may start with, and with spaces for
    /// all other such marks and for underscores.
    fn clean(part: &str) -> (r: String)
        ensures
            r@ == cleaned(part@),
    {
        let v = chars_of(part);
        let from: usize = if v.len() > 0 && v[0] == WORD_START {
            1
        } else {
            0
        };
        let ghost word = v@.skip(from as int);
        assert(v@.skip(0) == v@);
        assert(v@.skip(1) == v@.drop_first());
        let mut out = String::new();
        for i in from..v.len()
            invariant
                from <= i <= v@.len(),
                word == v@.skip(from as int),
                out@ == spaced_marks(word).take(i - from),
        {
            let c: char = v[i];
            out.push(
                if c == WORD_START || c == '_' {
                    ' '
                } else {
                    c
                },
            );
            assert(word[i - from] == c);
        }
        assert(spaced_marks(word).take(v@.len() - from) == spaced_marks(word));
        out
    }

    /// Appends `s` to `result`, with a space between the two unless punctuation forbids it.
    fn smart_append(result: &mut String, s: &str)
        requires
            old(result)@.len() > 0 || s@.len() == 0,
        ensures
            final(result)@ == spaced(old(result)@, s@),
    {
        let v = chars_of(s);
        if v.len() > 0 {
            let c: char = v[0];
            let so_far = chars_of(result.as_str());
            let last: char = so_far[so_far.len() - 1];
            let hugs = c == '.' || c == ',' || c == '!' || c == '?' || c == ';' || c == ':' || c
                == '%' || c == ')' || c == ']' || c == '}' || c == '"' || c == '\'' || last == '('
                || last == '[' || last == '{';
            if !hugs {
                result.push(' ');
            }
            result.append(s);
        }
    }

    /// Decodes tokens into text, spaced by the language of each region.
    pub fn decode(&self, tokens: Vec<String>) -> (r: TokenResult<String>)
        ensures
            r is Ok,
            r->Ok_0@ == decode_parts(self@, chained(self@, texts(tokens@))).text,
    {
        let ghost all = texts(tokens@);
        let parts = match self.decode_chain(tokens) {
            Ok(parts) => parts,
            Err(e) => return Err(e),
        };
        let ghost chain = texts(parts@);
        let mut result = String::new();
        let mut en_mode: bool = false;
        let mut opened: bool = false;
        for i in 0..parts.len()
            invariant
                chain == texts(parts@),
                decode_parts(self@, chain.take(i as int)) == (Decoded {
                    text: result@,
                    english: en_mode,
                    opened,
                }),
        {
            let p = &parts[i];
            assert(chain.take(i + 1).drop_last() == chain.take(i as int));
            assert(chain.take(i + 1).last() == p@);
            if *p == self.cs_vi_en {
                en_mode = true;
            } else if *p == self.cs_en_vi {
                en_mode = false;
            } else {
                let first = chars_of(p.as_str());
                let opens = first.len() > 0 && first[0] == WORD_START;
                let word = Self::clean(p.as_str());
                if result.as_str().is_empty() {
                    let head = trimmed_start(word.as_str(), Trim::Space);
                    result = head;
                } else if en_mode && !opens && !opened {
                    result.append(word.as_str());
                } else {
                    Self::smart_append(&mut result, word.as_str());
                }
                en_mode = en_mode || opens;
                opened = word.as_str().is_empty() && (opened || opens);
            }
        }
        assert(chain.take(parts@.len() as int) == chain);
        Ok(result)
    }
}

} // verus!
