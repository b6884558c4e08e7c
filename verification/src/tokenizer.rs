//! Splitting text at whitespace.
//!
//! Every whitespace character ends one token and starts the next, so two
//! whitespace characters in a row, or one at the very start of the text, give an
//! empty token. Text after the last whitespace character is a final token;
//! when the text ends in whitespace (or is empty) nothing follows, and no empty
//! token is added there.

use vstd::prelude::*;
use vstd::std_specs::iter::IteratorSpec;
use crate::span::{byte_len, byte_offset, char_width, lemma_byte_offset_monotone, lemma_byte_offset_step, slice};

verus! {

/// A piece of a text between two whitespace characters, with the byte
/// position in that text at which it starts.
#[derive(Debug, Clone, Copy)]
pub struct Token<'a> {
    pub s: &'a str,
    pub start_index: usize,
}

impl<'a> Token<'a> {
    /// This token is the characters `span.0 .. span.1` of `text`.
    pub open spec fn covers(self, text: Seq<char>, span: (int, int)) -> bool {
        &&& 0 <= span.0 <= span.1 <= text.len()
        &&& self.s@ == text.subrange(span.0, span.1)
        &&& self.start_index == byte_offset(text, span.0)
    }
}

/// The characters with the Unicode property `White_Space`.
pub open spec fn is_whitespace(c: char) -> bool {
    ||| '\u{9}' <= c <= '\u{D}'
    ||| c == ' '
    ||| c == '\u{85}'
    ||| c == '\u{A0}'
    ||| c == '\u{1680}'
    ||| '\u{2000}' <= c <= '\u{200A}'
    ||| c == '\u{2028}'
    ||| c == '\u{2029}'
    ||| c == '\u{202F}'
    ||| c == '\u{205F}'
    ||| c == '\u{3000}'
}

/// Index of the first whitespace character of `text` at or behind `from`;
/// the length of `text` where there is none.
pub open spec fn token_end(text: Seq<char>, from: int) -> int
    decreases text.len() - from,
{
    if from < 0 || from >= text.len() {
        text.len() as int
    } else if is_whitespace(text[from]) {
        from
    } else {
        token_end(text, from + 1)
    }
}

/// The tokens of `text` that start at or behind the character `from`, each as
/// the pair of the index of its first character and the index just behind its
/// last one. `from` is where a token starts: 0, or just behind a whitespace
/// character.
pub open spec fn token_spans(text: Seq<char>, from: int) -> Seq<(int, int)>
    decreases text.len() + 1 - from,
{
    if from < 0 || from >= text.len() {
        Seq::empty()
    } else {
        let end = token_end(text, from);
        proof {
            lemma_token_end_bounds(text, from);
        }
        seq![(from, end)] + token_spans(text, end + 1)
    }
}

/// The texts of the tokens of `text`, in order.
pub open spec fn token_texts(text: Seq<char>) -> Seq<Seq<char>> {
    token_spans(text, 0).map_values(|span: (int, int)| text.subrange(span.0, span.1))
}

/// A token ends at or behind its start and inside the text.
pub proof fn lemma_token_end_bounds(text: Seq<char>, from: int)
    requires
        0 <= from <= text.len(),
    ensures
        from <= token_end(text, from) <= text.len(),
    decreases text.len() - from,
{
    if from < text.len() && !is_whitespace(text[from]) {
        lemma_token_end_bounds(text, from + 1);
    }
}

/// A token ends at the first whitespace character behind its start.
pub proof fn lemma_token_end_at(text: Seq<char>, from: int, end: int)
    requires
        0 <= from <= end <= text.len(),
        forall|i: int| from <= i < end ==> !is_whitespace(#[trigger] text[i]),
        end < text.len() ==> is_whitespace(text[end]),
    ensures
        token_end(text, from) == end,
    decreases end - from,
{
    if from < end {
        lemma_token_end_at(text, from + 1, end);
    }
}

/// No character of a token is whitespace, and the character behind a token,
/// where there is one, is whitespace.
pub proof fn lemma_token_end_is_first(text: Seq<char>, from: int)
    requires
        0 <= from <= text.len(),
    ensures
        forall|i: int| from <= i < token_end(text, from) ==> !is_whitespace(#[trigger] text[i]),
        token_end(text, from) < text.len() ==> is_whitespace(text[token_end(text, from)]),
    decreases text.len() - from,
{
    if from < text.len() && !is_whitespace(text[from]) {
        lemma_token_end_is_first(text, from + 1);
    }
}

/// The tokens of a text, said without recursion.
///
/// A text has no token exactly when it is empty. Otherwise the first token
/// starts at the start of the text; every token holds no whitespace and is
/// followed by a whitespace character or by the end of the text; the next
/// token starts just behind that whitespace character; and the last token
/// either reaches the end of the text and is not empty, or ends at a
/// whitespace character that is the last character of the text.
pub proof fn lemma_token_spans_shape(text: Seq<char>)
    ensures
        token_spans(text, 0).len() == 0 <==> text.len() == 0,
        tiles(text, 0, token_spans(text, 0)),
{
    lemma_token_spans_tile(text, 0);
}

/// `spans` are tokens that follow each other from the character `from` to the
/// end of `text`.
pub open spec fn tiles(text: Seq<char>, from: int, spans: Seq<(int, int)>) -> bool {
    &&& spans.len() > 0 ==> spans[0].0 == from
    &&& forall|j: int|
        0 <= j < spans.len() ==> {
            let (start, end) = #[trigger] spans[j];
            &&& 0 <= start <= end <= text.len()
            &&& forall|i: int| start <= i < end ==> !is_whitespace(#[trigger] text[i])
            &&& end < text.len() ==> is_whitespace(text[end])
        }
    &&& forall|j: int| 0 <= j < spans.len() - 1 ==> (#[trigger] spans[j + 1]).0 == spans[j].1 + 1
    &&& spans.len() > 0 ==> {
        let (start, end) = spans.last();
        ||| end == text.len() && start < end
        ||| end + 1 == text.len()
    }
}

proof fn lemma_token_spans_tile(text: Seq<char>, from: int)
    requires
        0 <= from <= text.len(),
    ensures
        token_spans(text, from).len() == 0 <==> from == text.len(),
        tiles(text, from, token_spans(text, from)),
    decreases text.len() - from,
{
    if from < text.len() {
        let end = token_end(text, from);
        lemma_token_end_bounds(text, from);
        lemma_token_end_is_first(text, from);
        let rest = token_spans(text, end + 1);
        let spans = token_spans(text, from);
        assert(spans =~= seq![(from, end)] + rest);
        assert(spans[0] == (from, end));
        assert(forall|j: int| 0 <= j < rest.len() ==> spans[j + 1] == rest[j]);
        if end < text.len() {
            lemma_token_spans_tile(text, end + 1);
        }
        assert forall|j: int| 0 <= j < spans.len() implies {
            let (start, end) = #[trigger] spans[j];
            &&& 0 <= start <= end <= text.len()
            &&& forall|i: int| start <= i < end ==> !is_whitespace(#[trigger] text[i])
            &&& end < text.len() ==> is_whitespace(text[end])
        } by {
            if j > 0 {
                assert(spans[j] == rest[j - 1]);
            }
        }
        assert forall|j: int| 0 <= j < spans.len() - 1 implies (#[trigger] spans[j + 1]).0
            == spans[j].1 + 1 by {
            assert(spans[j + 1] == rest[j]);
            if j > 0 {
                assert(spans[j] == rest[j - 1]);
                assert(rest[j - 1 + 1] == rest[j]);
            }
        }
        if rest.len() > 0 {
            assert(spans.last() == rest.last());
        }
    }
}

/// A text has one tokenization: spans that follow each other from the start
/// of the text in the way `lemma_token_spans_shape` describes are the tokens
/// of the text.
pub proof fn lemma_token_spans_unique(text: Seq<char>, spans: Seq<(int, int)>)
    requires
        spans.len() == 0 <==> text.len() == 0,
        tiles(text, 0, spans),
    ensures
        spans == token_spans(text, 0),
{
    lemma_tiles_are_token_spans(text, 0, spans);
}

proof fn lemma_tiles_are_token_spans(text: Seq<char>, from: int, spans: Seq<(int, int)>)
    requires
        0 <= from <= text.len(),
        spans.len() == 0 <==> from == text.len(),
        tiles(text, from, spans),
    ensures
        spans == token_spans(text, from),
    decreases text.len() - from,
{
    if from == text.len() {
        assert(spans =~= token_spans(text, from));
    } else {
        let (start, end) = spans[0];
        lemma_token_end_at(text, from, end);
        let rest = spans.drop_first();
        assert(forall|j: int| 0 <= j < rest.len() ==> rest[j] == spans[j + 1]);
        assert(spans =~= seq![(from, end)] + rest);
        if rest.len() > 0 {
            assert(spans[0int + 1].0 == spans[0].1 + 1);
            assert(rest[0] == spans[1]);
            assert(rest.last() == spans.last());
            if rest.len() > 1 {
                assert(spans[1int + 1].0 == spans[1].1 + 1);
                assert(rest[1] == spans[2]);
            }
        }
        if end < text.len() {
            assert(rest.len() == 0 <==> end + 1 == text.len());
            assert forall|j: int| 0 <= j < rest.len() implies {
                let (start, end) = #[trigger] rest[j];
                &&& 0 <= start <= end <= text.len()
                &&& forall|i: int| start <= i < end ==> !is_whitespace(#[trigger] text[i])
                &&& end < text.len() ==> is_whitespace(text[end])
            } by {
                assert(rest[j] == spans[j + 1]);
            }
            assert forall|j: int| 0 <= j < rest.len() - 1 implies (#[trigger] rest[j + 1]).0
                == rest[j].1 + 1 by {
                assert(spans[(j + 1) + 1].0 == spans[j + 1].1 + 1);
            }
            assert(tiles(text, end + 1, rest));
            lemma_tiles_are_token_spans(text, end + 1, rest);
        } else {
            assert(rest.len() == 0);
            assert(token_spans(text, end + 1) =~= rest);
        }
    }
}

/// `text` without the whitespace characters at its start.
pub open spec fn trim_start(text: Seq<char>) -> Seq<char>
    decreases text.len(),
{
    if text.len() > 0 && is_whitespace(text[0]) {
        trim_start(text.drop_first())
    } else {
        text
    }
}

/// `text` without the whitespace characters at its end.
pub open spec fn trim_end(text: Seq<char>) -> Seq<char>
    decreases text.len(),
{
    if text.len() > 0 && is_whitespace(text.last()) {
        trim_end(text.drop_last())
    } else {
        text
    }
}

/// `text` without the whitespace characters at its start and at its end.
pub open spec fn trim(text: Seq<char>) -> Seq<char> {
    trim_end(trim_start(text))
}

/// Trimming the start drops everything before the first character that is
/// not whitespace.
pub proof fn lemma_trim_start(text: Seq<char>, first: int)
    requires
        0 <= first <= text.len(),
        forall|i: int| 0 <= i < first ==> is_whitespace(#[trigger] text[i]),
        first < text.len() ==> !is_whitespace(text[first]),
    ensures
        trim_start(text) == text.skip(first),
    decreases first,
{
    if first == 0 {
        assert(text.skip(0) =~= text);
    } else {
        let rest = text.drop_first();
        assert(forall|i: int| 0 <= i < first - 1 ==> rest[i] == text[i + 1]);
        lemma_trim_start(rest, first - 1);
        assert(rest.skip(first - 1) =~= text.skip(first));
    }
}

/// Trimming the end drops everything behind the last character that is not
/// whitespace.
pub proof fn lemma_trim_end(text: Seq<char>, end: int)
    requires
        0 <= end <= text.len(),
        forall|i: int| end <= i < text.len() ==> is_whitespace(#[trigger] text[i]),
        0 < end ==> !is_whitespace(text[end - 1]),
    ensures
        trim_end(text) == text.take(end),
    decreases text.len() - end,
{
    if end == text.len() {
        assert(text.take(end) =~= text);
    } else {
        let rest = text.drop_last();
        lemma_trim_end(rest, end);
        assert(rest.take(end) =~= text.take(end));
    }
}

/// Whether `c` has the Unicode property `White_Space`.
pub fn char_is_whitespace(c: char) -> (b: bool)
    ensures
        b == is_whitespace(c),
{
    ('\u{9}' <= c && c <= '\u{D}') || c == ' ' || c == '\u{85}' || c == '\u{A0}' || c == '\u{1680}'
        || ('\u{2000}' <= c && c <= '\u{200A}') || c == '\u{2028}' || c == '\u{2029}' || c
        == '\u{202F}' || c == '\u{205F}' || c == '\u{3000}'
}

/// Splits `code` at every whitespace character.
///
/// The tokens come in the order of the text. Each is the text between two
/// neighbouring whitespace characters (or between one and an end of the
/// text), and carries the byte offset of its first character.
pub fn tokenize<'a>(code: &'a str) -> (tokens: Vec<Token<'a>>)
    ensures
        tokens@.len() == token_spans(code@, 0).len(),
        forall|j: int|
            0 <= j < tokens@.len() ==> (#[trigger] tokens@[j]).covers(
                code@,
                token_spans(code@, 0)[j],
            ),
{
    let total: usize = code.as_bytes().len();
    let mut tokens: Vec<Token<'a>> = Vec::new();
    let mut it = code.chars();
    let mut pos: usize = 0;
    let mut start: usize = 0;
    let ghost mut k: int = 0;
    let ghost mut a: int = 0;
    let ghost mut done: Seq<(int, int)> = Seq::empty();
    proof {
        assert(code@.take(0) =~= Seq::<char>::empty());
        assert(code@.skip(0) =~= code@);
        assert(done + token_spans(code@, 0) =~= token_spans(code@, 0));
        lemma_byte_offset_monotone(code@, 0, 0);
    }
    loop
        invariant
            0 <= a <= k <= code@.len(),
            it.remaining() == code@.skip(k),
            total == byte_len(code@),
            pos == byte_offset(code@, k),
            start == byte_offset(code@, a),
            forall|i: int| a <= i < k ==> !is_whitespace(#[trigger] code@[i]),
            token_spans(code@, 0) == done + token_spans(code@, a),
            tokens@.len() == done.len(),
            forall|j: int|
                0 <= j < tokens@.len() ==> (#[trigger] tokens@[j]).covers(code@, done[j]),
        ensures
            k == code@.len(),
        decreases code@.len() - k,
    {
        match it.next() {
            Some(c) => {
                let width = char_width(c);
                proof {
                    lemma_byte_offset_step(code@, k);
                    lemma_byte_offset_monotone(code@, k + 1, k + 1);
                }
                if char_is_whitespace(c) {
                    let text = slice(code, start, pos, Ghost(a), Ghost(k));
                    proof {
                        lemma_token_end_at(code@, a, k);
                        assert(done.push((a, k)) + token_spans(code@, k + 1) =~= done + token_spans(
                            code@,
                            a,
                        ));
                        done = done.push((a, k));
                        a = k + 1;
                    }
                    tokens.push(Token { s: text, start_index: start });
                    start = pos + width;
                }
                pos = pos + width;
                proof {
                    k = k + 1;
                }
            },
            None => {
                break ;
            },
        }
    }
    if start < total {
        proof {
            lemma_byte_offset_monotone(code@, a, k);
            assert(code@.take(k) =~= code@);
            lemma_token_end_at(code@, a, k);
            assert(token_spans(code@, k + 1) =~= Seq::<(int, int)>::empty());
            assert(done.push((a, k)) =~= done + token_spans(code@, a));
        }
        let text = slice(code, start, pos, Ghost(a), Ghost(k));
        tokens.push(Token { s: text, start_index: start });
    } else {
        proof {
            assert(code@.take(k) =~= code@);
            lemma_byte_offset_monotone(code@, a, k);
            assert(done + token_spans(code@, a) =~= done);
        }
    }
    tokens
}

/// `text` without the whitespace at its start and at its end.
pub fn trimmed<'a>(text: &'a str) -> (inner: &'a str)
    ensures
        inner@ == trim(text@),
{
    let total: usize = text.as_bytes().len();
    let mut it = text.chars();
    let mut pos: usize = 0;
    let mut from: usize = 0;
    let mut to: usize = 0;
    let mut found = false;
    let ghost mut k: int = 0;
    let ghost mut first: int = 0;
    let ghost mut end: int = 0;
    proof {
        assert(text@.take(0) =~= Seq::<char>::empty());
        assert(text@.skip(0) =~= text@);
        lemma_byte_offset_monotone(text@, 0, 0);
    }
    loop
        invariant
            0 <= k <= text@.len(),
            it.remaining() == text@.skip(k),
            total == byte_len(text@),
            pos == byte_offset(text@, k),
            !found ==> first == 0 && end == 0 && from == 0 && to == 0 && forall|i: int|
                0 <= i < k ==> is_whitespace(#[trigger] text@[i]),
            found ==> {
                &&& 0 <= first < end <= k
                &&& from == byte_offset(text@, first)
                &&& to == byte_offset(text@, end)
                &&& forall|i: int| 0 <= i < first ==> is_whitespace(#[trigger] text@[i])
                &&& !is_whitespace(text@[first])
                &&& !is_whitespace(text@[end - 1])
                &&& forall|i: int| end <= i < k ==> is_whitespace(#[trigger] text@[i])
            },
        ensures
            k == text@.len(),
        decreases text@.len() - k,
    {
        match it.next() {
            Some(c) => {
                let width = char_width(c);
                proof {
                    lemma_byte_offset_step(text@, k);
                    lemma_byte_offset_monotone(text@, k + 1, k + 1);
                }
                if !char_is_whitespace(c) {
                    if !found {
                        found = true;
                        from = pos;
                        proof {
                            first = k;
                        }
                    }
                    to = pos + width;
                    proof {
                        end = k + 1;
                    }
                }
                pos = pos + width;
                proof {
                    k = k + 1;
                }
            },
            None => {
                break ;
            },
        }
    }
    proof {
        if found {
            lemma_trim_start(text@, first);
            let rest = text@.skip(first);
            assert(forall|i: int| 0 <= i < rest.len() ==> rest[i] == text@[first + i]);
            lemma_trim_end(rest, end - first);
            assert(rest.take(end - first) =~= text@.subrange(first, end));
        } else {
            lemma_trim_start(text@, k);
            assert(text@.skip(k) =~= Seq::<char>::empty());
            assert(text@.subrange(0, 0) =~= Seq::<char>::empty());
            assert(text@.take(0) =~= Seq::<char>::empty());
        }
    }
    slice(text, from, to, Ghost(first), Ghost(end))
}

} // verus!
