//! Reducing free text to a search key.
//!
//! A text is split into tokens, every token is put into lower case, the tokens
//! are joined again with single spaces (the phrase), and the phrase is stemmed
//! as a whole and put into lower case once more (the stem). Labels and queries
//! go through the same steps, which is what makes their stems comparable.
//!
//! Empty tokens are kept: where the text has two whitespace characters in a
//! row, the phrase has two spaces.

use vstd::prelude::*;
use vstd::string::*;
use crate::span::byte_len;
use crate::tokenizer::{token_texts, tokenize};

verus! {

/// Longest phrase, in bytes, that is handed to the stemmer. The stemmer keeps
/// its positions in the text as 32-bit signed numbers and adds them up; below
/// this length every such sum stays in range.
pub const MAX_PHRASE_BYTES: usize = 0x3FFF_FFFF;

/// The text that `str::to_lowercase` returns for `text`.
pub uninterp spec fn lowercase(text: Seq<char>) -> Seq<char>;

/// The text that the English Snowball stemmer of `rust_stemmers` returns for
/// `phrase`.
pub uninterp spec fn english_stem(phrase: Seq<char>) -> Seq<char>;

/// `parts` joined with one space between neighbours.
pub open spec fn join_spaced(parts: Seq<Seq<char>>) -> Seq<char>
    decreases parts.len(),
{
    if parts.len() == 0 {
        Seq::empty()
    } else if parts.len() == 1 {
        parts[0]
    } else {
        join_spaced(parts.drop_last()) + seq![' '] + parts.last()
    }
}

/// The phrase of `text`: its tokens in lower case, joined with single spaces.
pub open spec fn phrase(text: Seq<char>) -> Seq<char> {
    join_spaced(token_texts(text).map_values(|token: Seq<char>| lowercase(token)))
}

/// The stem of `text`: its phrase, stemmed as one word and put into lower case.
pub open spec fn stem(text: Seq<char>) -> Seq<char> {
    lowercase(english_stem(phrase(text)))
}

/// The views of the strings of `strings`.
pub open spec fn texts(strings: Seq<String>) -> Seq<Seq<char>> {
    strings.map_values(|string: String| string@)
}

/// Why a text could not be normalized.
#[derive(Debug, Clone, Copy, PartialEq, Eq)]
pub enum NormalizeError {
    /// The phrase is longer than `MAX_PHRASE_BYTES`.
    PhraseTooLong,
}

/// A text in its two normalized forms.
#[derive(Debug, PartialEq, Eq)]
pub struct Normalized {
    /// The phrase: kept for display.
    pub class: String,
    /// The stem: the key that searches compare.
    pub stem: String,
}

/// Calls `str::to_lowercase`, which maps every character to its Unicode lower
/// case.
///
/// Not proved: that the result is `lowercase` of the text. That is the name
/// under which this library speaks of what the call returns, and claims no
/// more than that equal texts give equal results.
#[verifier::external_body]
fn to_lowercase(text: &str) -> (lower: String)
    ensures
        lower@ == lowercase(text@),
{
    text.to_lowercase()
}

/// Makes the English stemmer of `rust_stemmers`, by
/// `Stemmer::create(Algorithm::English)`, and calls its `Stemmer::stem` on
/// `phrase`.
///
/// Not proved: that the result is `english_stem` of the phrase, the name under
/// which this library speaks of what the call returns (equal phrases give
/// equal results), and that the call returns for every phrase of at most
/// `MAX_PHRASE_BYTES` bytes.
#[verifier::external_body]
fn stem_english(phrase: &str) -> (stemmed: String)
    requires
        byte_len(phrase@) <= MAX_PHRASE_BYTES,
    ensures
        stemmed@ == english_stem(phrase@),
{
    rust_stemmers::Stemmer::create(rust_stemmers::Algorithm::English).stem(phrase).into_owned()
}

/// `parts` joined with one space between neighbours.
pub fn join_with_spaces(parts: &Vec<String>) -> (joined: String)
    ensures
        joined@ == join_spaced(texts(parts@)),
{
    let mut joined = String::new();
    let mut i: usize = 0;
    while i < parts.len()
        invariant
            0 <= i <= parts@.len(),
            joined@ == join_spaced(texts(parts@).take(i as int)),
        decreases parts@.len() - i,
    {
        proof {
            reveal_strlit(" ");
            assert(" "@ =~= seq![' ']);
            let upto = texts(parts@).take(i + 1);
            assert(upto.drop_last() =~= texts(parts@).take(i as int));
            assert(upto.last() == parts@[i as int]@);
        }
        if i > 0 {
            joined.append(" ");
        }
        joined.append(parts[i].as_str());
        proof {
            assert(joined@ =~= join_spaced(texts(parts@).take(i + 1)));
        }
        i = i + 1;
    }
    proof {
        assert(texts(parts@).take(parts@.len() as int) =~= texts(parts@));
    }
    joined
}

/// The phrase of `text`.
pub fn phrase_of(text: &str) -> (joined: String)
    ensures
        joined@ == phrase(text@),
{
    let tokens = tokenize(text);
    let mut lowered: Vec<String> = Vec::new();
    let mut i: usize = 0;
    while i < tokens.len()
        invariant
            0 <= i <= tokens@.len(),
            tokens@.len() == token_texts(text@).len(),
            forall|j: int| 0 <= j < tokens@.len() ==> (#[trigger] tokens@[j]).s@ == token_texts(text@)[j],
            lowered@.len() == i,
            forall|j: int| 0 <= j < i ==> (#[trigger] lowered@[j])@ == lowercase(token_texts(text@)[j]),
        decreases tokens@.len() - i,
    {
        lowered.push(to_lowercase(tokens[i].s));
        i = i + 1;
    }
    proof {
        assert(texts(lowered@) =~= token_texts(text@).map_values(
            |token: Seq<char>| lowercase(token),
        ));
    }
    join_with_spaces(&lowered)
}

/// `result` is what stemming `phrase` gives: the phrase stemmed as one word,
/// in lower case, or `NormalizeError::PhraseTooLong` exactly where the phrase
/// is longer than `MAX_PHRASE_BYTES`.
pub open spec fn stemmed(phrase: Seq<char>, result: Result<String, NormalizeError>) -> bool {
    match result {
        Ok(key) => {
            &&& byte_len(phrase) <= MAX_PHRASE_BYTES
            &&& key@ == lowercase(english_stem(phrase))
        },
        Err(error) => {
            &&& byte_len(phrase) > MAX_PHRASE_BYTES
            &&& error == NormalizeError::PhraseTooLong
        },
    }
}

/// Stemming is deterministic: whatever two calls for the same phrase give,
/// they give the same stem, or fail alike.
pub proof fn lemma_stem_deterministic(
    phrase: Seq<char>,
    first: Result<String, NormalizeError>,
    second: Result<String, NormalizeError>,
)
    requires
        stemmed(phrase, first),
        stemmed(phrase, second),
    ensures
        match (first, second) {
            (Ok(a), Ok(b)) => a@ == b@,
            (Err(a), Err(b)) => a == b,
            _ => false,
        },
{
}

/// The stem of a phrase: the phrase stemmed as one word, in lower case.
pub fn stem_phrase(phrase: &str) -> (result: Result<String, NormalizeError>)
    ensures
        stemmed(phrase@, result),
{
    if phrase.as_bytes().len() > MAX_PHRASE_BYTES {
        return Err(NormalizeError::PhraseTooLong);
    }
    let key = stem_english(phrase);
    Ok(to_lowercase(key.as_str()))
}

/// `result` is what normalizing `text` gives: its phrase and its stem, or
/// `NormalizeError::PhraseTooLong` exactly where the phrase is longer than
/// `MAX_PHRASE_BYTES`.
pub open spec fn normalized(text: Seq<char>, result: Result<Normalized, NormalizeError>) -> bool {
    match result {
        Ok(forms) => {
            &&& byte_len(phrase(text)) <= MAX_PHRASE_BYTES
            &&& forms.class@ == phrase(text)
            &&& forms.stem@ == stem(text)
        },
        Err(error) => {
            &&& byte_len(phrase(text)) > MAX_PHRASE_BYTES
            &&& error == NormalizeError::PhraseTooLong
        },
    }
}

/// Normalizing is deterministic: whatever two calls for the same text give,
/// they give the same phrase and the same stem, or fail alike.
pub proof fn lemma_normalize_deterministic(
    text: Seq<char>,
    first: Result<Normalized, NormalizeError>,
    second: Result<Normalized, NormalizeError>,
)
    requires
        normalized(text, first),
        normalized(text, second),
    ensures
        match (first, second) {
            (Ok(a), Ok(b)) => a.class@ == b.class@ && a.stem@ == b.stem@,
            (Err(a), Err(b)) => a == b,
            _ => false,
        },
{
}

/// Normalizes `text`: the same steps for a label and for a query.
pub fn normalize(text: &str) -> (result: Result<Normalized, NormalizeError>)
    ensures
        normalized(text@, result),
{
    let class = phrase_of(text);
    match stem_phrase(class.as_str()) {
        Ok(stem) => Ok(Normalized { class, stem }),
        Err(error) => Err(error),
    }
}

} // verus!
