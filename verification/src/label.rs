//! Labels with several synonyms.
//!
//! A classifier may name an object by several synonyms in one label, with a
//! comma and a space between them: `"cat, feline, house cat"`. Every synonym
//! is normalized on its own, which gives a label as many phrases and as many
//! stems as it has synonyms.

use vstd::prelude::*;
use vstd::std_specs::iter::IteratorSpec;
use crate::normalize::{normalize, phrase, stem, texts, NormalizeError, MAX_PHRASE_BYTES};
use crate::span::{byte_len, byte_offset, char_width, lemma_byte_offset_monotone, lemma_byte_offset_step, slice};

verus! {

/// Whether a separator of sub-labels, a comma and a space behind it, starts at
/// the character `i` of `label`.
pub open spec fn separator_at(label: Seq<char>, i: int) -> bool {
    0 <= i && i + 1 < label.len() && label[i] == ',' && label[i + 1] == ' '
}

/// Index of the first separator of `label` at or behind `from`; the length of
/// `label` where there is none.
pub open spec fn segment_end(label: Seq<char>, from: int) -> int
    decreases label.len() - from,
{
    if from < 0 || from >= label.len() {
        label.len() as int
    } else if separator_at(label, from) {
        from
    } else {
        segment_end(label, from + 1)
    }
}

/// The sub-labels of `label` that start at or behind the character `from`,
/// each as the pair of the index of its first character and the index just
/// behind its last one. A label that ends in a separator has an empty last
/// sub-label.
pub open spec fn segment_spans(label: Seq<char>, from: int) -> Seq<(int, int)>
    decreases label.len() + 2 - from,
{
    if from < 0 || from > label.len() {
        Seq::empty()
    } else {
        let end = segment_end(label, from);
        proof {
            lemma_segment_end_bounds(label, from);
        }
        if end >= label.len() {
            seq![(from, end)]
        } else {
            seq![(from, end)] + segment_spans(label, end + 2)
        }
    }
}

/// The sub-labels of `label`: the texts between its separators, in order.
pub open spec fn segments(label: Seq<char>) -> Seq<Seq<char>> {
    segment_spans(label, 0).map_values(|span: (int, int)| label.subrange(span.0, span.1))
}

/// The phrases of the sub-labels of `label`.
pub open spec fn label_classes(label: Seq<char>) -> Seq<Seq<char>> {
    segments(label).map_values(|segment: Seq<char>| phrase(segment))
}

/// The stems of the sub-labels of `label`.
pub open spec fn label_stems(label: Seq<char>) -> Seq<Seq<char>> {
    segments(label).map_values(|segment: Seq<char>| stem(segment))
}

/// Whether the phrase of every sub-label of `label` is short enough to be
/// stemmed.
pub open spec fn label_fits(label: Seq<char>) -> bool {
    forall|i: int|
        0 <= i < segments(label).len() ==> byte_len(phrase(#[trigger] segments(label)[i]))
            <= MAX_PHRASE_BYTES
}

/// A sub-label ends at or behind its start and inside the label.
pub proof fn lemma_segment_end_bounds(label: Seq<char>, from: int)
    requires
        0 <= from <= label.len(),
    ensures
        from <= segment_end(label, from) <= label.len(),
    decreases label.len() - from,
{
    if from < label.len() && !separator_at(label, from) {
        lemma_segment_end_bounds(label, from + 1);
    }
}

/// A sub-label ends at the first separator behind its start.
pub proof fn lemma_segment_end_at(label: Seq<char>, from: int, end: int)
    requires
        0 <= from <= end <= label.len(),
        forall|i: int| from <= i < end ==> !separator_at(label, i),
        end < label.len() ==> separator_at(label, end),
    ensures
        segment_end(label, from) == end,
    decreases end - from,
{
    if from < end {
        lemma_segment_end_at(label, from + 1, end);
    }
}

/// `parts` joined with a comma and a space between neighbours.
pub open spec fn join_separated(parts: Seq<Seq<char>>) -> Seq<char>
    decreases parts.len(),
{
    if parts.len() == 0 {
        Seq::empty()
    } else if parts.len() == 1 {
        parts[0]
    } else {
        parts[0] + seq![',', ' '] + join_separated(parts.drop_first())
    }
}

/// Splitting loses nothing: a label has at least one sub-label, and its
/// sub-labels joined with separators are the label again.
pub proof fn lemma_segments_rejoin(label: Seq<char>)
    ensures
        segments(label).len() > 0,
        join_separated(segments(label)) == label,
{
    lemma_segments_rejoin_from(label, 0);
    assert(label.skip(0) =~= label);
}

/// No sub-label holds a separator.
pub proof fn lemma_segments_hold_no_separator(label: Seq<char>, j: int, i: int)
    requires
        0 <= j < segments(label).len(),
    ensures
        !separator_at(segments(label)[j], i),
{
    lemma_spans_hold_no_separator(label, 0, j);
    let (start, end) = segment_spans(label, 0)[j];
    if separator_at(segments(label)[j], i) {
        assert(separator_at(label, start + i));
    }
}

/// The texts of the sub-labels of `label` from the character `from` on.
spec fn segments_from(label: Seq<char>, from: int) -> Seq<Seq<char>> {
    segment_spans(label, from).map_values(|span: (int, int)| label.subrange(span.0, span.1))
}

proof fn lemma_segments_rejoin_from(label: Seq<char>, from: int)
    requires
        0 <= from <= label.len(),
    ensures
        segment_spans(label, from).len() > 0,
        join_separated(segments_from(label, from)) == label.skip(from),
    decreases label.len() - from,
{
    let end = segment_end(label, from);
    lemma_segment_end_bounds(label, from);
    let first = label.subrange(from, end);
    if end >= label.len() {
        assert(segments_from(label, from) =~= seq![first]);
        assert(first =~= label.skip(from));
    } else {
        lemma_segment_end_at_separator(label, from);
        lemma_segments_rejoin_from(label, end + 2);
        let rest = segments_from(label, end + 2);
        assert(segments_from(label, from) =~= seq![first] + rest);
        assert((seq![first] + rest).drop_first() =~= rest);
        assert(first + seq![',', ' '] + label.skip(end + 2) =~= label.skip(from));
    }
}

/// Where a sub-label ends before the end of the label, a separator follows.
proof fn lemma_segment_end_at_separator(label: Seq<char>, from: int)
    requires
        0 <= from <= label.len(),
    ensures
        segment_end(label, from) < label.len() ==> separator_at(label, segment_end(label, from)),
        forall|i: int| from <= i < segment_end(label, from) ==> !separator_at(label, i),
    decreases label.len() - from,
{
    if from < label.len() && !separator_at(label, from) {
        lemma_segment_end_at_separator(label, from + 1);
    }
}

proof fn lemma_spans_hold_no_separator(label: Seq<char>, from: int, j: int)
    requires
        0 <= from <= label.len(),
        0 <= j < segment_spans(label, from).len(),
    ensures
        ({
            let (start, end) = segment_spans(label, from)[j];
            &&& from <= start <= end <= label.len()
            &&& forall|i: int| start <= i < end ==> !separator_at(label, i)
        }),
    decreases label.len() - from,
{
    let end = segment_end(label, from);
    lemma_segment_end_bounds(label, from);
    lemma_segment_end_at_separator(label, from);
    if j > 0 {
        let rest = segment_spans(label, end + 2);
        assert(segment_spans(label, from) =~= seq![(from, end)] + rest);
        assert(segment_spans(label, from)[j] == rest[j - 1]);
        lemma_spans_hold_no_separator(label, end + 2, j - 1);
    }
}

/// `part` is the characters `span.0 .. span.1` of `label`.
spec fn is_part(part: &str, label: Seq<char>, span: (int, int)) -> bool {
    &&& 0 <= span.0 <= span.1 <= label.len()
    &&& part@ == label.subrange(span.0, span.1)
}

/// The sub-labels of `label`: the pieces between its separators `", "`.
pub fn split_label<'a>(label: &'a str) -> (parts: Vec<&'a str>)
    ensures
        parts@.len() == segments(label@).len(),
        forall|j: int| 0 <= j < parts@.len() ==> (#[trigger] parts@[j])@ == segments(label@)[j],
{
    let total: usize = label.as_bytes().len();
    let mut parts: Vec<&'a str> = Vec::new();
    let mut it = label.chars();
    let mut pos: usize = 0;
    let mut start: usize = 0;
    let mut after_comma = false;
    let ghost mut k: int = 0;
    let ghost mut a: int = 0;
    let ghost mut done: Seq<(int, int)> = Seq::empty();
    proof {
        assert(label@.take(0) =~= Seq::<char>::empty());
        assert(label@.skip(0) =~= label@);
        assert(done + segment_spans(label@, 0) =~= segment_spans(label@, 0));
        lemma_byte_offset_monotone(label@, 0, 0);
    }
    loop
        invariant
            0 <= a <= k <= label@.len(),
            it.remaining() == label@.skip(k),
            total == byte_len(label@),
            pos == byte_offset(label@, k),
            start == byte_offset(label@, a),
            after_comma == (a < k && label@[k - 1] == ','),
            forall|i: int| a <= i && i + 1 < k ==> !separator_at(label@, i),
            segment_spans(label@, 0) == done + segment_spans(label@, a),
            parts@.len() == done.len(),
            forall|j: int| 0 <= j < parts@.len() ==> is_part(#[trigger] parts@[j], label@, done[j]),
        ensures
            k == label@.len(),
        decreases label@.len() - k,
    {
        match it.next() {
            Some(c) => {
                let width = char_width(c);
                proof {
                    lemma_byte_offset_step(label@, k);
                    lemma_byte_offset_monotone(label@, k + 1, k + 1);
                }
                if c == ' ' && after_comma {
                    proof {
                        lemma_byte_offset_step(label@, k - 1);
                        lemma_byte_offset_monotone(label@, a, k - 1);
                    }
                    let part = slice(label, start, pos - 1, Ghost(a), Ghost(k - 1));
                    proof {
                        lemma_segment_end_at(label@, a, k - 1);
                        assert(done.push((a, k - 1)) + segment_spans(label@, k + 1) =~= done
                            + segment_spans(label@, a));
                        done = done.push((a, k - 1));
                        a = k + 1;
                    }
                    parts.push(part);
                    start = pos + width;
                    after_comma = false;
                } else {
                    after_comma = c == ',';
                }
                pos = pos + width;
                proof {
                    k = k + 1;
                }
            },
            None => {
                break ;
            },
        }
    }
    proof {
        assert(label@.take(k) =~= label@);
        lemma_byte_offset_monotone(label@, a, k);
        lemma_segment_end_at(label@, a, k);
        assert(done.push((a, k)) =~= done + segment_spans(label@, a));
    }
    let part = slice(label, start, pos, Ghost(a), Ghost(k));
    parts.push(part);
    parts
}

/// The normalized forms of the sub-labels of a label, index by index.
#[derive(Debug, PartialEq, Eq)]
pub struct LabelForms {
    /// The phrase of every sub-label.
    pub class: Vec<String>,
    /// The stem of every sub-label.
    pub stem: Vec<String>,
}

/// Normalizes every sub-label of `label` on its own.
///
/// Fails exactly where the phrase of some sub-label is longer than
/// `MAX_PHRASE_BYTES`.
pub fn normalize_label(label: &str) -> (result: Result<LabelForms, NormalizeError>)
    ensures
        match result {
            Ok(forms) => {
                &&& label_fits(label@)
                &&& texts(forms.class@) == label_classes(label@)
                &&& texts(forms.stem@) == label_stems(label@)
            },
            Err(error) => {
                &&& !label_fits(label@)
                &&& error == NormalizeError::PhraseTooLong
            },
        },
{
    let parts = split_label(label);
    let mut class: Vec<String> = Vec::new();
    let mut stems: Vec<String> = Vec::new();
    let mut i: usize = 0;
    while i < parts.len()
        invariant
            0 <= i <= parts@.len(),
            parts@.len() == segments(label@).len(),
            forall|j: int| 0 <= j < parts@.len() ==> (#[trigger] parts@[j])@ == segments(label@)[j],
            class@.len() == i,
            stems@.len() == i,
            forall|j: int|
                0 <= j < i ==> {
                    &&& byte_len(phrase(#[trigger] segments(label@)[j])) <= MAX_PHRASE_BYTES
                    &&& class@[j]@ == phrase(segments(label@)[j])
                    &&& stems@[j]@ == stem(segments(label@)[j])
                },
        decreases parts@.len() - i,
    {
        match normalize(parts[i]) {
            Ok(forms) => {
                class.push(forms.class);
                stems.push(forms.stem);
            },
            Err(error) => {
                return Err(error);
            },
        }
        i = i + 1;
    }
    proof {
        assert(texts(class@) =~= label_classes(label@));
        assert(texts(stems@) =~= label_stems(label@));
    }
    Ok(LabelForms { class, stem: stems })
}

} // verus!
