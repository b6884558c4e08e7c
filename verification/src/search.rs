//! Finding classified images by an approximate query.
//!
//! A query is trimmed and normalized to its stem. Every image of the corpus
//! is scored by the edit distance between that stem and the nearest stem of
//! the image's most probable guess; the other guesses of an image play no
//! part. The images with the lowest scores, ten at most, are the result,
//! lowest first, and among equal scores in the order of the corpus.

use vstd::prelude::*;
use vstd::string::*;
use crate::classify::{ImageClassification, ImageClassificationView};
use crate::distance::{edit_distance, levenshtein};
use crate::normalize::{normalize, phrase, stem, texts, MAX_PHRASE_BYTES};
use crate::ranking::{is_ranking, lemma_ranking_unique, rank};
use crate::span::byte_len;
use crate::tokenizer::{token_spans, trim, trimmed};

verus! {

/// The number of images that a search returns at most.
pub const MAX_RESULTS: usize = 10;

/// One image of a search result.
#[derive(Debug)]
pub struct SearchHit<'a, P> {
    /// Position of the image in the corpus.
    pub index: usize,
    /// Distance between the query and the image: the lower, the better.
    pub score: usize,
    /// The image. What is shown of it is its canonical path and all phrases of
    /// its most probable guess, not only the one that matched.
    pub image: &'a ImageClassification<P>,
}

impl<'a, P> SearchHit<'a, P> {
    /// The path under which the hit is shown: the canonical path of the image.
    pub fn absolute_path(&self) -> (path: &'a String)
        ensures
            path@ == self.image@.absolute_path,
    {
        self.image.absolute_path()
    }

    /// The phrases that are shown with the hit: all those of the image's most
    /// probable guess, whichever of them was nearest to the query.
    pub fn classes(&self) -> (classes: &'a Vec<String>)
        ensures
            self.image@.classifications.len() > 0,
            texts(classes@) == self.image@.classifications[0].class,
    {
        self.image.top().class()
    }
}

/// Why a search gave no result.
#[derive(Debug, Clone, Copy, PartialEq, Eq)]
pub enum SearchError {
    /// The query holds nothing but whitespace.
    EmptyQuery,
    /// The phrase of the query is too long to be stemmed.
    QueryTooLong,
}

/// The distance from `query` to the nearest of `stems`; the greatest number
/// where there is no stem.
pub open spec fn best_distance(query: Seq<char>, stems: Seq<Seq<char>>) -> usize
    decreases stems.len(),
{
    if stems.len() == 0 {
        usize::MAX
    } else {
        let before = best_distance(query, stems.drop_last());
        let distance = levenshtein(query, stems.last());
        if distance < before {
            distance as usize
        } else {
            before
        }
    }
}

/// The score of an image for `query`: the distance to the nearest stem of its
/// first guess.
pub open spec fn image_score<P>(query: Seq<char>, image: ImageClassificationView<P>) -> usize {
    best_distance(query, image.classifications[0].stem)
}

/// The scores of all images of `corpus` for `query`, in the order of the
/// corpus.
pub open spec fn image_scores<P>(query: Seq<char>, corpus: Seq<ImageClassification<P>>) -> Seq<
    usize,
> {
    Seq::new(corpus.len(), |i: int| image_score(query, corpus[i]@))
}

/// The positions in the corpus of the images of `hits`.
pub open spec fn hit_indices<P>(hits: Seq<SearchHit<P>>) -> Seq<usize> {
    hits.map_values(|hit: SearchHit<P>| hit.index)
}

/// `hits` is the result of searching `corpus` for the stem `query`: the
/// ranking of the images by their scores, limited to `MAX_RESULTS`, each hit
/// with its image and that image's score.
pub open spec fn is_result<P>(
    corpus: Seq<ImageClassification<P>>,
    query: Seq<char>,
    hits: Seq<SearchHit<P>>,
) -> bool {
    &&& is_ranking(image_scores(query, corpus), MAX_RESULTS, hit_indices(hits))
    &&& forall|k: int|
        0 <= k < hits.len() ==> {
            &&& (#[trigger] hits[k]).index < corpus.len()
            &&& hits[k].score == image_scores(query, corpus)[hits[k].index as int]
            &&& *hits[k].image == corpus[hits[k].index as int]
        }
}

/// Whether a query has no token once the whitespace around it is dropped.
pub open spec fn is_empty_query(query: Seq<char>) -> bool {
    token_spans(trim(query), 0).len() == 0
}

/// `best_distance` is the least of the distances from `query` to `stems`:
/// no stem is nearer, and some stem is that near, unless the result is the
/// greatest number.
pub proof fn lemma_best_distance_is_least(query: Seq<char>, stems: Seq<Seq<char>>)
    ensures
        forall|i: int|
            0 <= i < stems.len() ==> best_distance(query, stems) <= levenshtein(
                query,
                #[trigger] stems[i],
            ),
        best_distance(query, stems) == usize::MAX || exists|i: int|
            0 <= i < stems.len() && best_distance(query, stems) == levenshtein(
                query,
                #[trigger] stems[i],
            ),
    decreases stems.len(),
{
    if stems.len() > 0 {
        let before = stems.drop_last();
        lemma_best_distance_is_least(query, before);
        assert(forall|i: int| 0 <= i < before.len() ==> before[i] == stems[i]);
        let best = best_distance(query, stems);
        if best != usize::MAX {
            if levenshtein(query, stems.last()) < best_distance(query, before) {
                assert(best == levenshtein(query, stems[stems.len() - 1]));
            } else {
                let i = choose|i: int|
                    0 <= i < before.len() && best_distance(query, before) == levenshtein(
                        query,
                        #[trigger] before[i],
                    );
                assert(best == levenshtein(query, stems[i]));
            }
        }
    }
}

/// A result holds every image of a corpus of at most `MAX_RESULTS` images,
/// and `MAX_RESULTS` images of a greater one.
pub proof fn lemma_result_length<P>(
    corpus: Seq<ImageClassification<P>>,
    query: Seq<char>,
    hits: Seq<SearchHit<P>>,
)
    requires
        is_result(corpus, query, hits),
    ensures
        hits.len() == if corpus.len() <= MAX_RESULTS {
            corpus.len()
        } else {
            MAX_RESULTS as nat
        },
{
    assert(hit_indices(hits).len() == hits.len());
}

/// The least score among the hits is at the front: scores never fall from
/// one hit to the next, and where two neighbours score the same the earlier
/// image of the corpus stands first.
pub proof fn lemma_result_sorted<P>(
    corpus: Seq<ImageClassification<P>>,
    query: Seq<char>,
    hits: Seq<SearchHit<P>>,
    k: int,
    l: int,
)
    requires
        is_result(corpus, query, hits),
        0 <= k < l < hits.len(),
    ensures
        hits[k].score <= hits[l].score,
        hits[k].score == hits[l].score ==> hits[k].index < hits[l].index,
{
    let order = hit_indices(hits);
    assert(order[k] == hits[k].index);
    assert(order[l] == hits[l].index);
}

/// A search has one result: two results for the same corpus and the same
/// stem are equal, hit by hit.
pub proof fn lemma_result_unique<P>(
    corpus: Seq<ImageClassification<P>>,
    query: Seq<char>,
    first: Seq<SearchHit<P>>,
    second: Seq<SearchHit<P>>,
)
    requires
        is_result(corpus, query, first),
        is_result(corpus, query, second),
    ensures
        first == second,
{
    lemma_ranking_unique(
        image_scores(query, corpus),
        MAX_RESULTS,
        hit_indices(first),
        hit_indices(second),
    );
    assert forall|k: int| 0 <= k < first.len() implies first[k] == second[k] by {
        assert(hit_indices(first)[k] == first[k].index);
        assert(hit_indices(second)[k] == second[k].index);
    }
    assert(first =~= second);
}

/// The distance from `query` to the nearest of `stems`.
pub fn closest_distance(query: &str, stems: &Vec<String>) -> (best: usize)
    ensures
        best == best_distance(query@, texts(stems@)),
{
    let mut best: usize = usize::MAX;
    let mut i: usize = 0;
    proof {
        assert(texts(stems@).take(0) =~= Seq::<Seq<char>>::empty());
    }
    while i < stems.len()
        invariant
            0 <= i <= stems@.len(),
            best == best_distance(query@, texts(stems@).take(i as int)),
        decreases stems@.len() - i,
    {
        let distance = edit_distance(query, stems[i].as_str());
        proof {
            let upto = texts(stems@).take(i + 1);
            assert(upto.drop_last() =~= texts(stems@).take(i as int));
            assert(upto.last() == stems@[i as int]@);
        }
        if distance < best {
            best = distance;
        }
        i = i + 1;
    }
    proof {
        assert(texts(stems@).take(stems@.len() as int) =~= texts(stems@));
    }
    best
}

/// The scores of all images of `corpus` for the stem `query`.
pub fn score_images<P>(corpus: &Vec<ImageClassification<P>>, query: &str) -> (scores: Vec<usize>)
    ensures
        scores@ == image_scores(query@, corpus@),
{
    let mut scores: Vec<usize> = Vec::new();
    let mut i: usize = 0;
    while i < corpus.len()
        invariant
            0 <= i <= corpus@.len(),
            scores@.len() == i,
            forall|j: int| 0 <= j < i ==> scores@[j] == image_score(query@, (#[trigger] corpus@[j])@),
        decreases corpus@.len() - i,
    {
        let guess = corpus[i].top();
        let score = closest_distance(query, guess.stem());
        scores.push(score);
        i = i + 1;
    }
    proof {
        assert(scores@ =~= image_scores(query@, corpus@));
    }
    scores
}

/// Searches `corpus` for a query that is already normalized to its stem.
pub fn search_by_stem<'a, P>(corpus: &'a Vec<ImageClassification<P>>, query: &str) -> (hits: Vec<
    SearchHit<'a, P>,
>)
    ensures
        is_result(corpus@, query@, hits@),
{
    let scores = score_images(corpus, query);
    let order = rank(&scores, MAX_RESULTS);
    let mut hits: Vec<SearchHit<'a, P>> = Vec::new();
    let mut k: usize = 0;
    while k < order.len()
        invariant
            0 <= k <= order@.len(),
            scores@ == image_scores(query@, corpus@),
            is_ranking(scores@, MAX_RESULTS, order@),
            hits@.len() == k,
            forall|m: int|
                0 <= m < k ==> {
                    &&& (#[trigger] hits@[m]).index == order@[m]
                    &&& hits@[m].index < corpus@.len()
                    &&& hits@[m].score == scores@[hits@[m].index as int]
                    &&& *hits@[m].image == corpus@[hits@[m].index as int]
                },
        decreases order@.len() - k,
    {
        let index = order[k];
        hits.push(SearchHit { index, score: scores[index], image: &corpus[index] });
        k = k + 1;
    }
    proof {
        assert(hit_indices(hits@) =~= order@);
    }
    hits
}

/// The stem that a search for the free text `query` looks for.
///
/// The whitespace around the query is dropped and the rest is normalized like
/// a label. A query that has no token then is reported as
/// `SearchError::EmptyQuery`.
pub fn normalize_query(query: &str) -> (result: Result<String, SearchError>)
    ensures
        match result {
            Ok(key) => {
                &&& !is_empty_query(query@)
                &&& byte_len(phrase(trim(query@))) <= MAX_PHRASE_BYTES
                &&& key@ == stem(trim(query@))
            },
            Err(SearchError::EmptyQuery) => is_empty_query(query@),
            Err(SearchError::QueryTooLong) => {
                &&& !is_empty_query(query@)
                &&& byte_len(phrase(trim(query@))) > MAX_PHRASE_BYTES
            },
        },
{
    let inner = trimmed(query);
    if inner.is_empty() {
        return Err(SearchError::EmptyQuery);
    }
    match normalize(inner) {
        Ok(forms) => Ok(forms.stem),
        Err(_) => Err(SearchError::QueryTooLong),
    }
}

/// Searches `corpus` for the free text `query`.
///
/// The query is normalized to its stem and the corpus is searched for that
/// stem. Where the query is empty or too long nothing is searched.
pub fn search<'a, P>(corpus: &'a Vec<ImageClassification<P>>, query: &str) -> (result: Result<
    Vec<SearchHit<'a, P>>,
    SearchError,
>)
    ensures
        match result {
            Ok(hits) => {
                &&& !is_empty_query(query@)
                &&& byte_len(phrase(trim(query@))) <= MAX_PHRASE_BYTES
                &&& is_result(corpus@, stem(trim(query@)), hits@)
            },
            Err(SearchError::EmptyQuery) => is_empty_query(query@),
            Err(SearchError::QueryTooLong) => {
                &&& !is_empty_query(query@)
                &&& byte_len(phrase(trim(query@))) > MAX_PHRASE_BYTES
            },
        },
{
    match normalize_query(query) {
        Ok(key) => Ok(search_by_stem(corpus, key.as_str())),
        Err(error) => Err(error),
    }
}

} // verus!
