//! The records that describe classified images.
//!
//! A classifier hands over, for one image, a list of guesses, best first: a
//! probability and a label, which may name several synonyms separated by
//! `", "`. Each guess becomes a `Classification` that holds, for every
//! synonym, its phrase and its stem; the guesses of one image make an
//! `ImageClassification`.
//!
//! The probability may be of any type `P`: it is carried along and never
//! looked at.

use vstd::prelude::*;
use vstd::std_specs::iter::IteratorSpec;
use vstd::string::*;
use crate::label::{label_classes, label_fits, label_stems, normalize_label};
use crate::normalize::texts;

verus! {

/// One guess of the classifier for an image.
///
/// `class` and `stem` have the same length: entry `i` of `stem` is the stem of
/// the synonym whose phrase is entry `i` of `class`.
#[derive(Debug)]
pub struct Classification<P> {
    probability: P,
    stem: Vec<String>,
    class: Vec<String>,
}

/// What a `Classification` holds.
pub struct ClassificationView<P> {
    pub probability: P,
    pub stem: Seq<Seq<char>>,
    pub class: Seq<Seq<char>>,
}

/// One classified image: the path it was given under, its canonical path, and
/// at least one guess, the most probable first.
#[derive(Debug)]
pub struct ImageClassification<P> {
    image_path: String,
    absolute_path: String,
    classifications: Vec<Classification<P>>,
}

/// What an `ImageClassification` holds.
pub struct ImageClassificationView<P> {
    pub image_path: Seq<char>,
    pub absolute_path: Seq<char>,
    pub classifications: Seq<ClassificationView<P>>,
}

/// Why a record could not be made from its parts.
#[derive(Debug, Clone, Copy, PartialEq, Eq)]
pub enum RecordError {
    /// The lists of phrases and of stems differ in length.
    MisalignedStems,
    /// An image without a single guess.
    NoClassifications,
}

/// Why an image's guesses could not be turned into a record.
#[derive(Debug, Clone, Copy, PartialEq, Eq)]
pub enum ClassifyError {
    /// The classifier gave no guess at all.
    NoPredictions,
    /// A synonym of some label is too long to be stemmed.
    LabelTooLong,
}

impl<P> View for Classification<P> {
    type V = ClassificationView<P>;

    closed spec fn view(&self) -> ClassificationView<P> {
        ClassificationView {
            probability: self.probability,
            stem: texts(self.stem@),
            class: texts(self.class@),
        }
    }
}

impl<P> Classification<P> {
    #[verifier::type_invariant]
    spec fn aligned(self) -> bool {
        self.stem@.len() == self.class@.len()
    }

    /// A guess with the given probability, phrases and stems. Fails exactly
    /// where the two lists differ in length.
    pub fn new(probability: P, class: Vec<String>, stem: Vec<String>) -> (result: Result<
        Self,
        RecordError,
    >)
        ensures
            match result {
                Ok(made) => {
                    &&& class@.len() == stem@.len()
                    &&& made@ == (ClassificationView {
                        probability,
                        stem: texts(stem@),
                        class: texts(class@),
                    })
                },
                Err(error) => class@.len() != stem@.len() && error == RecordError::MisalignedStems,
            },
    {
        if class.len() != stem.len() {
            return Err(RecordError::MisalignedStems);
        }
        Ok(Classification { probability, stem, class })
    }

    /// The probability that the classifier gave this guess.
    pub fn probability(&self) -> (probability: &P)
        ensures
            *probability == self@.probability,
    {
        &self.probability
    }

    /// The stems of the synonyms, as many as there are phrases.
    pub fn stem(&self) -> (stem: &Vec<String>)
        ensures
            texts(stem@) == self@.stem,
            self@.stem.len() == self@.class.len(),
    {
        proof {
            use_type_invariant(self);
        }
        &self.stem
    }

    /// The phrases of the synonyms, as many as there are stems.
    pub fn class(&self) -> (class: &Vec<String>)
        ensures
            texts(class@) == self@.class,
            self@.stem.len() == self@.class.len(),
    {
        proof {
            use_type_invariant(self);
        }
        &self.class
    }
}

/// The views of the guesses of `list`.
pub open spec fn classification_views<P>(list: Seq<Classification<P>>) -> Seq<
    ClassificationView<P>,
> {
    list.map_values(|guess: Classification<P>| guess@)
}

impl<P> View for ImageClassification<P> {
    type V = ImageClassificationView<P>;

    closed spec fn view(&self) -> ImageClassificationView<P> {
        ImageClassificationView {
            image_path: self.image_path@,
            absolute_path: self.absolute_path@,
            classifications: classification_views(self.classifications@),
        }
    }
}

impl<P> ImageClassification<P> {
    #[verifier::type_invariant]
    spec fn classified(self) -> bool {
        self.classifications@.len() > 0
    }

    /// The record of an image with the given paths and guesses. Fails exactly
    /// where there is no guess.
    pub fn new(
        image_path: String,
        absolute_path: String,
        classifications: Vec<Classification<P>>,
    ) -> (result: Result<Self, RecordError>)
        ensures
            match result {
                Ok(made) => {
                    &&& classifications@.len() > 0
                    &&& made@ == (ImageClassificationView {
                        image_path: image_path@,
                        absolute_path: absolute_path@,
                        classifications: classification_views(classifications@),
                    })
                },
                Err(error) => classifications@.len() == 0 && error
                    == RecordError::NoClassifications,
            },
    {
        if classifications.len() == 0 {
            return Err(RecordError::NoClassifications);
        }
        Ok(ImageClassification { image_path, absolute_path, classifications })
    }

    /// The path under which the image was given.
    pub fn image_path(&self) -> (path: &String)
        ensures
            path@ == self@.image_path,
    {
        &self.image_path
    }

    /// The canonical path of the image.
    pub fn absolute_path(&self) -> (path: &String)
        ensures
            path@ == self@.absolute_path,
    {
        &self.absolute_path
    }

    /// All guesses, the most probable first; there is at least one.
    pub fn classifications(&self) -> (list: &Vec<Classification<P>>)
        ensures
            classification_views(list@) == self@.classifications,
            list@.len() > 0,
    {
        proof {
            use_type_invariant(self);
        }
        &self.classifications
    }

    /// The most probable guess, the only one that searches look at.
    pub fn top(&self) -> (guess: &Classification<P>)
        ensures
            self@.classifications.len() > 0,
            guess@ == self@.classifications[0],
    {
        proof {
            use_type_invariant(self);
        }
        &self.classifications[0]
    }
}

/// The guess that a probability and a label stand for: one phrase and one
/// stem for every synonym of the label.
pub open spec fn parsed<P>(prediction: (P, String)) -> ClassificationView<P> {
    ClassificationView {
        probability: prediction.0,
        stem: label_stems(prediction.1@),
        class: label_classes(prediction.1@),
    }
}

/// Whether every synonym of every label of `predictions` can be stemmed.
pub open spec fn labels_fit<P>(predictions: Seq<(P, String)>) -> bool {
    forall|i: int| 0 <= i < predictions.len() ==> label_fits((#[trigger] predictions[i]).1@)
}

/// Turns the classifier's guesses into records, in the order given.
///
/// Every label is split at `", "` and each synonym is normalized on its own.
/// Fails only where some synonym is too long to be stemmed.
pub fn parse_classifications<P>(classifications: Vec<(P, String)>) -> (result: Result<
    Vec<Classification<P>>,
    ClassifyError,
>)
    ensures
        match result {
            Ok(list) => {
                &&& labels_fit(classifications@)
                &&& classification_views(list@) == classifications@.map_values(
                    |prediction: (P, String)| parsed(prediction),
                )
            },
            Err(error) => !labels_fit(classifications@) && error == ClassifyError::LabelTooLong,
        },
{
    let ghost input = classifications@;
    let mut list: Vec<Classification<P>> = Vec::new();
    for prediction in it: classifications.into_iter()
        invariant
            it.seq() == input,
            list@.len() == it.index(),
            forall|j: int|
                0 <= j < it.index() ==> {
                    &&& label_fits((#[trigger] input[j]).1@)
                    &&& list@[j]@ == parsed(input[j])
                },
    {
        let (probability, label) = prediction;
        match normalize_label(label.as_str()) {
            Ok(forms) => {
                proof {
                    assert(texts(forms.class@).len() == texts(forms.stem@).len());
                }
                list.push(Classification { probability, stem: forms.stem, class: forms.class });
            },
            Err(_) => {
                return Err(ClassifyError::LabelTooLong);
            },
        }
    }
    proof {
        assert(classification_views(list@) =~= input.map_values(
            |prediction: (P, String)| parsed(prediction),
        ));
    }
    Ok(list)
}

/// The record of one classified image.
///
/// `image_path` is the path as the caller gave it, `absolute_path` its
/// canonical form, `predictions` the classifier's guesses, best first. Fails
/// where there is no guess, and where a synonym of a label is too long to be
/// stemmed.
pub fn classify<P>(image_path: &str, absolute_path: &str, predictions: Vec<(P, String)>) -> (result:
    Result<ImageClassification<P>, ClassifyError>)
    ensures
        match result {
            Ok(image) => {
                &&& predictions@.len() > 0
                &&& labels_fit(predictions@)
                &&& image@ == (ImageClassificationView {
                    image_path: image_path@,
                    absolute_path: absolute_path@,
                    classifications: predictions@.map_values(
                        |prediction: (P, String)| parsed(prediction),
                    ),
                })
            },
            Err(error) => if predictions@.len() == 0 {
                error == ClassifyError::NoPredictions
            } else {
                !labels_fit(predictions@) && error == ClassifyError::LabelTooLong
            },
        },
{
    if predictions.len() == 0 {
        return Err(ClassifyError::NoPredictions);
    }
    let classifications = match parse_classifications(predictions) {
        Ok(list) => list,
        Err(error) => {
            return Err(error);
        },
    };
    proof {
        assert(classification_views(classifications@).len() == predictions@.len());
    }
    Ok(
        ImageClassification {
            image_path: String::from_str(image_path),
            absolute_path: String::from_str(absolute_path),
            classifications,
        },
    )
}

} // verus!
