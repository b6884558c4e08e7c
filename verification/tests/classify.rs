use label_search::classify::{
    classify, parse_classifications, Classification, ClassifyError, ImageClassification, RecordError,
};
use label_search::normalize::MAX_PHRASE_BYTES;

fn strings(items: &[&str]) -> Vec<String> {
    items.iter().map(|item| item.to_string()).collect()
}

#[test]
fn classification_keeps_its_parts() {
    let guess = Classification::new(0.75f64, strings(&["tabby", "tabby cat"]), strings(&["tabbi", "tabby cat"]))
        .unwrap();
    assert_eq!(*guess.probability(), 0.75);
    assert_eq!(*guess.class(), strings(&["tabby", "tabby cat"]));
    assert_eq!(*guess.stem(), strings(&["tabbi", "tabby cat"]));
}

#[test]
fn classification_may_be_empty() {
    let guess = Classification::new(1u8, Vec::new(), Vec::new()).unwrap();
    assert!(guess.class().is_empty());
    assert!(guess.stem().is_empty());
}

#[test]
fn classification_refuses_misaligned_lists() {
    let made = Classification::new(0.5f64, strings(&["cat", "feline"]), strings(&["cat"]));
    assert_eq!(made.unwrap_err(), RecordError::MisalignedStems);
    let made = Classification::new(0.5f64, Vec::new(), strings(&["cat"]));
    assert_eq!(made.unwrap_err(), RecordError::MisalignedStems);
}

#[test]
fn image_classification_keeps_its_parts() {
    let first = Classification::new(0.9f64, strings(&["cat"]), strings(&["cat"])).unwrap();
    let second = Classification::new(0.1f64, strings(&["dog"]), strings(&["dog"])).unwrap();
    let image =
        ImageClassification::new("pets/cat.png".to_string(), "/home/pets/cat.png".to_string(), vec![first, second])
            .unwrap();
    assert_eq!(image.image_path(), "pets/cat.png");
    assert_eq!(image.absolute_path(), "/home/pets/cat.png");
    assert_eq!(image.classifications().len(), 2);
    assert_eq!(*image.classifications()[1].class(), strings(&["dog"]));
    assert_eq!(*image.top().probability(), 0.9);
    assert_eq!(*image.top().class(), strings(&["cat"]));
}

#[test]
fn image_classification_refuses_no_guess() {
    let made = ImageClassification::<f64>::new("a.png".to_string(), "/a.png".to_string(), Vec::new());
    assert_eq!(made.unwrap_err(), RecordError::NoClassifications);
}

#[test]
fn parse_classifications_normalizes_every_label() {
    let list = parse_classifications(vec![
        (0.8f64, "Tabby, tabby cat".to_string()),
        (0.15f64, "Egyptian cat".to_string()),
        (0.05f64, "running shoes".to_string()),
    ])
    .unwrap();
    assert_eq!(list.len(), 3);
    assert_eq!(*list[0].probability(), 0.8);
    assert_eq!(*list[0].class(), strings(&["tabby", "tabby cat"]));
    assert_eq!(*list[0].stem(), strings(&["tabbi", "tabby cat"]));
    assert_eq!(*list[1].probability(), 0.15);
    assert_eq!(*list[1].class(), strings(&["egyptian cat"]));
    assert_eq!(*list[1].stem(), strings(&["egyptian cat"]));
    assert_eq!(*list[2].probability(), 0.05);
    assert_eq!(*list[2].class(), strings(&["running shoes"]));
    assert_eq!(*list[2].stem(), strings(&["running sho"]));
}

#[test]
fn parse_classifications_of_nothing_is_nothing() {
    let list = parse_classifications(Vec::<(f64, String)>::new()).unwrap();
    assert!(list.is_empty());
}

#[test]
fn parse_classifications_keeps_stems_aligned() {
    let list = parse_classifications(vec![(1i64, "a, , b, ".to_string()), (2i64, String::new())]).unwrap();
    assert_eq!(*list[0].class(), strings(&["a", "", "b", ""]));
    assert_eq!(list[0].stem().len(), 4);
    assert_eq!(*list[1].class(), strings(&[""]));
    assert_eq!(*list[1].stem(), strings(&[""]));
}

#[test]
fn classify_builds_the_record() {
    let image = classify(
        "pets/cat.png",
        "/home/pets/cat.png",
        vec![(0.8f64, "tabby, tabby cat".to_string()), (0.2f64, "lynx, catamount".to_string())],
    )
    .unwrap();
    assert_eq!(image.image_path(), "pets/cat.png");
    assert_eq!(image.absolute_path(), "/home/pets/cat.png");
    assert_eq!(image.classifications().len(), 2);
    assert_eq!(*image.top().probability(), 0.8);
    assert_eq!(*image.top().class(), strings(&["tabby", "tabby cat"]));
    assert_eq!(*image.top().stem(), strings(&["tabbi", "tabby cat"]));
    assert_eq!(*image.classifications()[1].class(), strings(&["lynx", "catamount"]));
}

#[test]
fn classify_refuses_no_prediction() {
    let made = classify("a.png", "/a.png", Vec::<(f64, String)>::new());
    assert_eq!(made.unwrap_err(), ClassifyError::NoPredictions);
}

#[test]
fn classify_refuses_a_label_over_the_limit() {
    let label = String::from_utf8(vec![0u8; MAX_PHRASE_BYTES + 1]).unwrap();
    let made = classify("a.png", "/a.png", vec![(0.9f64, "cat".to_string()), (0.1f64, label)]);
    assert_eq!(made.unwrap_err(), ClassifyError::LabelTooLong);
}

#[test]
fn record_can_be_rebuilt_from_its_parts() {
    let image = classify(
        "pets/cat.png",
        "/home/pets/cat.png",
        vec![(0.8f64, "tabby, tabby cat".to_string()), (0.2f64, "lynx".to_string())],
    )
    .unwrap();
    let mut guesses = Vec::new();
    for guess in image.classifications() {
        guesses.push(Classification::new(*guess.probability(), guess.class().clone(), guess.stem().clone()).unwrap());
    }
    let again =
        ImageClassification::new(image.image_path().clone(), image.absolute_path().clone(), guesses).unwrap();
    assert_eq!(again.image_path(), image.image_path());
    assert_eq!(again.absolute_path(), image.absolute_path());
    assert_eq!(again.classifications().len(), image.classifications().len());
    for (new, old) in again.classifications().iter().zip(image.classifications()) {
        assert_eq!(new.probability(), old.probability());
        assert_eq!(new.class(), old.class());
        assert_eq!(new.stem(), old.stem());
    }
}
