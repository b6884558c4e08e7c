use label_search::label::{normalize_label, split_label, LabelForms};
use label_search::normalize::{
    join_with_spaces, normalize, phrase_of, stem_phrase, NormalizeError, MAX_PHRASE_BYTES,
};

fn strings(items: &[&str]) -> Vec<String> {
    items.iter().map(|item| item.to_string()).collect()
}

#[test]
fn phrase_is_lower_case_joined_with_spaces() {
    assert_eq!(phrase_of("Tabby Cat"), "tabby cat");
    assert_eq!(phrase_of("tabby\tCAT"), "tabby cat");
    assert_eq!(phrase_of("ÀB çD"), "àb çd");
}

#[test]
fn phrase_of_empty_text_is_empty() {
    assert_eq!(phrase_of(""), "");
}

#[test]
fn phrase_keeps_empty_tokens() {
    assert_eq!(phrase_of("a  b"), "a  b");
    assert_eq!(phrase_of(" a"), " a");
    assert_eq!(phrase_of("a "), "a");
}

#[test]
fn stem_phrase_stems_english() {
    assert_eq!(stem_phrase("fruitlessly"), Ok("fruitless".to_string()));
    assert_eq!(stem_phrase("running"), Ok("run".to_string()));
    assert_eq!(stem_phrase("tabby"), Ok("tabbi".to_string()));
}

#[test]
fn stem_phrase_stems_the_phrase_as_one_word() {
    assert_eq!(stem_phrase("tabby cat"), Ok("tabby cat".to_string()));
    assert_eq!(stem_phrase("running dogs"), Ok("running dog".to_string()));
}

#[test]
fn stem_phrase_puts_the_stem_into_lower_case() {
    assert_eq!(stem_phrase("YOUNG"), Ok("young".to_string()));
}

#[test]
fn stem_phrase_takes_any_text() {
    for phrase in ["", " ", "'", "y", "yy", "é", "日本語", "naïve cafés", "a\u{301}", "𝄞s", "''s'"] {
        assert!(stem_phrase(phrase).is_ok(), "{:?}", phrase);
    }
}

#[test]
fn stem_phrase_refuses_a_phrase_over_the_limit() {
    let phrase = String::from_utf8(vec![0u8; MAX_PHRASE_BYTES + 1]).unwrap();
    assert_eq!(stem_phrase(&phrase), Err(NormalizeError::PhraseTooLong));
}

#[test]
fn normalize_gives_phrase_and_stem() {
    let forms = normalize("Running").unwrap();
    assert_eq!(forms.class, "running");
    assert_eq!(forms.stem, "run");
    let forms = normalize("Tabby  Cats").unwrap();
    assert_eq!(forms.class, "tabby  cats");
    assert_eq!(forms.stem, "tabby  cat");
}

#[test]
fn normalize_is_deterministic() {
    for text in ["", "Tabby Cat", "fruitlessly", "house  cat ", "é È"] {
        assert_eq!(normalize(text), normalize(text));
    }
}

#[test]
fn normalize_treats_label_and_query_alike() {
    let label = normalize_label("Tabby Cat").unwrap();
    let query = normalize("Tabby Cat").unwrap();
    assert_eq!(label.stem, vec![query.stem]);
    assert_eq!(label.class, vec![query.class]);
}

#[test]
fn split_label_splits_at_comma_and_space() {
    assert_eq!(split_label("cat, feline, house cat"), vec!["cat", "feline", "house cat"]);
    assert_eq!(split_label("cat"), vec!["cat"]);
}

#[test]
fn split_label_needs_the_space() {
    assert_eq!(split_label("a,b"), vec!["a,b"]);
    assert_eq!(split_label("a ,b"), vec!["a ,b"]);
    assert_eq!(split_label("a,\tb"), vec!["a,\tb"]);
}

#[test]
fn split_label_keeps_empty_parts() {
    assert_eq!(split_label(""), vec![""]);
    assert_eq!(split_label("cat, "), vec!["cat", ""]);
    assert_eq!(split_label(", cat"), vec!["", "cat"]);
    assert_eq!(split_label(", , "), vec!["", "", ""]);
    assert_eq!(split_label(",, "), vec![",", ""]);
    assert_eq!(split_label("a,  b"), vec!["a", " b"]);
}

#[test]
fn split_label_agrees_with_std() {
    for label in ["", ",", ", ", " ,", "a, b", "é, ü, ", ",,  ,, ", "tabby, tabby cat", "x,, y"] {
        assert_eq!(split_label(label), label.split(", ").collect::<Vec<_>>());
    }
}

#[test]
fn normalize_label_normalizes_each_synonym() {
    let forms = normalize_label("Tabby, tabby cat").unwrap();
    assert_eq!(
        forms,
        LabelForms { class: strings(&["tabby", "tabby cat"]), stem: strings(&["tabbi", "tabby cat"]) }
    );
}

#[test]
fn normalize_label_gives_as_many_stems_as_phrases() {
    for label in ["", "cat", "cat, feline, house cat", "a, , b", "Egyptian cat, "] {
        let forms = normalize_label(label).unwrap();
        assert_eq!(forms.class.len(), forms.stem.len());
        assert_eq!(forms.class.len(), label.split(", ").count());
    }
}

#[test]
fn join_with_spaces_puts_one_space_between() {
    assert_eq!(join_with_spaces(&strings(&["tabby", "cat"])), "tabby cat");
    assert_eq!(join_with_spaces(&strings(&["a", "", "b"])), "a  b");
    assert_eq!(join_with_spaces(&strings(&["", "a"])), " a");
    assert_eq!(join_with_spaces(&strings(&["cat"])), "cat");
    assert_eq!(join_with_spaces(&strings(&[""])), "");
    assert_eq!(join_with_spaces(&Vec::new()), "");
}

#[test]
fn stem_phrase_takes_short_texts_of_all_shapes() {
    let letters = ["a", "e", "y", "s", "'", " ", "i", "n", "g", "l", "é", "Y"];
    let mut texts = vec![String::new()];
    for _ in 0..4 {
        let mut longer = Vec::new();
        for text in &texts {
            for letter in letters {
                longer.push(format!("{}{}", text, letter));
            }
        }
        for text in &longer {
            let stemmed = stem_phrase(text).unwrap();
            assert_eq!(stemmed, stemmed.to_lowercase(), "{:?}", text);
        }
        texts = longer;
    }
}

#[test]
fn normalize_takes_the_words_of_a_sentence() {
    for word in "The quick brown foxes were happily jumping over lazy dogs' kennels generously".split(' ') {
        let forms = normalize(word).unwrap();
        assert_eq!(forms.class, word.to_lowercase());
        assert_eq!(Ok(forms.stem), stem_phrase(&word.to_lowercase()));
    }
    assert_eq!(normalize("happily").unwrap().stem, "happili");
    assert_eq!(normalize("Generously").unwrap().stem, "generous");
    assert_eq!(normalize("foxes").unwrap().stem, "fox");
}
