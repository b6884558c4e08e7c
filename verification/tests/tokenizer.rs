use label_search::span::char_width;
use label_search::tokenizer::{char_is_whitespace, tokenize, trimmed};

fn pieces(text: &str) -> Vec<(String, usize)> {
    tokenize(text).iter().map(|token| (token.s.to_string(), token.start_index)).collect()
}

fn piece(text: &str, start: usize) -> (String, usize) {
    (text.to_string(), start)
}

#[test]
fn tokenize_empty_text_has_no_token() {
    assert_eq!(tokenize("").len(), 0);
}

#[test]
fn tokenize_two_words() {
    assert_eq!(pieces("a b"), vec![piece("a", 0), piece("b", 2)]);
}

#[test]
fn tokenize_single_word() {
    assert_eq!(pieces("tabby"), vec![piece("tabby", 0)]);
}

#[test]
fn tokenize_leading_whitespace_gives_empty_token() {
    assert_eq!(pieces(" a"), vec![piece("", 0), piece("a", 1)]);
}

#[test]
fn tokenize_whitespace_run_gives_empty_tokens() {
    assert_eq!(pieces("a  b"), vec![piece("a", 0), piece("", 2), piece("b", 3)]);
    assert_eq!(pieces("a \t\nb"), vec![piece("a", 0), piece("", 2), piece("", 3), piece("b", 4)]);
}

#[test]
fn tokenize_trailing_whitespace_adds_no_token() {
    assert_eq!(pieces("a "), vec![piece("a", 0)]);
    assert_eq!(pieces("a b "), vec![piece("a", 0), piece("b", 2)]);
    assert_eq!(pieces("a  "), vec![piece("a", 0), piece("", 2)]);
}

#[test]
fn tokenize_only_whitespace() {
    assert_eq!(pieces(" "), vec![piece("", 0)]);
    assert_eq!(pieces("  "), vec![piece("", 0), piece("", 1)]);
}

#[test]
fn tokenize_counts_offsets_in_bytes() {
    assert_eq!(pieces("é b"), vec![piece("é", 0), piece("b", 3)]);
    assert_eq!(pieces("日本 語"), vec![piece("日本", 0), piece("語", 7)]);
    assert_eq!(pieces("𝄞 x"), vec![piece("𝄞", 0), piece("x", 5)]);
}

#[test]
fn tokenize_splits_at_wide_whitespace() {
    assert_eq!(pieces("a\u{3000}b"), vec![piece("a", 0), piece("b", 4)]);
    assert_eq!(pieces("a\u{a0}b\u{2003}"), vec![piece("a", 0), piece("b", 3)]);
    assert_eq!(pieces("é"), vec![piece("é", 0)]);
}

#[test]
fn tokenize_tokens_are_slices_of_the_text() {
    let text = "tabby cat,  feline";
    for token in tokenize(text) {
        let end = token.start_index + token.s.len();
        assert_eq!(&text[token.start_index..end], token.s);
        assert!(!token.s.chars().any(char::is_whitespace));
    }
}

#[test]
fn tokenize_is_repeatable() {
    let text = "one two  three";
    assert_eq!(pieces(text), pieces(text));
}

#[test]
fn whitespace_is_the_unicode_property() {
    for code in 0..=0x10FFFFu32 {
        if let Some(c) = char::from_u32(code) {
            assert_eq!(char_is_whitespace(c), c.is_whitespace(), "U+{:04X}", code);
        }
    }
}

#[test]
fn char_width_is_the_encoded_length() {
    for code in 0..=0x10FFFFu32 {
        if let Some(c) = char::from_u32(code) {
            assert_eq!(char_width(c), c.len_utf8(), "U+{:04X}", code);
        }
    }
}

#[test]
fn trimmed_drops_whitespace_at_both_ends() {
    assert_eq!(trimmed("  tabby cat \n"), "tabby cat");
    assert_eq!(trimmed("tabby"), "tabby");
    assert_eq!(trimmed("\u{3000}é b\u{a0}"), "é b");
    assert_eq!(trimmed("a"), "a");
}

#[test]
fn trimmed_keeps_inner_whitespace() {
    assert_eq!(trimmed(" a  b "), "a  b");
}

#[test]
fn trimmed_of_whitespace_is_empty() {
    assert_eq!(trimmed(""), "");
    assert_eq!(trimmed(" \t\n"), "");
}

#[test]
fn trimmed_agrees_with_std() {
    for text in ["", " ", "a", " a", "a ", "  a b  ", "\u{2028}x\u{2029}", "é", " é ", "\t\t"] {
        assert_eq!(trimmed(text), text.trim());
    }
}
