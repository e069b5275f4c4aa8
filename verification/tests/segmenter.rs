use rake::segment::{delimiter, extract_sentences, split_sentences};

#[test]
fn sentences_of_the_example() {
    let sentences = extract_sentences("Feature extraction is not that complex.");
    assert_eq!(
        sentences,
        vec!["feature extraction is not that complex".to_string(), String::new()]
    );
}

#[test]
fn consecutive_delimiters_keep_empty_sentences() {
    assert_eq!(split_sentences("a,,b."), vec!["a", "", "b", ""]);
    assert_eq!(split_sentences(".,."), vec!["", "", "", ""]);
}

#[test]
fn empty_text_is_one_empty_sentence() {
    assert_eq!(split_sentences(""), vec![String::new()]);
    assert_eq!(extract_sentences(""), vec![String::new()]);
}

#[test]
fn whitespace_stays_in_the_sentences() {
    assert_eq!(split_sentences(" a , b "), vec![" a ", " b "]);
}

#[test]
fn only_periods_and_commas_cut() {
    assert!(delimiter('.'));
    assert!(delimiter(','));
    assert!(!delimiter(';'));
    assert!(!delimiter('!'));
    assert!(!delimiter(' '));
    assert_eq!(split_sentences("what? yes! no; so: end"), vec!["what? yes! no; so: end"]);
}

#[test]
fn one_sentence_more_than_delimiters() {
    for text in ["", "abc", "a.b", "a.b,c", "...", "1,234.5", "end.", ",start", "Ünï.cödé,"] {
        let delimiters = text.chars().filter(|c| *c == '.' || *c == ',').count();
        assert_eq!(split_sentences(text).len(), delimiters + 1);
        assert_eq!(extract_sentences(text).len(), delimiters + 1);
    }
}

#[test]
fn text_is_lowercased_before_it_is_cut() {
    assert_eq!(extract_sentences("Hello, WORLD. ÄÖ"), vec!["hello", " world", " äö"]);
    assert_eq!(split_sentences("Hello, WORLD"), vec!["Hello", " WORLD"]);
}

#[test]
fn sentences_as_std_splits_them() {
    for text in ["a.b,c", "", ".", "no delimiter", "x,,y..z", "tail,"] {
        let expected: Vec<String> = text.split(&['.', ',']).map(|s| s.to_string()).collect();
        assert_eq!(split_sentences(text), expected);
    }
}
