use rake::phrases::extract_candidate_keyphrases;
use rake::text::{join, length_fits, split, split_whitespace, Separator};

fn strings(items: &[&str]) -> Vec<String> {
    items.iter().map(|s| s.to_string()).collect()
}

#[test]
fn words_between_whitespace() {
    assert_eq!(split_whitespace("  two\twords\n"), vec!["two", "words"]);
    assert_eq!(split_whitespace("one"), vec!["one"]);
    assert_eq!(split_whitespace(" \u{a0}\u{2003} "), Vec::<String>::new());
    assert_eq!(split_whitespace(""), Vec::<String>::new());
    assert_eq!(split_whitespace("a\u{3000}b"), vec!["a", "b"]);
}

#[test]
fn words_as_std_splits_them() {
    for text in ["", " ", "a", " a  b ", "x\ty\r\nz", "mixed \u{2028}unicode\u{85}space", "né e"] {
        let expected: Vec<String> = text.split_whitespace().map(|w| w.to_string()).collect();
        assert_eq!(split_whitespace(text), expected);
    }
}

#[test]
fn separators() {
    assert!(Separator::Whitespace.test(' '));
    assert!(Separator::Whitespace.test('\n'));
    assert!(!Separator::Whitespace.test('a'));
    assert!(Separator::LineBreak.test('\n'));
    assert!(!Separator::LineBreak.test(' '));
    assert!(!Separator::LineBreak.test('\r'));
    assert_eq!(split("a b\nc", Separator::LineBreak), vec!["a b", "c"]);
}

#[test]
fn joining_words() {
    assert_eq!(join(&strings(&["a", "bc", "d"])), "a bc d");
    assert_eq!(join(&strings(&["alone"])), "alone");
    assert_eq!(join(&Vec::new()), "");
    assert_eq!(join(&strings(&["né", "", "x y"])), "né  x y");
    length_fits("any text");
}

#[test]
fn joined_words_split_back() {
    let words = strings(&["deep", "learning", "model"]);
    assert_eq!(split_whitespace(&join(&words)), words);
}

#[test]
fn stopwords_cut_phrases() {
    let phrases = extract_candidate_keyphrases(
        &strings(&["the quick brown fox jumps over the lazy dog"]),
        &strings(&["the", "over"]),
    );
    assert_eq!(phrases, strings(&["quick brown fox jumps", "lazy dog"]));
}

#[test]
fn no_phrase_holds_a_stopword() {
    let stopwords = strings(&["is", "a", "of", "and"]);
    let sentences = strings(&[
        "rust is a language of speed and safety",
        "and of a is",
        "speed",
        "",
        "is speed a",
    ]);
    let phrases = extract_candidate_keyphrases(&sentences, &stopwords);
    assert_eq!(phrases, strings(&["rust", "language", "speed", "safety", "speed", "speed"]));
    for phrase in &phrases {
        assert!(!phrase.is_empty());
        for word in phrase.split_whitespace() {
            assert!(!stopwords.contains(&word.to_string()));
        }
    }
}

#[test]
fn neighbouring_stopwords_leave_no_empty_phrase() {
    let phrases =
        extract_candidate_keyphrases(&strings(&["a of of b of"]), &strings(&["of"]));
    assert_eq!(phrases, strings(&["a", "b"]));
}

#[test]
fn a_sentence_of_stopwords_has_no_phrase() {
    let stopwords = strings(&["it", "is", "what"]);
    assert!(extract_candidate_keyphrases(&strings(&["it is what it is"]), &stopwords).is_empty());
    assert!(extract_candidate_keyphrases(&strings(&["", "   "]), &stopwords).is_empty());
    assert!(extract_candidate_keyphrases(&Vec::new(), &stopwords).is_empty());
}

#[test]
fn phrases_do_not_cross_sentences() {
    let phrases = extract_candidate_keyphrases(&strings(&["big red", "car"]), &Vec::new());
    assert_eq!(phrases, strings(&["big red", "car"]));
}

#[test]
fn words_are_joined_by_one_space() {
    let phrases =
        extract_candidate_keyphrases(&strings(&["  big \t red   car "]), &Vec::new());
    assert_eq!(phrases, strings(&["big red car"]));
}

#[test]
fn stopwords_match_by_exact_text() {
    let phrases =
        extract_candidate_keyphrases(&strings(&["the cat The dog"]), &strings(&["The"]));
    assert_eq!(phrases, strings(&["the cat", "dog"]));
}
