use rake::get_stopwords;
use rake::stopwords::{
    language_for, parse_stopwords, stopwords_for, to_ascii_lowercase, to_folded, Language,
    StopwordIndex,
};

#[test]
fn indonesian_by_code() {
    let list = get_stopwords("id").unwrap();
    assert_eq!(list, stop_words::get(stop_words::LANGUAGE::Indonesian));
    assert!(list.contains(&"adalah".to_string()));
}

#[test]
fn unknown_code_falls_back_to_english() {
    let list = get_stopwords("zz").unwrap();
    assert_eq!(list, get_stopwords("en").unwrap());
    assert_eq!(list, stop_words::get(stop_words::LANGUAGE::English));
    assert_ne!(list, get_stopwords("id").unwrap());
}

#[test]
fn every_code_finds_a_list() {
    for code in ["", "en", "id", "my", "zz", "english", "Indonesia", "x y"] {
        assert!(get_stopwords(code).is_some());
    }
}

#[test]
fn codes_and_names_of_each_language() {
    for code in ["id", "indonesian", "indonesia"] {
        assert_eq!(language_for(code), Language::Indonesian);
    }
    for code in ["my", "malaysian", "malaysia"] {
        assert_eq!(language_for(code), Language::Malay);
    }
    for code in ["en", "english", "ms", "fr", "", "idn", "i d", " id"] {
        assert_eq!(language_for(code), Language::English);
    }
}

#[test]
fn codes_in_any_case() {
    assert_eq!(language_for("ID"), Language::Indonesian);
    assert_eq!(language_for("Indonesian"), Language::Indonesian);
    assert_eq!(language_for("MALAYSIA"), Language::Malay);
    assert_eq!(language_for("My"), Language::Malay);
    assert_eq!(get_stopwords("Id").unwrap(), get_stopwords("id").unwrap());
}

#[test]
fn malay_by_code() {
    assert_eq!(get_stopwords("my").unwrap(), stop_words::get(stop_words::LANGUAGE::Malay));
    assert_eq!(stopwords_for(Language::Malay), stop_words::get("ms"));
}

#[test]
fn built_in_lists_differ() {
    let english = stopwords_for(Language::English);
    let indonesian = stopwords_for(Language::Indonesian);
    let malay = stopwords_for(Language::Malay);
    assert_eq!(english.len(), 1298);
    assert_eq!(indonesian.len(), 758);
    assert_eq!(malay.len(), 475);
}

#[test]
fn ascii_capitals_are_folded() {
    assert_eq!(to_ascii_lowercase('A'), 'a');
    assert_eq!(to_ascii_lowercase('Z'), 'z');
    assert_eq!(to_ascii_lowercase('m'), 'm');
    assert_eq!(to_ascii_lowercase('@'), '@');
    assert_eq!(to_ascii_lowercase('['), '[');
    assert_eq!(to_ascii_lowercase('É'), 'É');
    assert_eq!(to_folded("InDoNesia É"), "indonesia É");
}

#[test]
fn stopword_file_lines() {
    assert_eq!(parse_stopwords("a\nthe\n\nof"), vec!["a", "the", "of"]);
    assert_eq!(parse_stopwords("\n\n"), Vec::<String>::new());
    assert_eq!(parse_stopwords(""), Vec::<String>::new());
    assert_eq!(parse_stopwords("The \n of\r\n"), vec!["The ", " of\r"]);
}

#[test]
fn index_knows_its_words() {
    let index = StopwordIndex::new(&vec!["a".to_string(), "the".to_string(), "a".to_string()]);
    assert!(index.contains("a"));
    assert!(index.contains("the"));
    assert!(!index.contains("The"));
    assert!(!index.contains(""));
}
