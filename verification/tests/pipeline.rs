use rake::phrase_scores::calculate_keyphrase_scores;
use rake::phrases::extract_candidate_keyphrases;
use rake::segment::extract_sentences;
use rake::word_scores::calculate_word_scores;
use rake::{Rake, Score, WordStats};

fn number(score: Score) -> f64 {
    score.whole as f64 + score.fraction as f64 / 18446744073709551616.0
}

fn strings(items: &[&str]) -> Vec<String> {
    items.iter().map(|s| s.to_string()).collect()
}

#[test]
fn example_sentence_stage_by_stage() {
    let stopwords = strings(&["is", "not", "that"]);
    let sentences = extract_sentences("Feature extraction is not that complex.");
    assert_eq!(sentences, strings(&["feature extraction is not that complex", ""]));
    let phrases = extract_candidate_keyphrases(&sentences, &stopwords);
    assert_eq!(phrases, strings(&["feature extraction", "complex"]));
    let words = calculate_word_scores(&phrases);
    assert_eq!(words.len(), 3);
    assert_eq!(words.get("feature"), Some(WordStats { frequency: 1, degree: 2 }));
    assert_eq!(words.get("extraction"), Some(WordStats { frequency: 1, degree: 2 }));
    assert_eq!(words.get("complex"), Some(WordStats { frequency: 1, degree: 1 }));
    assert_eq!(number(words.score("feature").unwrap()), 2.0);
    assert_eq!(number(words.score("extraction").unwrap()), 2.0);
    assert_eq!(number(words.score("complex").unwrap()), 1.0);
    assert_eq!(words.score("is"), None);
    let scores = calculate_keyphrase_scores(&phrases, &words);
    assert_eq!(scores.len(), 2);
    assert_eq!(number(scores.get("feature extraction").unwrap()), 4.0);
    assert_eq!(number(scores.get("complex").unwrap()), 1.0);
}

#[test]
fn example_sentence_through_the_pipeline() {
    let mut rake = Rake::new(String::from("Feature extraction is not that complex."));
    rake.process();
    assert_eq!(rake.sentences(), &strings(&["feature extraction is not that complex", ""]));
    assert_eq!(rake.candidate_keyphrases(), &strings(&["feature extraction", "complex"]));
    assert_eq!(rake.keyphrases(), &strings(&["feature extraction", "complex"]));
    let ranked: Vec<(String, f64)> = rake
        .keyphrase_scores_descending()
        .into_iter()
        .map(|(phrase, score)| (phrase, number(score)))
        .collect();
    assert_eq!(
        ranked,
        vec![("feature extraction".to_string(), 4.0), ("complex".to_string(), 1.0)]
    );
    let rising: Vec<(String, f64)> = rake
        .keyphrase_scores_ascending()
        .into_iter()
        .map(|(phrase, score)| (phrase, number(score)))
        .collect();
    assert_eq!(
        rising,
        vec![("complex".to_string(), 1.0), ("feature extraction".to_string(), 4.0)]
    );
}

#[test]
fn a_new_pipeline_holds_the_text_and_english_stopwords() {
    let rake = Rake::new(String::from("Some Text."));
    assert_eq!(rake.text(), "Some Text.");
    assert_eq!(rake.stopwords(), &stop_words::get(stop_words::LANGUAGE::English));
    assert!(rake.sentences().is_empty());
    assert!(rake.candidate_keyphrases().is_empty());
    assert!(rake.keyphrases().is_empty());
    assert_eq!(rake.word_scores().len(), 0);
    assert_eq!(rake.keyphrase_scores().len(), 0);
    assert!(rake.keyphrase_scores_descending().is_empty());
    assert!(rake.keyphrase_scores_ascending().is_empty());
}

#[test]
fn the_same_input_gives_the_same_ranking() {
    let text = "Compatibility of systems of linear constraints over the set of natural numbers. \
                Criteria of compatibility of a system of linear Diophantine equations, strict \
                inequations, and nonstrict inequations are considered.";
    let mut first = Rake::new(text.to_string());
    let mut second = Rake::new(text.to_string());
    first.process();
    second.process();
    assert_eq!(first.keyphrase_scores_descending(), second.keyphrase_scores_descending());
    assert_eq!(first.keyphrase_scores_ascending(), second.keyphrase_scores_ascending());
    assert_eq!(first.keyphrases(), second.keyphrases());
    first.process();
    assert_eq!(first.keyphrase_scores_descending(), second.keyphrase_scores_descending());
    assert_eq!(first.candidate_keyphrases(), second.candidate_keyphrases());
}

#[test]
fn processing_again_replaces_the_earlier_run() {
    let mut rake = Rake::new(String::from("red apple is sweet, red apple"));
    rake.process();
    let once = rake.candidate_keyphrases().clone();
    rake.process();
    assert_eq!(rake.candidate_keyphrases(), &once);
    assert_eq!(once, strings(&["red apple", "sweet", "red apple"]));
}

#[test]
fn an_empty_text_gives_nothing_to_rank() {
    let mut rake = Rake::new(String::new());
    rake.process();
    assert_eq!(rake.sentences(), &strings(&[""]));
    assert!(rake.candidate_keyphrases().is_empty());
    assert_eq!(rake.word_scores().len(), 0);
    assert!(rake.keyphrase_scores_descending().is_empty());
}

#[test]
fn a_text_of_stopwords_gives_nothing_to_rank() {
    let mut rake = Rake::new(String::from("It is not that. And so, it was."));
    rake.process();
    assert_eq!(rake.sentences().len(), 4);
    assert!(rake.candidate_keyphrases().is_empty());
    assert_eq!(rake.word_scores().len(), 0);
    assert_eq!(rake.keyphrase_scores().len(), 0);
    assert!(rake.keyphrase_scores_ascending().is_empty());
}

#[test]
fn stopwords_of_another_language() {
    let mut rake = Rake::new(String::from(
        "RAKE adalah algoritma untuk mengekstraksi kata kunci dari teks",
    ));
    rake.set_stopwords("id");
    rake.process();
    assert_eq!(
        rake.candidate_keyphrases(),
        &strings(&["rake", "algoritma", "mengekstraksi", "kunci", "teks"])
    );
}

#[test]
fn stopwords_from_the_text_of_a_file() {
    let mut rake = Rake::new(String::from("Blue sky over green field"));
    rake.set_stopwords_from_file("over\n\nunder\n");
    assert_eq!(rake.stopwords(), &strings(&["over", "under"]));
    rake.process();
    assert_eq!(rake.candidate_keyphrases(), &strings(&["blue sky", "green field"]));
    let ranked = rake.keyphrase_scores_descending();
    assert_eq!(ranked.len(), 2);
    assert_eq!(ranked[0].0, "green field");
    assert_eq!(ranked[1].0, "blue sky");
    assert_eq!(number(ranked[0].1), 4.0);
    assert_eq!(number(ranked[1].1), 4.0);
}

#[test]
fn changing_stopwords_leaves_the_last_run_in_place() {
    let mut rake = Rake::new(String::from("Blue sky over green field"));
    rake.process();
    let before = rake.keyphrase_scores_descending();
    rake.set_stopwords("my");
    assert_eq!(rake.keyphrase_scores_descending(), before);
    assert_eq!(rake.stopwords(), &stop_words::get(stop_words::LANGUAGE::Malay));
}
