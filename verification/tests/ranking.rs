use rake::phrase_scores::calculate_keyphrase_scores;
use rake::rank::{rank_ascending, rank_descending, rank_places};
use rake::word_scores::calculate_word_scores;
use rake::Score;

fn strings(items: &[&str]) -> Vec<String> {
    items.iter().map(|s| s.to_string()).collect()
}

fn names(ranked: &[(String, Score)]) -> Vec<&str> {
    ranked.iter().map(|(phrase, _)| phrase.as_str()).collect()
}

#[test]
fn ranked_by_score() {
    let phrases = strings(&["a b c", "d", "e f"]);
    let words = calculate_word_scores(&phrases);
    let scores = calculate_keyphrase_scores(&phrases, &words);
    assert_eq!(rank_places(&scores), vec![1, 2, 0]);
    let rising = rank_ascending(&scores);
    assert_eq!(names(&rising), vec!["d", "e f", "a b c"]);
    assert_eq!(rising[0].1, Score { whole: 1, fraction: 0 });
    assert_eq!(rising[1].1, Score { whole: 4, fraction: 0 });
    assert_eq!(rising[2].1, Score { whole: 9, fraction: 0 });
    let falling = rank_descending(&scores);
    assert_eq!(names(&falling), vec!["a b c", "e f", "d"]);
}

#[test]
fn equal_scores_keep_the_order_of_discovery() {
    let phrases = strings(&["x", "p q", "y", "r s", "z"]);
    let words = calculate_word_scores(&phrases);
    let scores = calculate_keyphrase_scores(&phrases, &words);
    assert_eq!(rank_places(&scores), vec![0, 2, 4, 1, 3]);
    assert_eq!(names(&rank_ascending(&scores)), vec!["x", "y", "z", "p q", "r s"]);
    assert_eq!(names(&rank_descending(&scores)), vec!["r s", "p q", "z", "y", "x"]);
}

#[test]
fn the_two_views_are_reverses_and_hold_every_phrase_once() {
    let phrases = strings(&[
        "linear constraints",
        "natural numbers",
        "criteria",
        "linear diophantine equations",
        "strict inequations",
        "nonstrict inequations",
        "criteria",
        "upper bounds",
        "minimal set",
        "linear constraints",
    ]);
    let words = calculate_word_scores(&phrases);
    let scores = calculate_keyphrase_scores(&phrases, &words);
    let rising = rank_ascending(&scores);
    let mut falling = rank_descending(&scores);
    assert_eq!(rising.len(), 8);
    falling.reverse();
    assert_eq!(rising, falling);
    for pair in rising.windows(2) {
        assert!(pair[0].1 <= pair[1].1);
    }
    let mut seen = names(&rising);
    seen.sort();
    let mut expected = scores.keys();
    expected.sort();
    assert_eq!(seen, expected);
    for (phrase, score) in &rising {
        assert_eq!(scores.get(phrase), Some(*score));
    }
}

#[test]
fn nothing_to_rank() {
    let words = calculate_word_scores(&Vec::new());
    let scores = calculate_keyphrase_scores(&Vec::new(), &words);
    assert!(rank_places(&scores).is_empty());
    assert!(rank_ascending(&scores).is_empty());
    assert!(rank_descending(&scores).is_empty());
}

#[test]
fn many_phrases_rank_as_a_stable_sort_does() {
    let mut phrases: Vec<String> = Vec::new();
    for i in 0..200u32 {
        let words = 1 + (i * 7 + 3) % 5;
        let mut phrase = String::new();
        for w in 0..words {
            if w > 0 {
                phrase.push(' ');
            }
            phrase.push_str(&format!("w{}x{}", i, w));
        }
        phrases.push(phrase);
    }
    let words = calculate_word_scores(&phrases);
    let scores = calculate_keyphrase_scores(&phrases, &words);
    let mut expected: Vec<(String, Score)> =
        phrases.iter().map(|p| (p.clone(), scores.get(p).unwrap())).collect();
    expected.sort_by(|a, b| a.1.cmp(&b.1));
    assert_eq!(rank_ascending(&scores), expected);
    expected.reverse();
    assert_eq!(rank_descending(&scores), expected);
}
