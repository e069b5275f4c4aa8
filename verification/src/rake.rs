//! The pipeline: a text, its stopwords and what the stages make of them.

use vstd::prelude::*;
use crate::phrase_scores::{calculate_keyphrase_scores, rated, PhraseScores};
use crate::phrases::{candidate_phrases, extract_candidate_keyphrases};
use crate::rank::{ascending, descending, rank_ascending, rank_descending, ranked_view};
use crate::score::{lemma_score_by_view, Score, WordStats};
use crate::segment::{extract_sentences, sentences};
use crate::stopwords::{
    get_stopwords, language_for_code, parse_stopwords, stop_word_list, stopwords_for, Language,
};
use crate::text::{lines, lowercase};
use crate::word_scores::{calculate_word_scores, occurrences, table, tallies, WordScores};

verus! {

/// What a pipeline holds: the text, the stopwords, and the outcome of each
/// stage.
pub struct RakeView {
    /// The text as it was given.
    pub text: Seq<char>,
    /// The stopwords, as listed.
    pub stopwords: Seq<Seq<char>>,
    /// The sentences of the lowercased text.
    pub sentences: Seq<Seq<char>>,
    /// The candidate phrases, repeated ones included.
    pub candidates: Seq<Seq<char>>,
    /// The distinct words of the candidate phrases, in order of discovery.
    pub words: Seq<Seq<char>>,
    /// Frequency and degree of each word, at the place of the word.
    pub stats: Seq<WordStats>,
    /// The distinct candidate phrases, in order of discovery.
    pub phrases: Seq<Seq<char>>,
    /// The score of each phrase, at the place of the phrase.
    pub scores: Seq<Score>,
    /// The keyphrases: the distinct candidate phrases.
    pub keyphrases: Seq<Seq<char>>,
}

impl RakeView {
    /// Whether no stage has run: there are no sentences, phrases or scores.
    pub open spec fn fresh(self) -> bool {
        &&& self.sentences.len() == 0
        &&& self.candidates.len() == 0
        &&& self.words.len() == 0
        &&& self.stats.len() == 0
        &&& self.phrases.len() == 0
        &&& self.scores.len() == 0
        &&& self.keyphrases.len() == 0
    }

    /// Whether every stage holds what it makes of the stage before it: the
    /// sentences of the lowercased text, their candidate phrases, the tally
    /// of the words of those, the score of each distinct phrase, and the
    /// distinct phrases as keyphrases.
    pub open spec fn processed(self) -> bool {
        &&& self.sentences == sentences(lowercase(self.text))
        &&& self.candidates == candidate_phrases(self.sentences, self.stopwords.to_set())
        &&& tallies(self.words, self.stats, occurrences(self.candidates))
        &&& rated(self.phrases, self.scores, self.candidates, table(self.words, self.stats))
        &&& self.keyphrases == self.phrases
    }

    /// The phrases with their scores, lowest score first.
    pub open spec fn ranked_ascending(self) -> Seq<(Seq<char>, Score)> {
        ascending(self.phrases, self.scores)
    }

    /// The phrases with their scores, highest score first.
    pub open spec fn ranked_descending(self) -> Seq<(Seq<char>, Score)> {
        descending(self.phrases, self.scores)
    }
}

/// Two pipelines that have processed the same text with the same set of
/// stopwords hold the same sentences, phrases and scores, and rank the
/// phrases alike.
pub proof fn lemma_deterministic(a: RakeView, b: RakeView)
    requires
        a.processed(),
        b.processed(),
        a.text == b.text,
        a.stopwords.to_set() == b.stopwords.to_set(),
    ensures
        a.sentences == b.sentences,
        a.candidates == b.candidates,
        a.words == b.words,
        a.stats == b.stats,
        a.phrases == b.phrases,
        a.scores == b.scores,
        a.keyphrases == b.keyphrases,
        a.ranked_ascending() == b.ranked_ascending(),
        a.ranked_descending() == b.ranked_descending(),
{
    assert(a.stats == b.stats) by {
        assert forall|i: int| 0 <= i < a.stats.len() implies a.stats[i] == b.stats[i] by {
            assert(a.stats[i].frequency == b.stats[i].frequency);
            assert(a.stats[i].degree == b.stats[i].degree);
        }
    }
    assert(a.scores == b.scores) by {
        assert forall|i: int| 0 <= i < a.scores.len() implies a.scores[i] == b.scores[i] by {
            lemma_score_by_view(a.scores[i], b.scores[i]);
        }
    }
}

/// A keyphrase extractor for one text.
pub struct Rake {
    text: String,
    stopwords: Vec<String>,
    sentences: Vec<String>,
    candidate_keyphrases: Vec<String>,
    word_scores: WordScores,
    keyphrase_scores: PhraseScores,
    keyphrases: Vec<String>,
}

impl Rake {
    #[verifier::type_invariant]
    spec fn valid(self) -> bool {
        self.word_scores.wf() && self.keyphrase_scores.wf()
    }

    /// What the pipeline holds.
    pub closed spec fn view(&self) -> RakeView {
        RakeView {
            text: self.text@,
            stopwords: self.stopwords.deep_view(),
            sentences: self.sentences.deep_view(),
            candidates: self.candidate_keyphrases.deep_view(),
            words: self.word_scores.words(),
            stats: self.word_scores.stats(),
            phrases: self.keyphrase_scores.phrases(),
            scores: self.keyphrase_scores.scores(),
            keyphrases: self.keyphrases.deep_view(),
        }
    }

    /// A pipeline for `text` with the English stopwords. No stage has run.
    pub fn new(text: String) -> (rake: Self)
        ensures
            rake@.text == text@,
            rake@.stopwords == stop_word_list(Language::English),
            rake@.fresh(),
    {
        Rake {
            text,
            stopwords: stopwords_for(Language::English),
            sentences: Vec::new(),
            candidate_keyphrases: Vec::new(),
            word_scores: WordScores::new(),
            keyphrase_scores: PhraseScores::new(),
            keyphrases: Vec::new(),
        }
    }

    /// The text.
    pub fn text(&self) -> (text: &String)
        ensures
            text@ == self@.text,
    {
        &self.text
    }

    /// The stopwords.
    pub fn stopwords(&self) -> (list: &Vec<String>)
        ensures
            list.deep_view() == self@.stopwords,
    {
        &self.stopwords
    }

    /// The sentences of the last run.
    pub fn sentences(&self) -> (list: &Vec<String>)
        ensures
            list.deep_view() == self@.sentences,
    {
        &self.sentences
    }

    /// The candidate phrases of the last run, repeated ones included.
    pub fn candidate_keyphrases(&self) -> (list: &Vec<String>)
        ensures
            list.deep_view() == self@.candidates,
    {
        &self.candidate_keyphrases
    }

    /// The word scores of the last run.
    pub fn word_scores(&self) -> (scores: &WordScores)
        ensures
            scores.wf(),
            scores.words() == self@.words,
            scores.stats() == self@.stats,
    {
        proof {
            use_type_invariant(self);
        }
        &self.word_scores
    }

    /// The phrase scores of the last run.
    pub fn keyphrase_scores(&self) -> (scores: &PhraseScores)
        ensures
            scores.wf(),
            scores.phrases() == self@.phrases,
            scores.scores() == self@.scores,
    {
        proof {
            use_type_invariant(self);
        }
        &self.keyphrase_scores
    }

    /// The distinct candidate phrases of the last run, in the order of
    /// their first occurrence.
    pub fn keyphrases(&self) -> (list: &Vec<String>)
        ensures
            list.deep_view() == self@.keyphrases,
    {
        &self.keyphrases
    }

    /// Runs every stage on the text, with the stopwords as they are now.
    /// What an earlier run left is replaced.
    pub fn process(&mut self)
        ensures
            final(self)@.text == old(self)@.text,
            final(self)@.stopwords == old(self)@.stopwords,
            final(self)@.processed(),
    {
        proof {
            use_type_invariant(&*self);
        }
        let sentences = extract_sentences(self.text.as_str());
        let candidates = extract_candidate_keyphrases(&sentences, &self.stopwords);
        let word_scores = calculate_word_scores(&candidates);
        let keyphrase_scores = calculate_keyphrase_scores(&candidates, &word_scores);
        let keyphrases = keyphrase_scores.keys();
        self.sentences = sentences;
        self.candidate_keyphrases = candidates;
        self.word_scores = word_scores;
        self.keyphrase_scores = keyphrase_scores;
        self.keyphrases = keyphrases;
    }

    /// Replaces the stopwords by the built-in list of the language that
    /// `lang` stands for; English, if it stands for none.
    pub fn set_stopwords(&mut self, lang: &str)
        ensures
            final(self)@ == (RakeView {
                stopwords: stop_word_list(language_for_code(lang@)),
                ..old(self)@
            }),
    {
        proof {
            use_type_invariant(&*self);
        }
        match get_stopwords(lang) {
            Some(list) => {
                self.stopwords = list;
            },
            None => {},
        }
    }

    /// Replaces the stopwords by the non-empty lines of `contents`, the
    /// text of a stopword file, each line as it stands.
    pub fn set_stopwords_from_file(&mut self, contents: &str)
        ensures
            final(self)@ == (RakeView { stopwords: lines(contents@), ..old(self)@ }),
    {
        proof {
            use_type_invariant(&*self);
        }
        self.stopwords = parse_stopwords(contents);
    }

    /// The phrases with their scores, highest score first. Phrases of
    /// equal score come in the reverse order of their discovery.
    pub fn keyphrase_scores_descending(&self) -> (ranked: Vec<(String, Score)>)
        ensures
            ranked_view(ranked@) == self@.ranked_descending(),
    {
        proof {
            use_type_invariant(self);
        }
        rank_descending(&self.keyphrase_scores)
    }

    /// The phrases with their scores, lowest score first. Phrases of
    /// equal score come in the order of their discovery.
    pub fn keyphrase_scores_ascending(&self) -> (ranked: Vec<(String, Score)>)
        ensures
            ranked_view(ranked@) == self@.ranked_ascending(),
    {
        proof {
            use_type_invariant(self);
        }
        rank_ascending(&self.keyphrase_scores)
    }
}

} // verus!
