//! Phrase scores: each candidate phrase scores the sum of the scores of
//! its words.

use vstd::prelude::*;
use crate::ordered::{distinct, lemma_distinct, OrderedMap};
use crate::score::{Score, WordStats, UNIT};
use crate::text::{split_whitespace, words};
use crate::word_scores::WordScores;

verus! {

/// What `word` adds to a phrase's score, in units of 2^-64: its score, or
/// nothing if it has none.
pub open spec fn word_units(word: Seq<char>, scores: Map<Seq<char>, WordStats>) -> nat {
    if scores.contains_key(word) {
        scores[word].score_units()
    } else {
        0
    }
}

/// The sum of the scores of `tokens`, in units of 2^-64.
pub open spec fn sum_units(tokens: Seq<Seq<char>>, scores: Map<Seq<char>, WordStats>) -> nat
    decreases tokens.len(),
{
    if tokens.len() == 0 {
        0
    } else {
        sum_units(tokens.drop_last(), scores) + word_units(tokens.last(), scores)
    }
}

/// The score of `phrase` in units of 2^-64: the sum of the scores of its
/// words, one summand for each occurrence of a word.
pub open spec fn phrase_units(phrase: Seq<char>, scores: Map<Seq<char>, WordStats>) -> nat {
    sum_units(words(phrase), scores)
}

/// Whether `phrases` and `scores` rate the candidate phrases `candidates`
/// under the word scores `table`: the distinct candidates in order of first
/// occurrence, each with the sum of the scores of its words.
pub open spec fn rated(
    phrases: Seq<Seq<char>>,
    scores: Seq<Score>,
    candidates: Seq<Seq<char>>,
    table: Map<Seq<char>, WordStats>,
) -> bool {
    &&& phrases == distinct(candidates)
    &&& scores.len() == phrases.len()
    &&& forall|i: int|
        0 <= i < phrases.len() ==> (#[trigger] scores[i])@ == phrase_units(phrases[i], table)
}

/// The phrase scores of a text: its distinct candidate phrases in the
/// order of their first occurrence, each with its score.
pub struct PhraseScores {
    map: OrderedMap<Score>,
}

impl PhraseScores {
    /// The phrases, in the order of their first occurrence.
    pub closed spec fn phrases(&self) -> Seq<Seq<char>> {
        self.map.keys()
    }

    /// The score of each phrase, at the place of the phrase.
    pub closed spec fn scores(&self) -> Seq<Score> {
        self.map.values()
    }

    /// No phrase is listed twice and every phrase has a score.
    pub closed spec fn wf(&self) -> bool {
        self.map.wf()
    }

    /// The map from each phrase to its score.
    pub open spec fn view(&self) -> Map<Seq<char>, Score> {
        Map::new(
            |phrase: Seq<char>| self.phrases().contains(phrase),
            |phrase: Seq<char>| self.scores()[self.phrases().index_of(phrase)],
        )
    }

    /// Whether these are the scores of `phrases` under the word scores
    /// `scores`: the distinct phrases in order of first occurrence, each
    /// with the sum of the scores of its words.
    pub open spec fn rates(
        &self,
        phrases: Seq<Seq<char>>,
        scores: Map<Seq<char>, WordStats>,
    ) -> bool {
        rated(self.phrases(), self.scores(), phrases, scores)
    }

    /// What well-formed scores hold: as many scores as phrases, no phrase
    /// twice, and the view maps each phrase to its score.
    pub proof fn lemma_wf(&self)
        requires
            self.wf(),
        ensures
            self.scores().len() == self.phrases().len(),
            self.phrases().no_duplicates(),
            forall|i: int|
                0 <= i < self.phrases().len() ==> self@.contains_key(#[trigger] self.phrases()[i])
                    && self@[self.phrases()[i]] == self.scores()[i],
    {
        self.map.lemma_wf();
    }

    /// Scores of no phrase.
    pub fn new() -> (scores: PhraseScores)
        ensures
            scores.wf(),
            scores.phrases() == Seq::<Seq<char>>::empty(),
            scores.scores() == Seq::<Score>::empty(),
    {
        PhraseScores { map: OrderedMap::new() }
    }

    /// The number of distinct phrases.
    pub fn len(&self) -> (n: usize)
        requires
            self.wf(),
        ensures
            n == self.phrases().len(),
            n == self.scores().len(),
    {
        self.map.len()
    }

    /// The phrase at place `i` in the order of discovery.
    pub fn phrase(&self, i: usize) -> (phrase: &String)
        requires
            self.wf(),
            i < self.phrases().len(),
        ensures
            phrase@ == self.phrases()[i as int],
    {
        self.map.key(i)
    }

    /// The score at place `i` in the order of discovery.
    pub fn score_at(&self, i: usize) -> (score: Score)
        requires
            self.wf(),
            i < self.scores().len(),
        ensures
            score == self.scores()[i as int],
    {
        *self.map.value(i)
    }

    /// The phrases, in the order of their first occurrence.
    pub fn keys(&self) -> (keys: Vec<String>)
        requires
            self.wf(),
        ensures
            keys.deep_view() == self.phrases(),
    {
        let mut keys: Vec<String> = Vec::new();
        let mut i: usize = 0;
        while i < self.map.len()
            invariant
                self.wf(),
                i <= self.phrases().len(),
                keys.deep_view() == self.phrases().take(i as int),
            decreases self.phrases().len() - i,
        {
            let ghost before = keys.deep_view();
            keys.push(self.map.key(i).clone());
            assert(keys.deep_view() == before.push(self.phrases()[i as int]));
            i += 1;
        }
        assert(self.phrases().take(self.phrases().len() as int) == self.phrases());
        keys
    }

    /// The score of `phrase`, if it is a candidate phrase of the text.
    pub fn get(&self, phrase: &str) -> (found: Option<Score>)
        requires
            self.wf(),
        ensures
            found == if self@.contains_key(phrase@) {
                Some(self@[phrase@])
            } else {
                None
            },
    {
        proof {
            self.map.lemma_wf();
        }
        match self.map.position(phrase) {
            Some(i) => Some(*self.map.value(i)),
            None => None,
        }
    }
}

/// Adds up the scores of the words of `phrase`. A word without a score
/// adds nothing.
pub fn score_phrase(phrase: &str, word_scores: &WordScores) -> (total: Score)
    requires
        word_scores.wf(),
    ensures
        total@ == phrase_units(phrase@, word_scores@),
{
    let tokens = split_whitespace(phrase);
    let ghost all = tokens.deep_view();
    let mut total = Score::zero();
    let mut j: usize = 0;
    while j < tokens.len()
        invariant
            j <= tokens.len(),
            all == tokens.deep_view(),
            word_scores.wf(),
            total@ == sum_units(all.take(j as int), word_scores@),
            total@ <= j * (u64::MAX * UNIT),
        decreases tokens.len() - j,
    {
        proof {
            assert(all.take(j + 1).drop_last() == all.take(j as int));
            assert(all.take(j + 1).last() == tokens[j as int]@);
            assert((j + 1) * (u64::MAX * UNIT) <= u128::MAX * UNIT) by (nonlinear_arith)
                requires
                    j + 1 <= u64::MAX,
                    UNIT == 0x1_0000_0000_0000_0000,
            ;
            assert((j + 1) * (u64::MAX * UNIT) == j * (u64::MAX * UNIT) + u64::MAX * UNIT)
                by (nonlinear_arith);
        }
        match word_scores.score(tokens[j].as_str()) {
            Some(score) => {
                total = total.plus(score);
            },
            None => {},
        }
        j += 1;
    }
    assert(all.take(tokens.len() as int) == all);
    total
}

/// Scores every phrase by the sum of the scores of its words. A phrase
/// that occurs again is scored again, to the same score, and stays listed
/// once.
pub fn calculate_keyphrase_scores(phrases: &Vec<String>, word_scores: &WordScores) -> (scores:
    PhraseScores)
    requires
        word_scores.wf(),
    ensures
        scores.wf(),
        scores.rates(phrases.deep_view(), word_scores@),
        forall|phrase: Seq<char>| #[trigger]
            scores@.contains_key(phrase) <==> phrases.deep_view().contains(phrase),
        forall|phrase: Seq<char>| #[trigger]
            scores@.contains_key(phrase) ==> scores@[phrase]@ == phrase_units(phrase, word_scores@),
{
    let ghost all = phrases.deep_view();
    let mut scores = PhraseScores::new();
    let mut i: usize = 0;
    while i < phrases.len()
        invariant
            i <= phrases.len(),
            all == phrases.deep_view(),
            word_scores.wf(),
            scores.wf(),
            scores.rates(all.take(i as int), word_scores@),
        decreases phrases.len() - i,
    {
        proof {
            assert(all.take(i + 1).drop_last() == all.take(i as int));
            assert(all.take(i + 1).last() == phrases[i as int]@);
        }
        let total = score_phrase(phrases[i].as_str(), word_scores);
        match scores.map.position(phrases[i].as_str()) {
            Some(place) => {
                scores.map.set(place, total);
            },
            None => {
                scores.map.push(phrases[i].clone(), total);
            },
        }
        i += 1;
    }
    proof {
        assert(all.take(phrases.len() as int) == all);
        lemma_distinct(all);
        scores.lemma_wf();
        assert forall|phrase: Seq<char>| #[trigger] scores@.contains_key(phrase) implies
            scores@[phrase]@ == phrase_units(phrase, word_scores@) by {
            scores.phrases().index_of_first_ensures(phrase);
        }
    }
    scores
}

} // verus!
