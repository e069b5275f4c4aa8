//! Word scores: for each word of the candidate phrases its frequency, its
//! degree and the quotient of the two.

use vstd::prelude::*;
use crate::ordered::{distinct, OrderedMap};
use crate::score::{
    lemma_ratio_bound, lemma_ratio_of_equals, ratio_units, Score, WordStats, UNIT,
};
use crate::text::{
    lemma_runs_are_runs, split_whitespace, total_len, total_length, words, Separator,
};

verus! {

/// One occurrence of a word in a candidate phrase, with the number of
/// words of that phrase.
pub struct Occurrence {
    pub word: Seq<char>,
    pub degree: nat,
}

/// The occurrences that a phrase made of `tokens` gives: one for each
/// token, each with the number of tokens.
pub open spec fn tagged(tokens: Seq<Seq<char>>) -> Seq<Occurrence> {
    Seq::new(tokens.len(), |j: int| Occurrence { word: tokens[j], degree: tokens.len() })
}

/// All word occurrences of the phrases, in reading order. Each phrase is
/// split at whitespace.
pub open spec fn occurrences(phrases: Seq<Seq<char>>) -> Seq<Occurrence>
    decreases phrases.len(),
{
    if phrases.len() == 0 {
        Seq::empty()
    } else {
        occurrences(phrases.drop_last()) + tagged(words(phrases.last()))
    }
}

/// How many of the occurrences are of `word`.
pub open spec fn frequency_in(list: Seq<Occurrence>, word: Seq<char>) -> nat
    decreases list.len(),
{
    if list.len() == 0 {
        0
    } else {
        frequency_in(list.drop_last(), word) + if list.last().word == word {
            1nat
        } else {
            0nat
        }
    }
}

/// The sum of the degrees of the occurrences of `word`.
pub open spec fn degree_in(list: Seq<Occurrence>, word: Seq<char>) -> nat
    decreases list.len(),
{
    if list.len() == 0 {
        0
    } else {
        degree_in(list.drop_last(), word) + if list.last().word == word {
            list.last().degree
        } else {
            0nat
        }
    }
}

/// The word of each occurrence.
pub open spec fn occurring(list: Seq<Occurrence>) -> Seq<Seq<char>> {
    Seq::new(list.len(), |k: int| list[k].word)
}

/// The distinct words of the occurrences, each at the place of its first
/// occurrence.
pub open spec fn discovered(list: Seq<Occurrence>) -> Seq<Seq<char>> {
    distinct(occurring(list))
}

/// How often `word` occurs in the phrases.
pub open spec fn frequency_total(phrases: Seq<Seq<char>>, word: Seq<char>) -> nat {
    frequency_in(occurrences(phrases), word)
}

/// The sum, over the occurrences of `word` in the phrases, of the word
/// count of the phrase that holds the occurrence.
pub open spec fn degree_total(phrases: Seq<Seq<char>>, word: Seq<char>) -> nat {
    degree_in(occurrences(phrases), word)
}

/// Whether every occurrence has a degree of at most `bound`.
pub open spec fn degrees_within(list: Seq<Occurrence>, bound: nat) -> bool {
    forall|k: int| 0 <= k < list.len() ==> (#[trigger] list[k]).degree <= bound
}

/// The map from each of `words` to the entry of `stats` at its place.
pub open spec fn table(words: Seq<Seq<char>>, stats: Seq<WordStats>) -> Map<Seq<char>, WordStats> {
    Map::new(|word: Seq<char>| words.contains(word), |word: Seq<char>| stats[words.index_of(word)])
}

/// Whether `words` and `stats` are the tally of the occurrences `list`:
/// the words in order of first occurrence, each with its frequency and its
/// degree in `list`.
pub open spec fn tallies(
    words: Seq<Seq<char>>,
    stats: Seq<WordStats>,
    list: Seq<Occurrence>,
) -> bool {
    &&& words == discovered(list)
    &&& stats.len() == words.len()
    &&& forall|i: int|
        0 <= i < words.len() ==> (#[trigger] stats[i]).frequency == frequency_in(list, words[i])
            && stats[i].degree == degree_in(list, words[i])
}

/// The word scores of a text: the distinct words of its candidate phrases
/// in the order of their first occurrence, each with its frequency and its
/// degree.
pub struct WordScores {
    map: OrderedMap<WordStats>,
}

impl WordScores {
    /// The words, in the order of their first occurrence.
    pub closed spec fn words(&self) -> Seq<Seq<char>> {
        self.map.keys()
    }

    /// Frequency and degree of each word, at the place of the word.
    pub closed spec fn stats(&self) -> Seq<WordStats> {
        self.map.values()
    }

    /// No word is listed twice, every word has occurred at least once, and
    /// no degree is beyond what `u64::MAX` words in each phrase would give.
    pub closed spec fn wf(&self) -> bool {
        &&& self.map.wf()
        &&& forall|i: int|
            0 <= i < self.map.values().len() ==> (#[trigger] self.map.values()[i]).frequency > 0
                && self.map.values()[i].degree <= self.map.values()[i].frequency * u64::MAX
    }

    /// The map from each word to its frequency and degree.
    pub open spec fn view(&self) -> Map<Seq<char>, WordStats> {
        table(self.words(), self.stats())
    }

    /// Whether the scores are those of the occurrences `list`: the words
    /// in order of discovery, each with its frequency and degree in `list`.
    pub open spec fn counts(&self, list: Seq<Occurrence>) -> bool {
        tallies(self.words(), self.stats(), list)
    }

    /// What well-formed scores hold: as many entries as words, no word
    /// twice, every frequency positive and every degree bounded by it.
    pub proof fn lemma_wf(&self)
        requires
            self.wf(),
        ensures
            self.stats().len() == self.words().len(),
            self.words().no_duplicates(),
            forall|i: int|
                0 <= i < self.words().len() ==> self@.contains_key(#[trigger] self.words()[i])
                    && self@[self.words()[i]] == self.stats()[i],
            forall|i: int|
                0 <= i < self.stats().len() ==> (#[trigger] self.stats()[i]).frequency > 0
                    && self.stats()[i].degree <= self.stats()[i].frequency * u64::MAX,
    {
        self.map.lemma_wf();
    }

    /// Scores of no word.
    pub fn new() -> (scores: WordScores)
        ensures
            scores.wf(),
            scores.counts(Seq::empty()),
    {
        WordScores { map: OrderedMap::new() }
    }

    /// The number of distinct words.
    pub fn len(&self) -> (n: usize)
        requires
            self.wf(),
        ensures
            n == self.words().len(),
    {
        self.map.len()
    }

    /// The word at place `i` in the order of discovery.
    pub fn word(&self, i: usize) -> (word: &String)
        requires
            self.wf(),
            i < self.words().len(),
        ensures
            word@ == self.words()[i as int],
    {
        self.map.key(i)
    }

    /// Frequency and degree of `word`, if it occurred.
    pub fn get(&self, word: &str) -> (found: Option<WordStats>)
        requires
            self.wf(),
        ensures
            found == if self@.contains_key(word@) {
                Some(self@[word@])
            } else {
                None
            },
            found matches Some(stats) ==> stats.frequency > 0 && stats.degree <= stats.frequency
                * u64::MAX,
    {
        proof {
            self.map.lemma_wf();
        }
        match self.map.position(word) {
            Some(i) => Some(*self.map.value(i)),
            None => None,
        }
    }

    /// The score of `word`, if it occurred: its degree by its frequency.
    pub fn score(&self, word: &str) -> (found: Option<Score>)
        requires
            self.wf(),
        ensures
            match found {
                Some(score) => self@.contains_key(word@) && score@ == self@[word@].score_units()
                    && score@ <= u64::MAX * UNIT,
                None => !self@.contains_key(word@),
            },
    {
        match self.get(word) {
            Some(stats) => {
                proof {
                    lemma_ratio_bound(stats.degree as nat, stats.frequency as nat, u64::MAX as nat);
                }
                Some(stats.score())
            },
            None => None,
        }
    }

    /// Counts one more occurrence of `word`, in a phrase of `degree` words.
    fn record(&mut self, word: &String, degree: usize, Ghost(list): Ghost<Seq<Occurrence>>)
        requires
            old(self).wf(),
            old(self).counts(list),
            degrees_within(list, u64::MAX as nat),
            list.len() < usize::MAX,
        ensures
            final(self).wf(),
            final(self).counts(list.push(Occurrence { word: word@, degree: degree as nat })),
    {
        let ghost next = Occurrence { word: word@, degree: degree as nat };
        let ghost after = list.push(next);
        proof {
            self.map.lemma_wf();
            assert(after.drop_last() == list);
            assert(occurring(after).drop_last() == occurring(list));
            assert(occurring(after).last() == word@);
            lemma_tally(list, word@, u64::MAX as nat);
            assert forall|i: int| 0 <= i < self.words().len() implies frequency_in(
                list,
                #[trigger] self.words()[i],
            ) <= list.len() && degree_in(list, self.words()[i]) <= frequency_in(list, self.words()[i])
                * u64::MAX by {
                lemma_tally(list, self.words()[i], u64::MAX as nat);
            }
        }
        match self.map.position(word.as_str()) {
            Some(i) => {
                let stats = *self.map.value(i);
                assert(stats.degree + degree <= (stats.frequency + 1) * u64::MAX)
                    by (nonlinear_arith)
                    requires
                        stats.degree <= stats.frequency * u64::MAX,
                        degree <= u64::MAX,
                ;
                assert((stats.frequency + 1) * u64::MAX <= u128::MAX) by (nonlinear_arith)
                    requires
                        stats.frequency + 1 <= u64::MAX,
                ;
                self.map.set(
                    i,
                    WordStats {
                        frequency: stats.frequency + 1,
                        degree: stats.degree + degree as u128,
                    },
                );
            },
            None => {
                self.map.push(word.clone(), WordStats { frequency: 1, degree: degree as u128 });
            },
        }
    }
}

/// Counts, for every word of the phrases, how often it occurs and in how
/// long phrases. The phrases are split at whitespace.
pub fn calculate_word_scores(phrases: &Vec<String>) -> (scores: WordScores)
    requires
        total_len(phrases.deep_view()) <= usize::MAX,
    ensures
        scores.wf(),
        scores.counts(occurrences(phrases.deep_view())),
        forall|word: Seq<char>| #[trigger]
            scores@.contains_key(word) <==> frequency_total(phrases.deep_view(), word) > 0,
        forall|word: Seq<char>| #[trigger]
            scores@.contains_key(word) ==> scores@[word].frequency == frequency_total(
                phrases.deep_view(),
                word,
            ) && scores@[word].degree == degree_total(phrases.deep_view(), word),
{
    let ghost all = phrases.deep_view();
    let mut scores = WordScores::new();
    let mut i: usize = 0;
    proof {
        lemma_occurrences_len(all);
    }
    while i < phrases.len()
        invariant
            i <= phrases.len(),
            all == phrases.deep_view(),
            occurrences(all).len() <= usize::MAX,
            scores.wf(),
            scores.counts(occurrences(all.take(i as int))),
            degrees_within(occurrences(all.take(i as int)), u64::MAX as nat),
        decreases phrases.len() - i,
    {
        let tokens = split_whitespace(phrases[i].as_str());
        let degree = tokens.len();
        let ghost before = occurrences(all.take(i as int));
        let ghost added = tagged(tokens.deep_view());
        proof {
            assert(all.take(i + 1).drop_last() == all.take(i as int));
            assert(all.take(i + 1).last() == phrases[i as int]@);
            assert(occurrences(all.take(i + 1)) == before + added);
            lemma_occurrences_grow(all, i + 1);
            assert(added.take(0) == Seq::<Occurrence>::empty());
            assert(before + added.take(0) == before);
        }
        let mut j: usize = 0;
        while j < tokens.len()
            invariant
                j <= tokens.len(),
                degree == tokens.len(),
                added == tagged(tokens.deep_view()),
                before.len() + added.len() <= usize::MAX,
                scores.wf(),
                scores.counts(before + added.take(j as int)),
                degrees_within(before + added.take(j as int), u64::MAX as nat),
            decreases tokens.len() - j,
        {
            let ghost done = before + added.take(j as int);
            proof {
                assert(added[j as int] == Occurrence {
                    word: tokens[j as int]@,
                    degree: degree as nat,
                });
                assert(before + added.take(j + 1) == done.push(added[j as int]));
            }
            scores.record(&tokens[j], degree, Ghost(done));
            proof {
                let grown = done.push(added[j as int]);
                assert forall|k: int| 0 <= k < grown.len() implies (#[trigger] grown[k]).degree
                    <= u64::MAX by {
                    if k < done.len() {
                        assert(grown[k] == done[k]);
                    }
                }
            }
            j += 1;
        }
        proof {
            assert(added.take(tokens.len() as int) == added);
        }
        i += 1;
    }
    proof {
        assert(all.take(phrases.len() as int) == all);
        assert forall|word: Seq<char>| #[trigger]
            scores@.contains_key(word) <==> frequency_total(all, word) > 0 by {
            lemma_table_of_tally(scores.words(), scores.stats(), all, word);
        }
        assert forall|word: Seq<char>| #[trigger] scores@.contains_key(word) implies
            scores@[word].frequency == frequency_total(all, word) && scores@[word].degree
                == degree_total(all, word) by {
            lemma_table_of_tally(scores.words(), scores.stats(), all, word);
        }
    }
    scores
}

/// The word scores of `phrases`, as [`calculate_word_scores`] counts them,
/// for phrases of any length: there are none if the phrases are together
/// longer than `usize::MAX` characters.
pub fn checked_word_scores(phrases: &Vec<String>) -> (found: Option<WordScores>)
    ensures
        match found {
            Some(scores) => total_len(phrases.deep_view()) <= usize::MAX && scores.wf()
                && scores.counts(occurrences(phrases.deep_view())),
            None => total_len(phrases.deep_view()) > usize::MAX,
        },
{
    match total_length(phrases) {
        Some(_) => Some(calculate_word_scores(phrases)),
        None => None,
    }
}

/// A word is discovered exactly if it occurs; no word occurs more often
/// than there are occurrences; a word that does not occur has degree
/// nought; and a degree is at most the frequency times the largest degree
/// of an occurrence.
pub proof fn lemma_tally(list: Seq<Occurrence>, word: Seq<char>, bound: nat)
    requires
        degrees_within(list, bound),
    ensures
        discovered(list).contains(word) <==> frequency_in(list, word) > 0,
        frequency_in(list, word) <= list.len(),
        frequency_in(list, word) == 0 ==> degree_in(list, word) == 0,
        degree_in(list, word) <= frequency_in(list, word) * bound,
        discovered(list).no_duplicates(),
    decreases list.len(),
{
    if list.len() > 0 {
        let init = list.drop_last();
        let last = list.last();
        assert(occurring(list).drop_last() == occurring(init));
        assert(occurring(list).last() == last.word);
        assert(degrees_within(init, bound)) by {
            assert forall|k: int| 0 <= k < init.len() implies (#[trigger] init[k]).degree <= bound by {
                assert(init[k] == list[k]);
            }
        }
        lemma_tally(init, word, bound);
        lemma_tally(init, last.word, bound);
        let before = discovered(init);
        if !before.contains(last.word) {
            let after = before.push(last.word);
            assert(after[before.len() as int] == last.word);
            if before.contains(word) {
                let at = choose|at: int| 0 <= at < before.len() && before[at] == word;
                assert(after[at] == word);
            }
            if after.contains(word) && word != last.word {
                let at = choose|at: int| 0 <= at < after.len() && after[at] == word;
                assert(before[at] == word);
            }
        }
        assert(frequency_in(init, word) * bound + bound == (frequency_in(init, word) + 1) * bound)
            by (nonlinear_arith);
    }
}

/// Frequencies and degrees of two lists of occurrences add up.
pub proof fn lemma_tally_concat(a: Seq<Occurrence>, b: Seq<Occurrence>, word: Seq<char>)
    ensures
        frequency_in(a + b, word) == frequency_in(a, word) + frequency_in(b, word),
        degree_in(a + b, word) == degree_in(a, word) + degree_in(b, word),
    decreases b.len(),
{
    if b.len() == 0 {
        assert(a + b == a);
    } else {
        lemma_tally_concat(a, b.drop_last(), word);
        assert((a + b).drop_last() == a + b.drop_last());
    }
}

/// Where every occurrence has the degree `n`, the degree of a word is `n`
/// times its frequency, and a word that occurs is the word of some
/// occurrence.
pub proof fn lemma_tally_uniform(list: Seq<Occurrence>, word: Seq<char>, n: nat)
    requires
        forall|k: int| 0 <= k < list.len() ==> (#[trigger] list[k]).degree == n,
    ensures
        degree_in(list, word) == frequency_in(list, word) * n,
        frequency_in(list, word) > 0 ==> exists|k: int|
            0 <= k < list.len() && (#[trigger] list[k]).word == word,
    decreases list.len(),
{
    if list.len() == 0 {
        assert(0 * n == 0) by (nonlinear_arith);
    } else {
        let init = list.drop_last();
        assert forall|k: int| 0 <= k < init.len() implies (#[trigger] init[k]).degree == n by {
            assert(init[k] == list[k]);
        }
        lemma_tally_uniform(init, word, n);
        assert(frequency_in(init, word) * n + n == (frequency_in(init, word) + 1) * n)
            by (nonlinear_arith);
        assert(list.last().degree == n);
        if frequency_in(list, word) > 0 {
            if list.last().word == word {
                assert(list[list.len() - 1].word == word);
            } else {
                let k = choose|k: int| 0 <= k < init.len() && (#[trigger] init[k]).word == word;
                assert(list[k].word == word);
            }
        }
    }
}

/// A word that occurs only in phrases of one word has a degree equal to
/// its frequency, so it scores exactly one.
pub proof fn lemma_single_word_phrases(phrases: Seq<Seq<char>>, word: Seq<char>)
    requires
        forall|k: int|
            0 <= k < phrases.len() && words(#[trigger] phrases[k]).contains(word) ==> words(
                phrases[k],
            ).len() == 1,
    ensures
        degree_total(phrases, word) == frequency_total(phrases, word),
        frequency_total(phrases, word) > 0 ==> ratio_units(
            degree_total(phrases, word),
            frequency_total(phrases, word),
        ) == UNIT,
    decreases phrases.len(),
{
    if phrases.len() > 0 {
        let init = phrases.drop_last();
        let tokens = words(phrases.last());
        assert forall|k: int| 0 <= k < init.len() && words(#[trigger] init[k]).contains(
            word,
        ) implies words(init[k]).len() == 1 by {
            assert(init[k] == phrases[k]);
        }
        lemma_single_word_phrases(init, word);
        lemma_tally_concat(occurrences(init), tagged(tokens), word);
        lemma_tally_uniform(tagged(tokens), word, tokens.len());
        if frequency_in(tagged(tokens), word) > 0 {
            let k = choose|k: int|
                0 <= k < tagged(tokens).len() && (#[trigger] tagged(tokens)[k]).word == word;
            assert(tokens[k] == word);
            assert(tokens.contains(word));
            assert(words(phrases[phrases.len() - 1]).len() == 1);
        }
        let f = frequency_in(tagged(tokens), word);
        assert(f * tokens.len() == f) by (nonlinear_arith)
            requires
                f == 0 || tokens.len() == 1,
        ;
    }
    if frequency_total(phrases, word) > 0 {
        lemma_ratio_of_equals(frequency_total(phrases, word));
    }
}

/// In the tally of the phrases, the words with an entry are those that
/// occur, and the entry of each holds the word's frequency and degree, so
/// that its score is the degree divided by the frequency.
pub proof fn lemma_table_of_tally(
    tally_words: Seq<Seq<char>>,
    stats: Seq<WordStats>,
    phrases: Seq<Seq<char>>,
    word: Seq<char>,
)
    requires
        tallies(tally_words, stats, occurrences(phrases)),
    ensures
        table(tally_words, stats).contains_key(word) <==> frequency_total(phrases, word) > 0,
        frequency_total(phrases, word) > 0 ==> {
            let entry = table(tally_words, stats)[word];
            &&& entry.frequency == frequency_total(phrases, word)
            &&& entry.degree == degree_total(phrases, word)
            &&& entry.score_units() == ratio_units(
                degree_total(phrases, word),
                frequency_total(phrases, word),
            )
        },
{
    let list = occurrences(phrases);
    lemma_occurrences_len(phrases);
    lemma_tally(list, word, total_len(phrases));
    if tally_words.contains(word) {
        tally_words.index_of_first_ensures(word);
    }
}

/// The phrases hold at most as many words as characters.
pub proof fn lemma_occurrences_len(phrases: Seq<Seq<char>>)
    ensures
        occurrences(phrases).len() <= total_len(phrases),
        degrees_within(occurrences(phrases), total_len(phrases)),
    decreases phrases.len(),
{
    if phrases.len() > 0 {
        let init = phrases.drop_last();
        lemma_occurrences_len(init);
        lemma_runs_are_runs(phrases.last(), Separator::Whitespace.predicate());
        let before = occurrences(init);
        let added = tagged(words(phrases.last()));
        assert forall|k: int| 0 <= k < occurrences(phrases).len() implies (#[trigger] occurrences(
            phrases,
        )[k]).degree <= total_len(phrases) by {
            if k < before.len() {
                assert(occurrences(phrases)[k] == before[k]);
            } else {
                assert(occurrences(phrases)[k] == added[k - before.len()]);
            }
        }
    }
}

/// The occurrences of the first phrases are among those of all of them.
pub proof fn lemma_occurrences_grow(phrases: Seq<Seq<char>>, i: int)
    requires
        0 <= i <= phrases.len(),
    ensures
        occurrences(phrases.take(i)).len() <= occurrences(phrases).len(),
    decreases phrases.len() - i,
{
    if i < phrases.len() {
        lemma_occurrences_grow(phrases, i + 1);
        assert(phrases.take(i + 1).drop_last() == phrases.take(i));
    } else {
        assert(phrases.take(i) == phrases);
    }
}

} // verus!
