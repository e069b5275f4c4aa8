//! Candidate keyphrases: the maximal runs of words of a sentence that hold
//! no stopword, each joined by single spaces.

use vstd::prelude::*;
use crate::stopwords::StopwordIndex;
use crate::text::{
    is_run, is_word, join, join_words, lemma_join_len, lemma_runs_are_runs, lemma_runs_fit,
    lemma_runs_hold_elements, lemma_runs_of_separators, lemma_total_len_concat,
    lemma_words_of_joined, runs, split_whitespace, total_len, words, Separator,
};

verus! {

/// Membership in `stop` as a predicate on words.
pub open spec fn in_set(stop: Set<Seq<char>>) -> spec_fn(Seq<char>) -> bool {
    |word: Seq<char>| stop.contains(word)
}

/// [`join_words`] as a function on lists of words.
pub open spec fn joiner() -> spec_fn(Seq<Seq<char>>) -> Seq<char> {
    |group: Seq<Seq<char>>| join_words(group)
}

/// The maximal runs of words of `sentence` that are not in `stop`.
pub open spec fn word_groups(sentence: Seq<char>, stop: Set<Seq<char>>) -> Seq<Seq<Seq<char>>> {
    runs(words(sentence), in_set(stop))
}

/// The candidate phrases of one sentence, in order.
pub open spec fn sentence_phrases(sentence: Seq<char>, stop: Set<Seq<char>>) -> Seq<Seq<char>> {
    word_groups(sentence, stop).map_values(joiner())
}

/// The candidate phrases of all sentences, in order. A phrase that occurs
/// twice is listed twice.
pub open spec fn candidate_phrases(sentences: Seq<Seq<char>>, stop: Set<Seq<char>>) -> Seq<
    Seq<char>,
>
    decreases sentences.len(),
{
    if sentences.len() == 0 {
        Seq::empty()
    } else {
        candidate_phrases(sentences.drop_last(), stop) + sentence_phrases(sentences.last(), stop)
    }
}

/// Whether `phrase` is made of at least one word, holds no stopword and has
/// exactly one space between neighbouring words and none elsewhere.
pub open spec fn is_candidate(phrase: Seq<char>, stop: Set<Seq<char>>) -> bool {
    &&& words(phrase).len() > 0
    &&& forall|j: int| 0 <= j < words(phrase).len() ==> !stop.contains(#[trigger] words(phrase)[j])
    &&& join_words(words(phrase)) == phrase
}

/// The room that the groups take when each word is followed by one more
/// character: the sum of the lengths of all words, and one for each word.
pub open spec fn spread(groups: Seq<Seq<Seq<char>>>) -> nat
    decreases groups.len(),
{
    if groups.len() == 0 {
        0
    } else {
        spread(groups.drop_last()) + total_len(groups.last()) + groups.last().len()
    }
}

/// Appends to `phrases` the candidate phrases that `tokens` form.
fn append_phrases(phrases: &mut Vec<String>, tokens: &Vec<String>, index: &StopwordIndex)
    ensures
        final(phrases).deep_view() == old(phrases).deep_view() + runs(
            tokens.deep_view(),
            in_set(index@),
        ).map_values(joiner()),
{
    let ghost sep = in_set(index@);
    let ghost all = tokens.deep_view();
    let ghost mut groups: Seq<Seq<Seq<char>>> = Seq::empty();
    let mut buffer: Vec<String> = Vec::new();
    let mut j: usize = 0;
    while j < tokens.len()
        invariant
            j <= tokens.len(),
            all == tokens.deep_view(),
            sep == in_set(index@),
            phrases.deep_view() == old(phrases).deep_view() + groups.map_values(joiner()),
            buffer.len() > 0 <==> (j > 0 && !sep(all[j - 1])),
            runs(all.take(j as int), sep) == if buffer.len() > 0 {
                groups.push(buffer.deep_view())
            } else {
                groups
            },
        decreases tokens.len() - j,
    {
        let ghost prefix = all.take(j + 1);
        let ghost group = buffer.deep_view();
        let ghost listed = phrases.deep_view();
        proof {
            assert(prefix.drop_last() == all.take(j as int));
            assert(prefix.last() == tokens[j as int]@);
        }
        if index.contains(tokens[j].as_str()) {
            if buffer.len() > 0 {
                let phrase = join(&buffer);
                phrases.push(phrase);
                buffer = Vec::new();
                proof {
                    assert(phrases.deep_view() == listed.push(join_words(group)));
                    assert(groups.push(group).map_values(joiner()) == groups.map_values(
                        joiner(),
                    ).push(join_words(group)));
                    groups = groups.push(group);
                }
            }
        } else {
            buffer.push(tokens[j].clone());
            proof {
                assert(buffer.deep_view() == group.push(tokens[j as int]@));
                if group.len() > 0 {
                    assert(prefix[prefix.len() - 2] == all[j - 1]);
                    assert(groups.push(group).drop_last() == groups);
                } else {
                    assert(buffer.deep_view() == seq![tokens[j as int]@]);
                }
            }
        }
        j += 1;
    }
    assert(all.take(tokens.len() as int) == all);
    if buffer.len() > 0 {
        let ghost group = buffer.deep_view();
        let ghost listed = phrases.deep_view();
        let phrase = join(&buffer);
        phrases.push(phrase);
        proof {
            assert(phrases.deep_view() == listed.push(join_words(group)));
            assert(groups.push(group).map_values(joiner()) == groups.map_values(joiner()).push(
                join_words(group),
            ));
        }
    }
}

/// Splits each sentence at whitespace and collects the runs of words that
/// are not stopwords, each run joined by single spaces.
pub fn extract_candidate_keyphrases(sentences: &Vec<String>, stopwords: &Vec<String>) -> (phrases:
    Vec<String>)
    ensures
        phrases.deep_view() == candidate_phrases(
            sentences.deep_view(),
            stopwords.deep_view().to_set(),
        ),
        total_len(phrases.deep_view()) <= total_len(sentences.deep_view()),
{
    proof {
        lemma_candidate_phrases_len(sentences.deep_view(), stopwords.deep_view().to_set());
    }
    let index = StopwordIndex::new(stopwords);
    let ghost stop = index@;
    let mut phrases: Vec<String> = Vec::new();
    let mut i: usize = 0;
    while i < sentences.len()
        invariant
            i <= sentences.len(),
            stop == index@,
            stop == stopwords.deep_view().to_set(),
            phrases.deep_view() == candidate_phrases(sentences.deep_view().take(i as int), stop),
        decreases sentences.len() - i,
    {
        proof {
            let prefix = sentences.deep_view().take(i + 1);
            assert(prefix.drop_last() == sentences.deep_view().take(i as int));
            assert(prefix.last() == sentences[i as int]@);
        }
        let tokens = split_whitespace(sentences[i].as_str());
        append_phrases(&mut phrases, &tokens, &index);
        i += 1;
    }
    assert(sentences.deep_view().take(sentences.len() as int) == sentences.deep_view());
    phrases
}

/// The words of each phrase of a sentence are one of the sentence's word
/// groups, so no phrase is empty and none holds a stopword.
pub proof fn lemma_sentence_phrases(sentence: Seq<char>, stop: Set<Seq<char>>)
    ensures
        sentence_phrases(sentence, stop).len() == word_groups(sentence, stop).len(),
        forall|k: int|
            0 <= k < sentence_phrases(sentence, stop).len() ==> words(
                #[trigger] sentence_phrases(sentence, stop)[k],
            ) == word_groups(sentence, stop)[k],
        forall|k: int|
            0 <= k < sentence_phrases(sentence, stop).len() ==> is_candidate(
                #[trigger] sentence_phrases(sentence, stop)[k],
                stop,
            ),
{
    let tokens = words(sentence);
    let groups = word_groups(sentence, stop);
    lemma_runs_are_runs(sentence, Separator::Whitespace.predicate());
    lemma_runs_are_runs(tokens, in_set(stop));
    lemma_runs_hold_elements(tokens, in_set(stop));
    assert forall|k: int| 0 <= k < groups.len() implies words(
        #[trigger] sentence_phrases(sentence, stop)[k],
    ) == groups[k] && is_candidate(sentence_phrases(sentence, stop)[k], stop) by {
        let group = groups[k];
        assert(is_run(group, in_set(stop)));
        assert forall|j: int| 0 <= j < group.len() implies is_word(#[trigger] group[j]) by {
            assert(tokens.contains(group[j]));
        }
        lemma_words_of_joined(group);
        assert forall|j: int| 0 <= j < group.len() implies !stop.contains(#[trigger] group[j]) by {
            assert(!in_set(stop)(group[j]));
        }
    }
}

/// No candidate phrase is empty, none holds a stopword, and each is its
/// words joined by single spaces.
pub proof fn lemma_candidate_phrases(sentences: Seq<Seq<char>>, stop: Set<Seq<char>>)
    ensures
        forall|k: int|
            0 <= k < candidate_phrases(sentences, stop).len() ==> is_candidate(
                #[trigger] candidate_phrases(sentences, stop)[k],
                stop,
            ),
    decreases sentences.len(),
{
    if sentences.len() > 0 {
        lemma_candidate_phrases(sentences.drop_last(), stop);
        lemma_sentence_phrases(sentences.last(), stop);
        let before = candidate_phrases(sentences.drop_last(), stop);
        let added = sentence_phrases(sentences.last(), stop);
        assert forall|k: int| 0 <= k < candidate_phrases(sentences, stop).len() implies is_candidate(
            #[trigger] candidate_phrases(sentences, stop)[k],
            stop,
        ) by {
            if k < before.len() {
                assert(candidate_phrases(sentences, stop)[k] == before[k]);
            } else {
                assert(candidate_phrases(sentences, stop)[k] == added[k - before.len()]);
            }
        }
    }
}

/// A sentence whose words are all stopwords, or that has no word, yields
/// no candidate phrase: the phrases are those of the other sentences.
pub proof fn lemma_stopwords_only(
    sentences: Seq<Seq<char>>,
    sentence: Seq<char>,
    stop: Set<Seq<char>>,
)
    requires
        forall|j: int|
            0 <= j < words(sentence).len() ==> stop.contains(#[trigger] words(sentence)[j]),
    ensures
        sentence_phrases(sentence, stop).len() == 0,
        candidate_phrases(sentences.push(sentence), stop) == candidate_phrases(sentences, stop),
{
    lemma_runs_of_separators(words(sentence), in_set(stop));
    assert(sentences.push(sentence).drop_last() == sentences);
}

/// The runs of a list of words take no more room than the list.
proof fn lemma_runs_spread(tokens: Seq<Seq<char>>, separator: spec_fn(Seq<char>) -> bool)
    ensures
        spread(runs(tokens, separator)) <= total_len(tokens) + tokens.len(),
    decreases tokens.len(),
{
    if tokens.len() > 0 {
        let init = tokens.drop_last();
        let last = tokens.last();
        let before = runs(init, separator);
        lemma_runs_spread(init, separator);
        lemma_runs_are_runs(init, separator);
        if !separator(last) {
            if tokens.len() >= 2 && !separator(tokens[tokens.len() - 2]) {
                let grown = before.last().push(last);
                let after = before.drop_last().push(grown);
                assert(init.last() == tokens[tokens.len() - 2]);
                assert(after.drop_last() == before.drop_last());
                assert(after.last() == grown);
                assert(grown.drop_last() == before.last());
                assert(spread(after) == spread(before.drop_last()) + total_len(grown)
                    + grown.len());
                assert(spread(before) == spread(before.drop_last()) + total_len(before.last())
                    + before.last().len());
            } else {
                let single = seq![last];
                let after = before.push(single);
                assert(after.drop_last() == before);
                assert(after.last() == single);
                assert(single.drop_last() == Seq::<Seq<char>>::empty());
                assert(total_len(single.drop_last()) == 0);
            }
        }
    }
}

/// Joined, the groups are shorter than their spread by one character each.
proof fn lemma_joined_len(groups: Seq<Seq<Seq<char>>>)
    requires
        forall|k: int| 0 <= k < groups.len() ==> (#[trigger] groups[k]).len() > 0,
    ensures
        total_len(groups.map_values(joiner())) + groups.len() == spread(groups),
    decreases groups.len(),
{
    if groups.len() > 0 {
        let init = groups.drop_last();
        assert forall|k: int| 0 <= k < init.len() implies (#[trigger] init[k]).len() > 0 by {
            assert(init[k] == groups[k]);
        }
        lemma_joined_len(init);
        lemma_join_len(groups.last());
        assert(groups.map_values(joiner()).drop_last() == init.map_values(joiner()));
        assert(groups.map_values(joiner()).last() == join_words(groups.last()));
    } else {
        assert(groups.map_values(joiner()).len() == 0);
    }
}

/// The candidate phrases of a sentence are together no longer than the
/// sentence.
pub proof fn lemma_sentence_phrases_len(sentence: Seq<char>, stop: Set<Seq<char>>)
    ensures
        total_len(sentence_phrases(sentence, stop)) <= sentence.len(),
{
    let tokens = words(sentence);
    let groups = word_groups(sentence, stop);
    lemma_runs_fit(sentence, Separator::Whitespace.predicate());
    lemma_runs_spread(tokens, in_set(stop));
    lemma_runs_are_runs(tokens, in_set(stop));
    assert forall|k: int| 0 <= k < groups.len() implies (#[trigger] groups[k]).len() > 0 by {
        assert(is_run(groups[k], in_set(stop)));
    }
    lemma_joined_len(groups);
    if groups.len() == 0 {
        assert(sentence_phrases(sentence, stop).len() == 0);
    }
}

/// The candidate phrases are together no longer than the sentences.
pub proof fn lemma_candidate_phrases_len(sentences: Seq<Seq<char>>, stop: Set<Seq<char>>)
    ensures
        total_len(candidate_phrases(sentences, stop)) <= total_len(sentences),
    decreases sentences.len(),
{
    if sentences.len() > 0 {
        lemma_candidate_phrases_len(sentences.drop_last(), stop);
        lemma_sentence_phrases_len(sentences.last(), stop);
        lemma_total_len_concat(
            candidate_phrases(sentences.drop_last(), stop),
            sentence_phrases(sentences.last(), stop),
        );
    }
}

} // verus!
