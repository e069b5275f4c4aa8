//! Sentence segmentation: a text is cut at every period and comma.

use vstd::prelude::*;
use vstd::std_specs::iter::IteratorSpec;
use crate::text::{length_fits, lowercase, total_len};

verus! {

broadcast use vstd::string::group_string_axioms;

/// Whether `c` ends a sentence: a period or a comma.
pub open spec fn is_delimiter(c: char) -> bool {
    c == '.' || c == ','
}

/// How many characters of `s` are delimiters.
pub open spec fn delimiter_count(s: Seq<char>) -> nat
    decreases s.len(),
{
    if s.len() == 0 {
        0
    } else {
        delimiter_count(s.drop_last()) + if is_delimiter(s.last()) {
            1nat
        } else {
            0nat
        }
    }
}

/// The pieces of `s` between its delimiters, in order. The delimiters are
/// dropped; a piece may be empty, and there is always at least one.
pub open spec fn sentences(s: Seq<char>) -> Seq<Seq<char>>
    decreases s.len(),
{
    if s.len() == 0 {
        seq![Seq::empty()]
    } else {
        let before = sentences(s.drop_last());
        if is_delimiter(s.last()) {
            before.push(Seq::empty())
        } else {
            before.drop_last().push(before.last().push(s.last()))
        }
    }
}

/// Tests whether `c` ends a sentence.
pub fn delimiter(c: char) -> (b: bool)
    ensures
        b == is_delimiter(c),
{
    c == '.' || c == ','
}

/// Cuts `text` at every period and comma.
pub fn split_sentences(text: &str) -> (pieces: Vec<String>)
    ensures
        pieces.deep_view() == sentences(text@),
        pieces.len() == delimiter_count(text@) + 1,
        total_len(pieces.deep_view()) <= usize::MAX,
{
    length_fits(text);
    let mut pieces: Vec<String> = Vec::new();
    let mut current = String::new();
    for c in it: text.chars()
        invariant
            it.seq() == text@,
            sentences(text@.take(it.index())) == pieces.deep_view().push(current@),
    {
        let ghost i = it.index();
        let ghost done = pieces.deep_view();
        let ghost piece = current@;
        let ghost prefix = text@.take(i + 1);
        assert(prefix.drop_last() == text@.take(i));
        assert(prefix.last() == c);
        assert(done.push(piece).drop_last() == done);
        if delimiter(c) {
            pieces.push(current);
            current = String::new();
            assert(pieces.deep_view() == done.push(piece));
        } else {
            current.push(c);
        }
    }
    assert(text@.take(text@.len() as int) == text@);
    let ghost done = pieces.deep_view();
    pieces.push(current);
    assert(pieces.deep_view() == done.push(current@));
    proof {
        lemma_sentences(text@);
    }
    pieces
}

/// Lowercases `text` and cuts it into sentences.
pub fn extract_sentences(text: &str) -> (pieces: Vec<String>)
    ensures
        pieces.deep_view() == sentences(lowercase(text@)),
        pieces.len() == delimiter_count(lowercase(text@)) + 1,
        total_len(pieces.deep_view()) <= usize::MAX,
{
    let lowered = text.to_lowercase();
    split_sentences(lowered.as_str())
}

/// A text has one sentence more than it has delimiters, no sentence holds a
/// delimiter, and sentences and delimiters together make up the text.
pub proof fn lemma_sentences(s: Seq<char>)
    ensures
        sentences(s).len() == delimiter_count(s) + 1,
        forall|k: int, j: int|
            0 <= k < sentences(s).len() && 0 <= j < sentences(s)[k].len() ==> !is_delimiter(
                #[trigger] sentences(s)[k][j],
            ),
        total_len(sentences(s)) + delimiter_count(s) == s.len(),
    decreases s.len(),
{
    if s.len() == 0 {
        assert(sentences(s).drop_last() == Seq::<Seq<char>>::empty());
        assert(total_len(sentences(s).drop_last()) == 0);
    } else {
        lemma_sentences(s.drop_last());
        let before = sentences(s.drop_last());
        if is_delimiter(s.last()) {
            assert(before.push(Seq::empty()).drop_last() == before);
        } else {
            let grown = before.last().push(s.last());
            let after = before.drop_last().push(grown);
            assert(after.drop_last() == before.drop_last());
            assert(total_len(after) == total_len(before.drop_last()) + grown.len());
            assert(total_len(before) == total_len(before.drop_last()) + before.last().len());
        }
    }
}

/// A text without a delimiter is one sentence.
pub proof fn lemma_sentence_alone(s: Seq<char>)
    requires
        forall|j: int| 0 <= j < s.len() ==> !is_delimiter(#[trigger] s[j]),
    ensures
        sentences(s) == seq![s],
    decreases s.len(),
{
    if s.len() > 0 {
        let init = s.drop_last();
        assert forall|j: int| 0 <= j < init.len() implies !is_delimiter(#[trigger] init[j]) by {
            assert(init[j] == s[j]);
        }
        lemma_sentence_alone(init);
        assert(!is_delimiter(s[s.len() - 1]));
        assert(init.push(s.last()) == s);
        assert(seq![init].drop_last().push(s) == seq![s]);
    } else {
        assert(s == Seq::<char>::empty());
    }
}

/// The sentences before a delimiter and those behind it are the sentences
/// of the whole.
pub proof fn lemma_sentences_split(a: Seq<char>, d: char, b: Seq<char>)
    requires
        is_delimiter(d),
    ensures
        sentences(a.push(d) + b) == sentences(a) + sentences(b),
    decreases b.len(),
{
    let head = a.push(d);
    if b.len() == 0 {
        assert(head + b == head);
        assert(head.drop_last() == a);
        assert(sentences(a).push(Seq::empty()) == sentences(a) + sentences(b));
    } else {
        let init = b.drop_last();
        let whole = head + b;
        lemma_sentences_split(a, d, init);
        lemma_sentences(init);
        assert(whole.drop_last() == head + init);
        assert(whole.last() == b.last());
        let left = sentences(a);
        let right = sentences(init);
        if is_delimiter(b.last()) {
            assert((left + right).push(Seq::empty()) == left + right.push(Seq::empty()));
        } else {
            let grown = right.last().push(b.last());
            assert((left + right).drop_last() == left + right.drop_last());
            assert((left + right).last() == right.last());
            assert((left + right.drop_last()).push(grown) == left + right.drop_last().push(grown));
        }
    }
}

} // verus!
