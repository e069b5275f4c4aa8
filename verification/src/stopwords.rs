//! Stopword lists: the built-in list of a language, or a list read from
//! the lines of a text.

use vstd::prelude::*;
use vstd::hash_map::StringHashMap;
use vstd::std_specs::iter::IteratorSpec;
use crate::text::{lines, split, Separator};

verus! {

broadcast use vstd::string::group_string_axioms;

/// A language with a built-in stopword list.
#[derive(Clone, Copy, Debug, PartialEq, Eq)]
pub enum Language {
    /// English, the language of every code that names no other.
    English,
    /// Indonesian: `id`, `indonesian`, `indonesia`.
    Indonesian,
    /// Malay: `my`, `malaysian`, `malaysia`.
    Malay,
}

/// The list that `stop_words::get` returns for `language`.
pub uninterp spec fn stop_word_list(language: Language) -> Seq<Seq<char>>;

/// `stop_words::get` is trusted to return, for each of the three languages,
/// its list of stopwords, and the same list every time it is asked for the
/// same language. It panics only for a language that its data lacks, which
/// is none of these three.
#[verifier::external_body]
fn stop_words_of(language: Language) -> (list: Vec<String>)
    ensures
        list.deep_view() == stop_word_list(language),
{
    let outside = match language {
        Language::English => stop_words::LANGUAGE::English,
        Language::Indonesian => stop_words::LANGUAGE::Indonesian,
        Language::Malay => stop_words::LANGUAGE::Malay,
    };
    stop_words::get(outside)
}

/// `c` with an ASCII capital letter replaced by its small letter.
pub open spec fn ascii_lowercase(c: char) -> char {
    if 'A' <= c && c <= 'Z' {
        ((c as u8) + 32) as char
    } else {
        c
    }
}

/// `s` with every ASCII capital letter replaced by its small letter.
pub open spec fn fold_ascii(s: Seq<char>) -> Seq<char> {
    s.map_values(|c: char| ascii_lowercase(c))
}

/// The language that a code stands for, whatever the case of its letters:
/// Indonesian and Malay by their names and short codes, English for every
/// other code.
pub open spec fn language_for_code(code: Seq<char>) -> Language {
    let folded = fold_ascii(code);
    if folded == "id"@ || folded == "indonesian"@ || folded == "indonesia"@ {
        Language::Indonesian
    } else if folded == "my"@ || folded == "malaysian"@ || folded == "malaysia"@ {
        Language::Malay
    } else {
        Language::English
    }
}

/// Replaces an ASCII capital letter by its small letter.
pub fn to_ascii_lowercase(c: char) -> (lowered: char)
    ensures
        lowered == ascii_lowercase(c),
{
    if 'A' <= c && c <= 'Z' {
        ((c as u8) + 32) as char
    } else {
        c
    }
}

/// Replaces every ASCII capital letter of `s` by its small letter.
pub fn to_folded(s: &str) -> (folded: String)
    ensures
        folded@ == fold_ascii(s@),
{
    let mut folded = String::new();
    for c in it: s.chars()
        invariant
            it.seq() == s@,
            folded@ == fold_ascii(s@.take(it.index())),
    {
        folded.push(to_ascii_lowercase(c));
        assert(s@.take(it.index() + 1) == s@.take(it.index()).push(c));
    }
    assert(s@.take(s@.len() as int) == s@);
    folded
}

/// Tests whether `s` reads `literal`.
fn reads(s: &String, literal: &str) -> (b: bool)
    ensures
        b == (s@ == literal@),
{
    let owned = literal.to_owned();
    *s == owned
}

/// Finds the language that `code` stands for.
pub fn language_for(code: &str) -> (language: Language)
    ensures
        language == language_for_code(code@),
{
    let folded = to_folded(code);
    if reads(&folded, "id") || reads(&folded, "indonesian") || reads(&folded, "indonesia") {
        Language::Indonesian
    } else if reads(&folded, "my") || reads(&folded, "malaysian") || reads(&folded, "malaysia") {
        Language::Malay
    } else {
        Language::English
    }
}

/// The built-in stopword list of `language`.
pub fn stopwords_for(language: Language) -> (list: Vec<String>)
    ensures
        list.deep_view() == stop_word_list(language),
{
    stop_words_of(language)
}

/// The stopword list of the language that `lang` stands for. The lookup
/// never fails: a code that names no language gets the English list.
pub fn get_stopwords(lang: &str) -> (found: Option<Vec<String>>)
    ensures
        found matches Some(list) && list.deep_view() == stop_word_list(language_for_code(lang@)),
{
    Some(stopwords_for(language_for(lang)))
}

/// The stopwords that a text lists, one per line. Empty lines are dropped
/// and every other line is taken as it stands.
pub fn parse_stopwords(contents: &str) -> (list: Vec<String>)
    ensures
        list.deep_view() == lines(contents@),
{
    split(contents, Separator::LineBreak)
}

/// A stopword list indexed for lookup.
pub struct StopwordIndex {
    known: StringHashMap<bool>,
}

impl StopwordIndex {
    /// The stopwords of the index.
    pub closed spec fn view(&self) -> Set<Seq<char>> {
        self.known@.dom()
    }

    /// Indexes `stopwords`.
    pub fn new(stopwords: &Vec<String>) -> (index: StopwordIndex)
        ensures
            index@ == stopwords.deep_view().to_set(),
    {
        let mut known: StringHashMap<bool> = StringHashMap::new();
        let mut i: usize = 0;
        while i < stopwords.len()
            invariant
                i <= stopwords.len(),
                known@.dom() == stopwords.deep_view().take(i as int).to_set(),
            decreases stopwords.len() - i,
        {
            let ghost before = stopwords.deep_view().take(i as int);
            let ghost after = stopwords.deep_view().take(i + 1);
            proof {
                assert(after == before.push(stopwords[i as int]@));
                before.lemma_push_to_set_commute(stopwords[i as int]@);
            }
            known.insert(stopwords[i].clone(), true);
            i += 1;
        }
        assert(stopwords.deep_view().take(stopwords.len() as int) == stopwords.deep_view());
        StopwordIndex { known }
    }

    /// Tests whether `word` is a stopword.
    pub fn contains(&self, word: &str) -> (b: bool)
        ensures
            b == self@.contains(word@),
    {
        self.known.contains_key(word)
    }
}

} // verus!
