//! Character-level text handling: lowercasing, splitting a text into the
//! runs between separators, and joining words.

use vstd::prelude::*;
use vstd::std_specs::iter::IteratorSpec;
use vstd::string::{StrSliceExecFns, StringExecFns, StringSliceAdditionalSpecFns};
use vstd::utf8::encode_utf8;

verus! {

broadcast use vstd::string::group_string_axioms;

// ---------------------------------------------------------------------
// What is taken on trust from the standard library
// ---------------------------------------------------------------------

/// The text that `str::to_lowercase` returns for `s`.
pub uninterp spec fn lowercase(s: Seq<char>) -> Seq<char>;

/// Whether `char::is_whitespace` holds of `c`, that is whether `c` has the
/// Unicode property `White_Space`.
pub uninterp spec fn whitespace(c: char) -> bool;

/// `str::to_lowercase` is trusted to return the lowercase equivalent of the
/// text as a new `String`, a function of the characters of `s` alone.
pub assume_specification[ str::to_lowercase ](s: &str) -> (lowered: String)
    ensures
        lowered@ == lowercase(s@),
;

/// `char::is_whitespace` is trusted to decide the property named by
/// [`whitespace`].
pub assume_specification[ char::is_whitespace ](c: char) -> (b: bool)
    ensures
        b == whitespace(c),
;

/// `String::push` is trusted to append `c` to the end of the string.
pub assume_specification[ String::push ](s: &mut String, c: char)
    ensures
        final(s)@ == old(s)@.push(c),
;

// ---------------------------------------------------------------------
// Runs
// ---------------------------------------------------------------------

/// The maximal runs of consecutive elements of `s` that are not separators,
/// in order. Separators belong to no run, and no run is empty.
pub open spec fn runs<T>(s: Seq<T>, separator: spec_fn(T) -> bool) -> Seq<Seq<T>>
    decreases s.len(),
{
    if s.len() == 0 {
        Seq::empty()
    } else {
        let before = runs(s.drop_last(), separator);
        if separator(s.last()) {
            before
        } else if s.len() >= 2 && !separator(s[s.len() - 2]) {
            before.drop_last().push(before.last().push(s.last()))
        } else {
            before.push(seq![s.last()])
        }
    }
}

/// Whether `piece` is non-empty and holds no separator.
pub open spec fn is_run<T>(piece: Seq<T>, separator: spec_fn(T) -> bool) -> bool {
    &&& piece.len() > 0
    &&& forall|j: int| 0 <= j < piece.len() ==> !separator(#[trigger] piece[j])
}

/// The sum of the lengths of `pieces`.
pub open spec fn total_len<T>(pieces: Seq<Seq<T>>) -> nat
    decreases pieces.len(),
{
    if pieces.len() == 0 {
        0
    } else {
        total_len(pieces.drop_last()) + pieces.last().len()
    }
}

/// What separates the pieces of a text.
#[derive(Clone, Copy, Debug, PartialEq, Eq)]
pub enum Separator {
    /// Whitespace separates words.
    Whitespace,
    /// A line feed separates lines.
    LineBreak,
}

impl Separator {
    /// Whether `c` is a separator of this kind. A space always separates
    /// words; of every other character Unicode decides.
    pub open spec fn separates(self, c: char) -> bool {
        match self {
            Separator::Whitespace => c == ' ' || whitespace(c),
            Separator::LineBreak => c == '\n',
        }
    }

    /// [`Self::separates`] as a predicate on characters.
    pub open spec fn predicate(self) -> spec_fn(char) -> bool {
        |c: char| self.separates(c)
    }

    /// Tests whether `c` is a separator of this kind.
    pub fn test(&self, c: char) -> (b: bool)
        ensures
            b == self.separates(c),
    {
        match self {
            Separator::Whitespace => c == ' ' || c.is_whitespace(),
            Separator::LineBreak => c == '\n',
        }
    }
}

/// The words of `s`: its maximal runs of characters that are not whitespace.
pub open spec fn words(s: Seq<char>) -> Seq<Seq<char>> {
    runs(s, Separator::Whitespace.predicate())
}

/// The non-empty lines of `s`: its maximal runs of characters other than
/// the line feed.
pub open spec fn lines(s: Seq<char>) -> Seq<Seq<char>> {
    runs(s, Separator::LineBreak.predicate())
}

/// Whether `word` is non-empty and holds no whitespace.
pub open spec fn is_word(word: Seq<char>) -> bool {
    is_run(word, Separator::Whitespace.predicate())
}

/// The words joined into one text, with one space between neighbours.
pub open spec fn join_words(words: Seq<Seq<char>>) -> Seq<char>
    decreases words.len(),
{
    if words.len() == 0 {
        Seq::empty()
    } else if words.len() == 1 {
        words[0]
    } else {
        join_words(words.drop_last()).push(' ') + words.last()
    }
}

// ---------------------------------------------------------------------
// Splitting and joining
// ---------------------------------------------------------------------

/// Splits `s` into its runs between separators, dropping empty pieces.
pub fn split(s: &str, separator: Separator) -> (pieces: Vec<String>)
    ensures
        pieces.deep_view() == runs(s@, separator.predicate()),
{
    let ghost sep = separator.predicate();
    let mut pieces: Vec<String> = Vec::new();
    let mut current = String::new();
    let mut open = false;
    for c in it: s.chars()
        invariant
            it.seq() == s@,
            sep == separator.predicate(),
            open <==> current@.len() > 0,
            open <==> (it.index() > 0 && !sep(s@[it.index() - 1])),
            runs(s@.take(it.index()), sep) == if open {
                pieces.deep_view().push(current@)
            } else {
                pieces.deep_view()
            },
    {
        let ghost i = it.index();
        let ghost done = pieces.deep_view();
        let ghost word = current@;
        let ghost prefix = s@.take(i + 1);
        assert(prefix.drop_last() == s@.take(i));
        assert(prefix.last() == c);
        if separator.test(c) {
            if open {
                pieces.push(current);
                current = String::new();
                open = false;
                assert(pieces.deep_view() == done.push(word));
            }
        } else {
            current.push(c);
            proof {
                if open {
                    assert(prefix[prefix.len() - 2] == s@[i - 1]);
                    assert(done.push(word).drop_last() == done);
                } else {
                    assert(current@ == seq![c]);
                }
            }
            open = true;
        }
    }
    assert(s@.take(s@.len() as int) == s@);
    if open {
        let ghost done = pieces.deep_view();
        pieces.push(current);
        assert(pieces.deep_view() == done.push(current@));
    }
    pieces
}

/// Splits `s` at whitespace into its words.
pub fn split_whitespace(s: &str) -> (pieces: Vec<String>)
    ensures
        pieces.deep_view() == words(s@),
{
    split(s, Separator::Whitespace)
}

/// Joins `words` with single spaces.
pub fn join(words: &Vec<String>) -> (text: String)
    ensures
        text@ == join_words(words.deep_view()),
{
    let mut text = String::new();
    let mut i: usize = 0;
    while i < words.len()
        invariant
            i <= words.len(),
            text@ == join_words(words.deep_view().take(i as int)),
        decreases words.len() - i,
    {
        let ghost before = words.deep_view().take(i as int);
        let ghost after = words.deep_view().take(i + 1);
        assert(after.drop_last() == before);
        assert(after.last() == words[i as int]@);
        if i > 0 {
            text.push(' ');
        }
        text.append(words[i].as_str());
        i += 1;
    }
    assert(words.deep_view().take(words.len() as int) == words.deep_view());
    text
}

/// The number of characters of all the texts together, if `usize` can
/// hold it.
pub fn total_length(list: &Vec<String>) -> (total: Option<usize>)
    ensures
        match total {
            Some(n) => n == total_len(list.deep_view()),
            None => total_len(list.deep_view()) > usize::MAX,
        },
{
    let ghost all = list.deep_view();
    let mut total: usize = 0;
    let mut i: usize = 0;
    while i < list.len()
        invariant
            i <= list.len(),
            all == list.deep_view(),
            total == total_len(all.take(i as int)),
        decreases list.len() - i,
    {
        proof {
            assert(all.take(i + 1).drop_last() == all.take(i as int));
            assert(all.take(i + 1).last() == list[i as int]@);
            lemma_total_len_concat(all.take(i + 1), all.skip(i + 1));
            assert(all.take(i + 1) + all.skip(i + 1) == all);
        }
        let length = list[i].as_str().unicode_len();
        match total.checked_add(length) {
            Some(sum) => {
                total = sum;
            },
            None => {
                return None;
            },
        }
        i += 1;
    }
    assert(all.take(list.len() as int) == all);
    Some(total)
}

/// Does nothing when run. To the verifier it shows that the characters of
/// `s` can be counted in `usize`, as its bytes can.
pub fn length_fits(s: &str)
    ensures
        s@.len() <= usize::MAX,
{
    let bytes = s.as_bytes();
    proof {
        lemma_chars_within_bytes(s@);
        assert(bytes@.len() == bytes.len());
    }
}

// ---------------------------------------------------------------------
// Laws
// ---------------------------------------------------------------------

/// Every run is non-empty and free of separators, and a sequence that ends
/// in something other than a separator has at least one run.
pub proof fn lemma_runs_are_runs<T>(s: Seq<T>, separator: spec_fn(T) -> bool)
    ensures
        forall|k: int|
            0 <= k < runs(s, separator).len() ==> is_run(
                #[trigger] runs(s, separator)[k],
                separator,
            ),
        s.len() > 0 && !separator(s.last()) ==> runs(s, separator).len() > 0,
        runs(s, separator).len() <= s.len(),
    decreases s.len(),
{
    if s.len() > 0 {
        lemma_runs_are_runs(s.drop_last(), separator);
    }
}

/// Every element of a run is an element of the sequence.
pub proof fn lemma_runs_hold_elements<T>(s: Seq<T>, separator: spec_fn(T) -> bool)
    ensures
        forall|k: int, j: int|
            0 <= k < runs(s, separator).len() && 0 <= j < runs(s, separator)[k].len()
                ==> s.contains(#[trigger] runs(s, separator)[k][j]),
    decreases s.len(),
{
    if s.len() > 0 {
        let init = s.drop_last();
        lemma_runs_hold_elements(init, separator);
        lemma_runs_are_runs(init, separator);
        assert forall|k: int, j: int|
            0 <= k < runs(s, separator).len() && 0 <= j < runs(s, separator)[k].len()
            implies s.contains(#[trigger] runs(s, separator)[k][j]) by {
            let x = runs(s, separator)[k][j];
            if x == s.last() {
                assert(s[s.len() - 1] == x);
            } else {
                assert(init.contains(x));
                let at = choose|at: int| 0 <= at < init.len() && init[at] == x;
                assert(s[at] == x);
            }
        }
    }
}

/// A sequence of separators has no run.
pub proof fn lemma_runs_of_separators<T>(s: Seq<T>, separator: spec_fn(T) -> bool)
    requires
        forall|j: int| 0 <= j < s.len() ==> separator(#[trigger] s[j]),
    ensures
        runs(s, separator).len() == 0,
    decreases s.len(),
{
    if s.len() > 0 {
        lemma_runs_of_separators(s.drop_last(), separator);
    }
}

/// A separator at the end adds nothing to the runs.
pub proof fn lemma_runs_push_separator<T>(s: Seq<T>, x: T, separator: spec_fn(T) -> bool)
    requires
        separator(x),
    ensures
        runs(s.push(x), separator) == runs(s, separator),
{
    assert(s.push(x).drop_last() == s);
}

/// After a separator, or at the start, a piece without separators forms a
/// run of its own.
pub proof fn lemma_runs_append_run<T>(s: Seq<T>, piece: Seq<T>, separator: spec_fn(T) -> bool)
    requires
        s.len() == 0 || separator(s.last()),
        is_run(piece, separator),
    ensures
        runs(s + piece, separator) == runs(s, separator).push(piece),
    decreases piece.len(),
{
    let whole = s + piece;
    assert(whole.drop_last() == s + piece.drop_last());
    assert(whole.last() == piece.last());
    if piece.len() == 1 {
        assert(s + piece.drop_last() == s);
        assert(piece == seq![piece.last()]);
    } else {
        let head = piece.drop_last();
        assert(is_run(head, separator)) by {
            assert forall|j: int| 0 <= j < head.len() implies !separator(#[trigger] head[j]) by {
                assert(head[j] == piece[j]);
            }
        }
        lemma_runs_append_run(s, head, separator);
        assert(whole[whole.len() - 2] == piece[piece.len() - 2]);
        assert(runs(s, separator).push(head).drop_last() == runs(s, separator));
        assert(head.push(piece.last()) == piece);
    }
}

/// The runs before a separator and those behind it are the runs of the
/// whole.
pub proof fn lemma_runs_split<T>(a: Seq<T>, x: T, b: Seq<T>, separator: spec_fn(T) -> bool)
    requires
        separator(x),
    ensures
        runs(a.push(x) + b, separator) == runs(a, separator) + runs(b, separator),
    decreases b.len(),
{
    let head = a.push(x);
    if b.len() == 0 {
        assert(head + b == head);
        lemma_runs_push_separator(a, x, separator);
        assert(runs(a, separator) + runs(b, separator) == runs(a, separator));
    } else {
        let init = b.drop_last();
        let whole = head + b;
        lemma_runs_split(a, x, init, separator);
        lemma_runs_are_runs(init, separator);
        assert(whole.drop_last() == head + init);
        assert(whole.last() == b.last());
        let left = runs(a, separator);
        let right = runs(init, separator);
        if !separator(b.last()) {
            if b.len() >= 2 {
                assert(whole[whole.len() - 2] == b[b.len() - 2]);
                assert(init.last() == b[b.len() - 2]);
            } else {
                assert(whole[whole.len() - 2] == x);
                assert(right.len() == 0);
            }
            if b.len() >= 2 && !separator(b[b.len() - 2]) {
                let grown = right.last().push(b.last());
                assert((left + right).drop_last() == left + right.drop_last());
                assert((left + right.drop_last()).push(grown) == left + right.drop_last().push(
                    grown,
                ));
            } else {
                assert((left + right).push(seq![b.last()]) == left + right.push(seq![b.last()]));
            }
        }
    }
}

/// The runs of a sequence, with one separator after each, fit into the
/// sequence followed by one separator.
pub proof fn lemma_runs_fit<T>(s: Seq<T>, separator: spec_fn(T) -> bool)
    ensures
        total_len(runs(s, separator)) + runs(s, separator).len() <= s.len() + 1,
        s.len() == 0 || separator(s.last()) ==> total_len(runs(s, separator)) + runs(
            s,
            separator,
        ).len() <= s.len(),
    decreases s.len(),
{
    if s.len() > 0 {
        let init = s.drop_last();
        let before = runs(init, separator);
        lemma_runs_fit(init, separator);
        lemma_runs_are_runs(init, separator);
        if !separator(s.last()) {
            if s.len() >= 2 && !separator(s[s.len() - 2]) {
                let grown = before.last().push(s.last());
                let after = before.drop_last().push(grown);
                assert(init.last() == s[s.len() - 2]);
                assert(after.drop_last() == before.drop_last());
                assert(total_len(after) == total_len(before.drop_last()) + grown.len());
                assert(total_len(before) == total_len(before.drop_last()) + before.last().len());
            } else {
                let after = before.push(seq![s.last()]);
                assert(after.drop_last() == before);
                if s.len() >= 2 {
                    assert(init.last() == s[s.len() - 2]);
                }
            }
        }
    }
}

/// The lengths of two lists of pieces add up.
pub proof fn lemma_total_len_concat<T>(a: Seq<Seq<T>>, b: Seq<Seq<T>>)
    ensures
        total_len(a + b) == total_len(a) + total_len(b),
    decreases b.len(),
{
    if b.len() == 0 {
        assert(a + b == a);
    } else {
        lemma_total_len_concat(a, b.drop_last());
        assert((a + b).drop_last() == a + b.drop_last());
    }
}

/// Joined words take one character for each character of a word and one
/// for each gap between neighbours.
pub proof fn lemma_join_len(list: Seq<Seq<char>>)
    ensures
        list.len() > 0 ==> join_words(list).len() + 1 == total_len(list) + list.len(),
        list.len() == 0 ==> join_words(list).len() == 0,
    decreases list.len(),
{
    if list.len() == 1 {
        assert(total_len(list.drop_last()) == 0);
    } else if list.len() > 1 {
        lemma_join_len(list.drop_last());
    }
}

/// Splitting joined words at whitespace gives the words back.
pub proof fn lemma_words_of_joined(list: Seq<Seq<char>>)
    requires
        forall|k: int| 0 <= k < list.len() ==> is_word(#[trigger] list[k]),
    ensures
        words(join_words(list)) == list,
    decreases list.len(),
{
    let sep = Separator::Whitespace.predicate();
    if list.len() == 0 {
    } else if list.len() == 1 {
        lemma_runs_append_run(Seq::empty(), list[0], sep);
        assert(Seq::<char>::empty() + list[0] == list[0]);
        assert(Seq::<Seq<char>>::empty().push(list[0]) == list);
    } else {
        let init = list.drop_last();
        lemma_words_of_joined(init);
        let spaced = join_words(init).push(' ');
        lemma_runs_push_separator(join_words(init), ' ', sep);
        lemma_runs_append_run(spaced, list.last(), sep);
        assert(init.push(list.last()) == list);
    }
}

/// A text has at most as many characters as its encoding has bytes.
pub proof fn lemma_chars_within_bytes(chars: Seq<char>)
    ensures
        chars.len() <= encode_utf8(chars).len(),
    decreases chars.len(),
{
    if chars.len() > 0 {
        lemma_chars_within_bytes(chars.drop_first());
    }
}

} // verus!
