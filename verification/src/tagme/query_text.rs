//! The text of a query, made ready for matching, and its n-grams.

use crate::text::{chars_of, join, joined, slice_of, string_of, texts, views};
use vstd::prelude::*;

verus! {

/// An ASCII letter or digit.
pub open spec fn is_word_char(c: char) -> bool {
    ('A' <= c && c <= 'Z') || ('a' <= c && c <= 'z') || ('0' <= c && c <= '9')
}

/// The lower case of an ASCII letter; other characters stay.
pub open spec fn lower_char(c: char) -> char {
    if 'A' <= c && c <= 'Z' {
        ((c as u8) + 32) as char
    } else {
        c
    }
}

/// The lower case of ASCII text.
pub open spec fn lower(s: Seq<char>) -> Seq<char> {
    s.map_values(|c: char| lower_char(c))
}

/// Where the word that starts at `from` ends: at the first character that
/// is no letter or digit, or at the end of the text.
pub open spec fn word_end(text: Seq<char>, from: int) -> int
    decreases text.len() - from,
{
    if from < 0 || from >= text.len() || !is_word_char(text[from]) {
        from
    } else {
        word_end(text, from + 1)
    }
}

/// The words of a text from `from` on: its longest runs of ASCII letters and
/// digits, in lower case.
pub open spec fn words_from(text: Seq<char>, from: int) -> Seq<Seq<char>>
    decreases text.len() - from,
{
    if from < 0 || from >= text.len() {
        Seq::empty()
    } else if !is_word_char(text[from]) {
        words_from(text, from + 1)
    } else {
        let end = word_end(text, from);
        if from < end <= text.len() {
            seq![lower(text.subrange(from, end))] + words_from(text, end)
        } else {
            Seq::empty()
        }
    }
}

/// The words of a text.
pub open spec fn words(text: Seq<char>) -> Seq<Seq<char>> {
    words_from(text, 0)
}

/// A text made ready for matching: every run of characters that are no
/// ASCII letters or digits becomes one space, the ends are trimmed, and
/// letters are put in lower case.
pub open spec fn preprocessed(text: Seq<char>) -> Seq<char> {
    join(words(text), seq![' '])
}

/// The n-grams of `n` words that start at the `i`th word or behind it, in
/// order: each is its words joined by single spaces.
pub open spec fn grams_from(words: Seq<Seq<char>>, n: int, i: int) -> Seq<Seq<char>>
    decreases words.len() - i,
{
    if n <= 0 || i < 0 || i + n > words.len() {
        Seq::empty()
    } else {
        seq![join(words.subrange(i, i + n), seq![' '])] + grams_from(words, n, i + 1)
    }
}

/// The n-grams of `n` to `max` words: first all of `n` words, then all of
/// one word more, and so on.
pub open spec fn ngrams_from(words: Seq<Seq<char>>, n: int, max: int) -> Seq<Seq<char>>
    decreases max + 1 - n,
{
    if n > max {
        Seq::empty()
    } else {
        grams_from(words, n, 0) + ngrams_from(words, n + 1, max)
    }
}

/// A word ends behind its start, and in the text.
pub proof fn lemma_word_end(text: Seq<char>, from: int)
    requires
        0 <= from <= text.len(),
    ensures
        from <= word_end(text, from) <= text.len(),
        from < text.len() && is_word_char(text[from]) ==> from < word_end(text, from),
    decreases text.len() - from,
{
    if from < text.len() && is_word_char(text[from]) {
        lemma_word_end(text, from + 1);
    }
}

/// Whether `c` is an ASCII letter or digit.
pub fn is_word(c: char) -> (b: bool)
    ensures
        b == is_word_char(c),
{
    ('A' <= c && c <= 'Z') || ('a' <= c && c <= 'z') || ('0' <= c && c <= '9')
}

/// The lower case of an ASCII letter.
pub fn to_lower(c: char) -> (r: char)
    ensures
        r == lower_char(c),
{
    if 'A' <= c && c <= 'Z' {
        ((c as u8) + 32) as char
    } else {
        c
    }
}

/// The words of a text.
pub fn words_of(text: &Vec<char>) -> (r: Vec<Vec<char>>)
    ensures
        views(r@) == words(text@),
{
    let mut out: Vec<Vec<char>> = Vec::new();
    let mut i: usize = 0;
    assert(views(out@) =~= Seq::empty());
    while i < text.len()
        invariant
            i <= text.len(),
            words(text@) == views(out@) + words_from(text@, i as int),
        decreases text.len() - i,
    {
        if !is_word(text[i]) {
            i += 1;
        } else {
            let mut word: Vec<char> = Vec::new();
            let start = i;
            while i < text.len() && is_word(text[i])
                invariant
                    start <= i <= text.len(),
                    word_end(text@, start as int) == word_end(text@, i as int),
                    word@ == lower(text@.subrange(start as int, i as int)),
                decreases text.len() - i,
            {
                word.push(to_lower(text[i]));
                assert(word@ =~= lower(text@.subrange(start as int, i + 1)));
                i += 1;
            }
            proof {
                lemma_word_end(text@, start as int);
            }
            let ghost before = out@;
            out.push(word);
            assert(views(out@) =~= views(before).push(word@));
            assert(views(before) + (seq![word@] + words_from(text@, i as int)) =~= views(out@)
                + words_from(text@, i as int));
        }
    }
    assert(views(out@) + Seq::<Seq<char>>::empty() =~= views(out@));
    out
}

/// The text of a query, made ready for matching.
#[derive(Clone, Debug, PartialEq, Eq)]
pub struct Query {
    pub id: usize,
    /// The text, made ready.
    pub text: String,
    /// The words of the text.
    pub words: Vec<Vec<char>>,
}

impl Query {
    /// The query of `text`.
    pub fn new(id: usize, text: &str) -> (q: Query)
        ensures
            q.id == id,
            q.text@ == preprocessed(text@),
            views(q.words@) == words(text@),
    {
        let words = words_of(&chars_of(text));
        let sep: Vec<char> = vec![' '];
        assert(sep@ =~= seq![' ']);
        Query { id, text: string_of(&joined(&words, &sep)), words }
    }

    /// The text, made ready.
    pub fn text(&self) -> (s: &str)
        ensures
            s@ == self.text@,
    {
        self.text.as_str()
    }

    /// The n-grams of `min` to `max` words, shorter ones first.
    pub fn split_ngrams(&self, min: usize, max: usize) -> (r: Vec<String>)
        requires
            min >= 1,
        ensures
            texts(r@) == ngrams_from(views(self.words@), min as int, max as int),
    {
        let ghost w = views(self.words@);
        let sep: Vec<char> = vec![' '];
        assert(sep@ =~= seq![' ']);
        let mut out: Vec<String> = Vec::new();
        let mut n: usize = min;
        assert(texts(out@) =~= Seq::empty());
        proof {
            if !(n <= max && n <= self.words.len()) {
                lemma_no_long_grams(w, n as int, max as int);
            }
            assert(Seq::<Seq<char>>::empty() + ngrams_from(w, n as int, max as int)
                =~= ngrams_from(w, n as int, max as int));
        }
        while n <= max && n <= self.words.len()
            invariant_except_break
                1 <= min <= n,
                sep@ == seq![' '],
                w == views(self.words@),
                ngrams_from(w, min as int, max as int) == texts(out@)
                    + ngrams_from(w, n as int, max as int),
                !(n <= max && n <= self.words.len()) ==> ngrams_from(w, n as int, max as int)
                    == Seq::<Seq<char>>::empty(),
            ensures
                ngrams_from(w, min as int, max as int) == texts(out@),
            decreases self.words.len() + 1 - n,
        {
            let ghost head = texts(out@);
            let mut i: usize = 0;
            while i <= self.words.len() - n
                invariant
                    1 <= n <= self.words.len(),
                    sep@ == seq![' '],
                    w == views(self.words@),
                    texts(out@) + grams_from(w, n as int, i as int) == head
                        + grams_from(w, n as int, 0),
                decreases self.words.len() - i,
            {
                let mut gram: Vec<Vec<char>> = Vec::new();
                let mut j: usize = i;
                while j < i + n
                    invariant
                        i <= j <= i + n <= self.words.len(),
                        gram@.len() == j - i,
                        forall|k: int|
                            0 <= k < j - i ==> (#[trigger] gram@[k])@ == self.words@[i + k]@,
                    decreases i + n - j,
                {
                    let word = slice_of(&self.words[j], 0, self.words[j].len());
                    assert(word@ =~= self.words@[j as int]@);
                    gram.push(word);
                    j += 1;
                }
                assert(views(gram@) =~= w.subrange(i as int, i + n));
                let text = string_of(&joined(&gram, &sep));
                let ghost before = out@;
                out.push(text);
                proof {
                    let l = texts(before);
                    assert(texts(out@) =~= l.push(text@));
                    assert(l + (seq![text@] + grams_from(w, n as int, i + 1)) =~= l.push(text@)
                        + grams_from(w, n as int, i + 1));
                }
                i += 1;
            }
            proof {
                assert(grams_from(w, n as int, i as int) =~= Seq::<Seq<char>>::empty());
                let l = texts(out@);
                assert(l + Seq::<Seq<char>>::empty() =~= l);
                assert(head + (grams_from(w, n as int, 0) + ngrams_from(w, n + 1, max as int))
                    =~= (head + grams_from(w, n as int, 0)) + ngrams_from(w, n + 1, max as int));
            }
            if n == usize::MAX {
                proof {
                    lemma_no_long_grams(w, n + 1, max as int);
                    let l = texts(out@);
                    assert(l + Seq::<Seq<char>>::empty() =~= l);
                }
                break ;
            }
            n += 1;
            proof {
                if !(n <= max && n <= self.words.len()) {
                    lemma_no_long_grams(w, n as int, max as int);
                    let l = texts(out@);
                    assert(l + Seq::<Seq<char>>::empty() =~= l);
                }
            }
        }
        out
    }
}

/// There are no n-grams of more words than the text has.
pub proof fn lemma_no_long_grams(words: Seq<Seq<char>>, n: int, max: int)
    requires
        n > max || n > words.len(),
        n >= 1,
    ensures
        ngrams_from(words, n, max) == Seq::<Seq<char>>::empty(),
    decreases max + 1 - n,
{
    if n <= max {
        lemma_no_long_grams(words, n + 1, max);
        assert(grams_from(words, n, 0) =~= Seq::<Seq<char>>::empty());
        assert(Seq::<Seq<char>>::empty() + Seq::<Seq<char>>::empty() =~= Seq::<Seq<char>>::empty());
    }
}

} // verus!
