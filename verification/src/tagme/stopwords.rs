//! English words that carry no meaning of their own.

use crate::text::same_text;
use vstd::prelude::*;

verus! {

/// The English stop words.
pub open spec fn stop_list() -> Seq<Seq<char>> {
    seq![
        "i"@, "me"@, "my"@, "myself"@, "we"@, "our"@, "ours"@, "ourselves"@, "you"@, "your"@,
        "yours"@, "yourself"@, "yourselves"@, "he"@, "him"@, "his"@, "himself"@, "she"@,
        "her"@, "hers"@, "herself"@, "it"@, "its"@, "itself"@, "they"@, "them"@, "their"@,
        "theirs"@, "themselves"@, "what"@, "which"@, "who"@, "whom"@, "this"@, "that"@,
        "these"@, "those"@, "am"@, "is"@, "are"@, "was"@, "were"@, "be"@, "been"@, "being"@,
        "have"@, "has"@, "had"@, "having"@, "do"@, "does"@, "did"@, "doing"@, "a"@, "an"@,
        "the"@, "and"@, "but"@, "if"@, "or"@, "because"@, "as"@, "until"@, "while"@, "of"@,
        "at"@, "by"@, "for"@, "with"@, "about"@, "against"@, "between"@, "into"@, "through"@,
        "during"@, "before"@, "after"@, "above"@, "below"@, "to"@, "from"@, "up"@, "down"@,
        "in"@, "out"@, "on"@, "off"@, "over"@, "under"@, "again"@, "further"@, "then"@,
        "once"@, "here"@, "there"@, "when"@, "where"@, "why"@, "how"@, "all"@, "any"@, "both"@,
        "each"@, "few"@, "more"@, "most"@, "other"@, "some"@, "such"@, "no"@, "nor"@, "not"@,
        "only"@, "own"@, "same"@, "so"@, "than"@, "too"@, "very"@, "s"@, "t"@, "can"@, "will"@,
        "just"@, "don"@, "should"@, "now"@,
    ]
}

/// `word` is an English stop word.
pub open spec fn is_stop_word(word: Seq<char>) -> bool {
    stop_list().contains(word)
}

/// The English stop words.
pub fn stopwords_en() -> (list: Vec<&'static str>)
    ensures
        list@.len() == stop_list().len(),
        forall|i: int| 0 <= i < list@.len() ==> (#[trigger] list@[i])@ == stop_list()[i],
{
    vec![
        "i", "me", "my", "myself", "we", "our", "ours", "ourselves", "you", "your", "yours",
        "yourself", "yourselves", "he", "him", "his", "himself", "she", "her", "hers",
        "herself", "it", "its", "itself", "they", "them", "their", "theirs", "themselves",
        "what", "which", "who", "whom", "this", "that", "these", "those", "am", "is", "are",
        "was", "were", "be", "been", "being", "have", "has", "had", "having", "do", "does",
        "did", "doing", "a", "an", "the", "and", "but", "if", "or", "because", "as", "until",
        "while", "of", "at", "by", "for", "with", "about", "against", "between", "into",
        "through", "during", "before", "after", "above", "below", "to", "from", "up", "down",
        "in", "out", "on", "off", "over", "under", "again", "further", "then", "once", "here",
        "there", "when", "where", "why", "how", "all", "any", "both", "each", "few", "more",
        "most", "other", "some", "such", "no", "nor", "not", "only", "own", "same", "so",
        "than", "too", "very", "s", "t", "can", "will", "just", "don", "should", "now",
    ]
}

/// Whether `word` is an English stop word.
pub fn is_stopword(word: &str) -> (b: bool)
    ensures
        b == is_stop_word(word@),
{
    let list = stopwords_en();
    let mut i: usize = 0;
    while i < list.len()
        invariant
            i <= list.len(),
            list@.len() == stop_list().len(),
            forall|j: int| 0 <= j < list@.len() ==> (#[trigger] list@[j])@ == stop_list()[j],
            forall|j: int| 0 <= j < i ==> stop_list()[j] != word@,
        decreases list.len() - i,
    {
        if same_text(list[i], word) {
            assert(stop_list()[i as int] == word@);
            return true;
        }
        i += 1;
    }
    false
}

} // verus!
