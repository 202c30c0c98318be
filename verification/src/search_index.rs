//! The documents of the search index.

use crate::number::{parse_decimal, parse_u64};
use crate::page::{anchor_models, page_links, Page};
use crate::text::{chars_of, join, joined, replace_char, replaced, string_of, views};
use crate::writer::targets;
use vstd::prelude::*;

verus! {

/// A document of the search index: a page with its text and the pages it
/// links to.
#[derive(Clone, Debug, PartialEq, Eq)]
pub struct Document {
    pub id: u64,
    pub title: String,
    pub content: String,
    /// The pages that the text links to, with `_` for each space, separated
    /// by single spaces.
    pub outlinks: String,
}

/// The names with `_` for each space.
pub open spec fn as_tokens(names: Seq<Seq<char>>) -> Seq<Seq<char>> {
    names.map_values(|n: Seq<char>| replace_char(n, ' ', '_'))
}

/// The field of the links of a text: the pages that its links lead to, each
/// as one token, separated by single spaces.
pub open spec fn outlinks(content: Seq<char>) -> Seq<char> {
    join(as_tokens(targets(page_links(content))), seq![' '])
}

/// The field of the links of a text.
pub fn outlinks_of(content: &str) -> (r: String)
    ensures
        r@ == outlinks(content@),
{
    let anchors = Page::extract_anchors(content);
    let ghost want = as_tokens(targets(page_links(content@)));
    let mut tokens: Vec<Vec<char>> = Vec::new();
    let mut i: usize = 0;
    while i < anchors.len()
        invariant
            i <= anchors.len(),
            anchor_models(anchors@) == page_links(content@),
            want == as_tokens(targets(page_links(content@))),
            tokens@.len() == i,
            forall|j: int| 0 <= j < i ==> (#[trigger] tokens@[j])@ == want[j],
        decreases anchors.len() - i,
    {
        assert(anchor_models(anchors@)[i as int] == anchors@[i as int]@);
        tokens.push(replaced(&chars_of(anchors[i].target().as_str()), ' ', '_'));
        i += 1;
    }
    assert(views(tokens@) =~= want);
    let sep: Vec<char> = vec![' '];
    assert(sep@ =~= seq![' ']);
    string_of(&joined(&tokens, &sep))
}

impl Document {
    /// The document of a page; none where the id of the page is no number.
    pub fn new(id: &str, title: &str, content: &str) -> (r: Option<Document>)
        ensures
            match parse_decimal(id@, u64::MAX as nat) {
                Some(n) => r matches Some(d) && d.id == n && d.title@ == title@ && d.content@
                    == content@ && d.outlinks@ == outlinks(content@),
                None => r is None,
            },
    {
        match parse_u64(&chars_of(id)) {
            Some(n) => Some(
                Document {
                    id: n,
                    title: string_of(&chars_of(title)),
                    content: string_of(&chars_of(content)),
                    outlinks: outlinks_of(content),
                },
            ),
            None => None,
        }
    }
}

/// After how many pages the index is committed.
pub const COMMIT_EVERY: usize = 10000;

/// Whether the index is committed after the page that makes the number of
/// added pages `added`: after every ten thousandth.
pub open spec fn is_commit_due(added: usize) -> bool {
    added > 0 && added % COMMIT_EVERY == 0
}

/// Whether the index is committed now that `added` pages were added.
pub fn commit_due(added: usize) -> (due: bool)
    ensures
        due == is_commit_due(added),
{
    added > 0 && added % COMMIT_EVERY == 0
}

} // verus!
